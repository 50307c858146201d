//! The two-dimensional table: bilinear interpolation between samples of a
//! function of two variables, the boundary values outside them, and a memory
//! of the queries already answered.

pub mod interpolation;

use crate::binary64::format::is_nan_spec;
use crate::error::ConstructionError;
use interpolation::{
    bilinear_spec, construction_error, grid_of_rows, interpolate, is_grid,
    is_object_constructible, SurfaceValueGetter,
};
use std::borrow::Cow;
use std::collections::HashMap;
use vstd::prelude::*;

verus! {

broadcast use vstd::std_specs::hash::group_hash_axioms;

/// Two to the 64: the weight of the first coordinate in the key of a query.
pub const KEY_RADIX: u128 = 0x1_0000_0000_0000_0000;

/// The key under which the result for `(x, y)` is remembered: the two bit
/// patterns side by side.
pub open spec fn pair_key_spec(x: u64, y: u64) -> u128 {
    (x * KEY_RADIX + y) as u128
}

/// Computes the key of a query.
#[verifier::when_used_as_spec(pair_key_spec)]
pub fn pair_key(x: u64, y: u64) -> (key: u128)
    ensures
        key == pair_key_spec(x, y),
        key / KEY_RADIX == x,
        key % KEY_RADIX == y,
{
    (x as u128) * KEY_RADIX + (y as u128)
}

/// Two queries share a key only if they are the same query, bit for bit.
pub proof fn lemma_pair_key_is_injective(x1: u64, y1: u64, x2: u64, y2: u64)
    requires
        pair_key_spec(x1, y1) == pair_key_spec(x2, y2),
    ensures
        x1 == x2,
        y1 == y2,
{
}

/// The value of a table at `(x, y)`. A surface with as many rows as `ys` has
/// entries is read with `xs` along its rows; one that has as many rows as `xs`
/// instead is read with the axes exchanged.
pub open spec fn surface_value(
    swapped: bool,
    x: u64,
    y: u64,
    xs: Seq<u64>,
    ys: Seq<u64>,
    g: Seq<Seq<u64>>,
) -> u64 {
    if swapped {
        bilinear_spec(y, x, ys, xs, g)
    } else {
        bilinear_spec(x, y, xs, ys, g)
    }
}

/// Whether every remembered result is the value of the table at its query.
pub open spec fn cache_agrees(
    cache: Map<u128, u64>,
    swapped: bool,
    xs: Seq<u64>,
    ys: Seq<u64>,
    g: Seq<Seq<u64>>,
) -> bool {
    forall|k: u128| #[trigger]
        cache.contains_key(k) ==> cache[k] == surface_value(
            swapped,
            (k / KEY_RADIX) as u64,
            (k % KEY_RADIX) as u64,
            xs,
            ys,
            g,
        )
}

/// What the samples of a table satisfy: nothing stands against them, and the
/// surface has a value for each pair of breakpoints, its rows running along
/// the axis that `swapped` names.
pub open spec fn valid_samples(swapped: bool, xs: Seq<u64>, ys: Seq<u64>, g: Seq<Seq<u64>>) -> bool {
    &&& construction_error(xs, ys, g) is None
    &&& swapped == (xs.len() != ys.len() && xs.len() == g.len())
    &&& if swapped {
        is_grid(g, xs.len() as int, ys.len() as int)
    } else {
        is_grid(g, ys.len() as int, xs.len() as int)
    }
}

/// The rows of a surface that is held as an array of arrays.
pub open spec fn grid_of_arrays<const M: usize, const N: usize>(surface: SurfaceType<M, N>) -> Seq<
    Seq<u64>,
> {
    Seq::new(M as nat, |i: int| surface@[i]@)
}

/// A surface held as an array of `M` rows of `N` values.
pub type SurfaceType<const M: usize, const N: usize> = [[u64; N]; M];

/// A table that owns its samples: `M` breakpoints on the first axis, `N` on the
/// second, and a surface of `M` rows of `N` values.
#[derive(Debug)]
pub struct TwoDLookUpTable<const M: usize, const N: usize> {
    x: [u64; M],
    y: [u64; N],
    surface: SurfaceType<M, N>,
    cache: HashMap<u128, u64>,
}

impl<const M: usize, const N: usize> SurfaceValueGetter for TwoDLookUpTable<M, N> {
    closed spec fn grid(&self) -> Seq<Seq<u64>> {
        grid_of_arrays(self.surface)
    }

    fn get(&self, x: usize, y: usize) -> (value: u64) {
        self.surface[x][y]
    }
}

impl<const M: usize, const N: usize> TwoDLookUpTable<M, N> {
    /// The breakpoints of the first axis.
    pub closed spec fn xs(&self) -> Seq<u64> {
        self.x@
    }

    /// The breakpoints of the second axis.
    pub closed spec fn ys(&self) -> Seq<u64> {
        self.y@
    }

    /// The results remembered so far, by the key of the query.
    pub closed spec fn cached(&self) -> Map<u128, u64> {
        self.cache@
    }

    /// Whether the first axis runs down the rows of the surface: so it is when
    /// the axes differ in length.
    pub open spec fn swapped(&self) -> bool {
        M != N
    }

    /// The invariant of a table: its samples are valid and its memory holds
    /// nothing but values of the table.
    pub open spec fn wf(&self) -> bool {
        &&& valid_samples(self.swapped(), self.xs(), self.ys(), self.grid())
        &&& cache_agrees(self.cached(), self.swapped(), self.xs(), self.ys(), self.grid())
    }

    /// The value of the table at `(x, y)`.
    pub open spec fn value_at(&self, x: u64, y: u64) -> u64 {
        surface_value(self.swapped(), x, y, self.xs(), self.ys(), self.grid())
    }

    /// What a call of `get` with `(x, y)` does: it returns the value `z` of the
    /// table and leaves the table as `after`, with the same samples and with `z`
    /// remembered for the query.
    pub open spec fn answers(&self, x: u64, y: u64, z: u64, after: &Self) -> bool {
        &&& after.wf()
        &&& after.xs() == self.xs()
        &&& after.ys() == self.ys()
        &&& after.grid() == self.grid()
        &&& z == self.value_at(x, y)
        &&& after.cached() == self.cached().insert(pair_key_spec(x, y), z)
    }

    /// Asking the same query twice gives the same answer twice, and the second
    /// answer comes from memory: the first call remembered it, and the second
    /// call stores nothing new.
    pub proof fn lemma_repeated_query(
        &self,
        x: u64,
        y: u64,
        first: u64,
        between: &Self,
        second: u64,
        after: &Self,
    )
        requires
            self.wf(),
            self.answers(x, y, first, between),
            between.answers(x, y, second, after),
        ensures
            first == second,
            after.cached() == between.cached(),
            between.cached().contains_key(pair_key_spec(x, y)),
            between.cached()[pair_key_spec(x, y)] == second,
    {
        assert(between.cached().insert(pair_key_spec(x, y), second) =~= between.cached());
    }

    /// Builds a table from two axes and a surface, or says why they make none.
    pub fn new(xs: [u64; M], ys: [u64; N], surface: SurfaceType<M, N>) -> (r: Result<
        TwoDLookUpTable<M, N>,
        ConstructionError,
    >)
        ensures
            match r {
                Ok(table) => {
                    &&& construction_error(xs@, ys@, grid_of_arrays(surface)) is None
                    &&& table.wf()
                    &&& table.xs() == xs@
                    &&& table.ys() == ys@
                    &&& table.grid() == grid_of_arrays(surface)
                    &&& table.cached() == Map::<u128, u64>::empty()
                },
                Err(e) => construction_error(xs@, ys@, grid_of_arrays(surface)) == Some(e),
            },
    {
        let mut rows: Vec<&[u64]> = Vec::new();
        let mut i: usize = 0;
        while i < M
            invariant
                i <= M,
                rows@.len() == i,
                forall|j: int| 0 <= j < i ==> (#[trigger] rows@[j])@ == surface@[j]@,
            decreases M - i,
        {
            rows.push(surface[i].as_slice());
            i = i + 1;
        }
        assert(grid_of_rows(rows@) =~= grid_of_arrays(surface));
        match is_object_constructible(xs.as_slice(), ys.as_slice(), rows.as_slice()) {
            Ok(_) => Ok(TwoDLookUpTable { x: xs, y: ys, surface, cache: HashMap::new() }),
            Err(e) => Err(e),
        }
    }

    /// Returns the value of the table at `(x, y)`.
    pub fn get(&mut self, x: u64, y: u64) -> (z: u64)
        requires
            old(self).wf(),
            !is_nan_spec(x),
            !is_nan_spec(y),
        ensures
            old(self).answers(x, y, z, final(self)),
    {
        let key: u128 = pair_key(x, y);
        match self.cache.get(&key) {
            Some(known) => {
                let z: u64 = *known;
                assert(self.cache@.insert(key, z) =~= self.cache@);
                return z;
            },
            None => {},
        }
        let z: u64 = if M != N {
            interpolate(y, x, self.y.as_slice(), self.x.as_slice(), &*self)
        } else {
            interpolate(x, y, self.x.as_slice(), self.y.as_slice(), &*self)
        };
        self.cache.insert(key, z);
        z
    }

    /// Tells whether the result for `(x, y)` is remembered.
    pub fn is_cached(&self, x: u64, y: u64) -> (r: bool)
        ensures
            r == self.cached().contains_key(pair_key_spec(x, y)),
    {
        let key: u128 = pair_key(x, y);
        self.cache.contains_key(&key)
    }
}

/// The rows of a surface that is held in copy-on-write containers.
pub open spec fn grid_of_cows(rows: Seq<Cow<'static, [u64]>>) -> Seq<Seq<u64>> {
    Seq::new(rows.len(), |i: int| rows[i]@)
}

/// A table over samples that it borrows. The surface may have a row for each
/// entry of the first axis or a row for each entry of the second.
#[derive(Debug)]
pub struct TwoDLookUpTableRef<'a, 'b, 'c> {
    xs: &'a [u64],
    ys: &'b [u64],
    surface: Vec<&'c [u64]>,
    cache: HashMap<u128, u64>,
    xy_swapped: bool,
}

impl SurfaceValueGetter for TwoDLookUpTableRef<'_, '_, '_> {
    closed spec fn grid(&self) -> Seq<Seq<u64>> {
        grid_of_rows(self.surface@)
    }

    fn get(&self, x: usize, y: usize) -> (value: u64) {
        self.surface[x][y]
    }
}

impl<'a, 'b, 'c> TwoDLookUpTableRef<'a, 'b, 'c> {
    /// The breakpoints of the first axis.
    pub closed spec fn xs(&self) -> Seq<u64> {
        self.xs@
    }

    /// The breakpoints of the second axis.
    pub closed spec fn ys(&self) -> Seq<u64> {
        self.ys@
    }

    /// The results remembered so far, by the key of the query.
    pub closed spec fn cached(&self) -> Map<u128, u64> {
        self.cache@
    }

    /// Whether the first axis runs down the rows of the surface.
    pub closed spec fn swapped(&self) -> bool {
        self.xy_swapped
    }

    /// The invariant of a table: its samples are valid and its memory holds
    /// nothing but values of the table.
    pub open spec fn wf(&self) -> bool {
        &&& valid_samples(self.swapped(), self.xs(), self.ys(), self.grid())
        &&& cache_agrees(
            self.cached(),
            self.swapped(),
            self.xs(),
            self.ys(),
            self.grid(),
        )
    }

    /// The value of the table at `(x, y)`.
    pub open spec fn value_at(&self, x: u64, y: u64) -> u64 {
        surface_value(
            self.swapped(),
            x,
            y,
            self.xs(),
            self.ys(),
            self.grid(),
        )
    }

    /// What a call of `get` with `(x, y)` does: it returns the value `z` of the
    /// table and leaves the table as `after`, with the same samples and with `z`
    /// remembered for the query.
    pub open spec fn answers(&self, x: u64, y: u64, z: u64, after: &Self) -> bool {
        &&& after.wf()
        &&& after.xs() == self.xs()
        &&& after.ys() == self.ys()
        &&& after.grid() == self.grid()
        &&& after.swapped() == self.swapped()
        &&& z == self.value_at(x, y)
        &&& after.cached() == self.cached().insert(pair_key_spec(x, y), z)
    }

    /// Asking the same query twice gives the same answer twice, and the second
    /// answer comes from memory: the first call remembered it, and the second
    /// call stores nothing new.
    pub proof fn lemma_repeated_query(
        &self,
        x: u64,
        y: u64,
        first: u64,
        between: &Self,
        second: u64,
        after: &Self,
    )
        requires
            self.wf(),
            self.answers(x, y, first, between),
            between.answers(x, y, second, after),
        ensures
            first == second,
            after.cached() == between.cached(),
            between.cached().contains_key(pair_key_spec(x, y)),
            between.cached()[pair_key_spec(x, y)] == second,
    {
        assert(between.cached().insert(pair_key_spec(x, y), second) =~= between.cached());
    }

    /// Builds a table over two axes and a surface held in copy-on-write
    /// containers, or says why they make none.
    pub fn from_cow(
        xs: &'a [u64],
        ys: &'b [u64],
        surface: &'static Cow<'static, [Cow<'static, [u64]>]>,
    ) -> (r: Result<TwoDLookUpTableRef<'a, 'b, 'c>, ConstructionError>)
        requires
            is_grid(grid_of_cows(surface@), xs@.len() as int, ys@.len() as int) || is_grid(
                grid_of_cows(surface@),
                ys@.len() as int,
                xs@.len() as int,
            ),
        ensures
            match r {
                Ok(table) => {
                    &&& construction_error(xs@, ys@, grid_of_cows(surface@)) is None
                    &&& table.wf()
                    &&& table.xs() == xs@
                    &&& table.ys() == ys@
                    &&& table.grid() == grid_of_cows(surface@)
                    &&& table.swapped() == (xs@.len() != ys@.len() && xs@.len() == surface@.len())
                    &&& table.cached() == Map::<u128, u64>::empty()
                },
                Err(e) => construction_error(xs@, ys@, grid_of_cows(surface@)) == Some(e),
            },
    {
        let rows: &'static [Cow<'static, [u64]>] = match surface {
            Cow::Borrowed(borrowed) => borrowed,
            Cow::Owned(owned) => owned.as_slice(),
        };
        let mut vec: Vec<&'c [u64]> = Vec::new();
        let mut i: usize = 0;
        while i < rows.len()
            invariant
                i <= rows.len(),
                rows@ == surface@,
                vec@.len() == i,
                forall|j: int| 0 <= j < i ==> (#[trigger] vec@[j])@ == rows@[j]@,
            decreases rows.len() - i,
        {
            let row: &'static [u64] = match &rows[i] {
                Cow::Borrowed(borrowed) => borrowed,
                Cow::Owned(owned) => owned.as_slice(),
            };
            vec.push(row);
            i = i + 1;
        }
        assert(grid_of_rows(vec@) =~= grid_of_cows(surface@));
        match is_object_constructible(xs, ys, vec.as_slice()) {
            Ok(_) => Ok(
                TwoDLookUpTableRef {
                    xs,
                    ys,
                    surface: vec,
                    cache: HashMap::new(),
                    xy_swapped: xs.len() != ys.len() && xs.len() == rows.len(),
                },
            ),
            Err(e) => Err(e),
        }
    }

    /// Builds a table over two axes and a surface that has a value for each pair
    /// of breakpoints, or says why they make none.
    pub fn new(xs: &'a [u64], ys: &'b [u64], surface: &'c [&'c [u64]]) -> (r: Result<
        TwoDLookUpTableRef<'a, 'b, 'c>,
        ConstructionError,
    >)
        requires
            is_grid(grid_of_rows(surface@), xs@.len() as int, ys@.len() as int) || is_grid(
                grid_of_rows(surface@),
                ys@.len() as int,
                xs@.len() as int,
            ),
        ensures
            match r {
                Ok(table) => {
                    &&& construction_error(xs@, ys@, grid_of_rows(surface@)) is None
                    &&& table.wf()
                    &&& table.xs() == xs@
                    &&& table.ys() == ys@
                    &&& table.grid() == grid_of_rows(surface@)
                    &&& table.swapped() == (xs@.len() != ys@.len() && xs@.len() == surface@.len())
                    &&& table.cached() == Map::<u128, u64>::empty()
                },
                Err(e) => construction_error(xs@, ys@, grid_of_rows(surface@)) == Some(e),
            },
    {
        let mut vec: Vec<&'c [u64]> = Vec::new();
        let mut i: usize = 0;
        while i < surface.len()
            invariant
                i <= surface.len(),
                vec@.len() == i,
                forall|j: int| 0 <= j < i ==> #[trigger] vec@[j] == surface@[j],
            decreases surface.len() - i,
        {
            vec.push(surface[i]);
            i = i + 1;
        }
        assert(vec@ =~= surface@);
        match is_object_constructible(xs, ys, vec.as_slice()) {
            Ok(_) => Ok(
                TwoDLookUpTableRef {
                    xs,
                    ys,
                    surface: vec,
                    cache: HashMap::new(),
                    xy_swapped: xs.len() != ys.len() && xs.len() == surface.len(),
                },
            ),
            Err(e) => Err(e),
        }
    }

    /// Returns the value of the table at `(x, y)`.
    pub fn get(&mut self, x: u64, y: u64) -> (z: u64)
        requires
            old(self).wf(),
            !is_nan_spec(x),
            !is_nan_spec(y),
        ensures
            old(self).answers(x, y, z, final(self)),
    {
        let key: u128 = pair_key(x, y);
        match self.cache.get(&key) {
            Some(known) => {
                let z: u64 = *known;
                assert(self.cache@.insert(key, z) =~= self.cache@);
                return z;
            },
            None => {},
        }
        let z: u64 = if self.xy_swapped {
            interpolate(y, x, self.ys, self.xs, &*self)
        } else {
            interpolate(x, y, self.xs, self.ys, &*self)
        };
        self.cache.insert(key, z);
        z
    }

    /// Tells whether the result for `(x, y)` is remembered.
    pub fn is_cached(&self, x: u64, y: u64) -> (r: bool)
        ensures
            r == self.cached().contains_key(pair_key_spec(x, y)),
    {
        let key: u128 = pair_key(x, y);
        self.cache.contains_key(&key)
    }
}

} // verus!
