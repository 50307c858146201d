//! The one-dimensional table: linear interpolation between samples of a
//! function of one variable, the boundary value outside them, and a memory of
//! the queries already answered.

pub mod interpolation;

use crate::binary64::format::is_nan_spec;
use crate::error::ConstructionError;
use interpolation::{
    cache_agrees, construction_error, interpolate_cached, interpolate_spec,
    is_object_constructible, out_of_range, valid_samples,
};
use std::collections::HashMap;
use vstd::prelude::*;

verus! {

broadcast use vstd::std_specs::hash::group_hash_axioms;

/// A table that owns its samples.
#[derive(Debug)]
pub struct OneDLookUpTable<const N: usize> {
    x: [u64; N],
    y: [u64; N],
    cache: HashMap<u64, u64>,
}

impl<const N: usize> OneDLookUpTable<N> {
    /// The breakpoints.
    pub closed spec fn xs(&self) -> Seq<u64> {
        self.x@
    }

    /// The values, one for each breakpoint.
    pub closed spec fn ys(&self) -> Seq<u64> {
        self.y@
    }

    /// The results remembered so far, by the bit pattern of the query.
    pub closed spec fn cached(&self) -> Map<u64, u64> {
        self.cache@
    }

    /// The invariant of a table: its samples are valid and its memory holds
    /// nothing but values of the table.
    pub open spec fn wf(&self) -> bool {
        &&& valid_samples(self.xs(), self.ys())
        &&& cache_agrees(self.cached(), self.xs(), self.ys())
    }

    /// The value of the table at `q`.
    pub open spec fn value_at(&self, q: u64) -> u64 {
        interpolate_spec(q, self.xs(), self.ys())
    }

    /// What a call of `get` with `index` does: it returns the value `y` of the
    /// table and leaves the table as `after`, with the same samples and, unless
    /// the query lies outside the breakpoints, with `y` remembered for `index`.
    pub open spec fn answers(&self, index: u64, y: u64, after: &Self) -> bool {
        &&& after.wf()
        &&& after.xs() == self.xs()
        &&& after.ys() == self.ys()
        &&& y == self.value_at(index)
        &&& out_of_range(index, self.xs()) ==> after.cached() == self.cached()
        &&& !out_of_range(index, self.xs()) ==> after.cached() == self.cached().insert(index, y)
    }

    /// Asking the same query twice gives the same answer twice, and the second
    /// answer comes from memory: the first call remembered it, unless the query
    /// lies outside the breakpoints, and the second call stores nothing new.
    pub proof fn lemma_repeated_query(
        &self,
        index: u64,
        first: u64,
        between: &Self,
        second: u64,
        after: &Self,
    )
        requires
            self.wf(),
            self.answers(index, first, between),
            between.answers(index, second, after),
        ensures
            first == second,
            after.cached() == between.cached(),
            !out_of_range(index, self.xs()) ==> between.cached().contains_key(index)
                && between.cached()[index] == second,
    {
        if !out_of_range(index, self.xs()) {
            assert(between.cached().insert(index, second) =~= between.cached());
        }
    }

    /// Builds a table from breakpoints and values, or says why they make none.
    pub fn new(x: [u64; N], y: [u64; N]) -> (r: Result<OneDLookUpTable<N>, ConstructionError>)
        ensures
            match r {
                Ok(table) => {
                    &&& construction_error(x@, y@) is None
                    &&& table.wf()
                    &&& table.xs() == x@
                    &&& table.ys() == y@
                    &&& table.cached() == Map::<u64, u64>::empty()
                },
                Err(e) => construction_error(x@, y@) == Some(e),
            },
    {
        match is_object_constructible(x.as_slice(), y.as_slice()) {
            Ok(_) => Ok(OneDLookUpTable { x, y, cache: HashMap::new() }),
            Err(e) => Err(e),
        }
    }

    /// Returns the value of the table at `index`.
    pub fn get(&mut self, index: u64) -> (y: u64)
        requires
            old(self).wf(),
            !is_nan_spec(index),
        ensures
            old(self).answers(index, y, final(self)),
    {
        interpolate_cached(index, self.x.as_slice(), self.y.as_slice(), &mut self.cache)
    }

    /// Tells whether the result for `index` is remembered.
    pub fn is_cached(&self, index: u64) -> (r: bool)
        ensures
            r == self.cached().contains_key(index),
    {
        self.cache.contains_key(&index)
    }
}

/// A table over samples that it borrows.
#[derive(Debug)]
pub struct OneDLookUpTableRef<'a, 'b> {
    xs: &'a [u64],
    ys: &'b [u64],
    cache: HashMap<u64, u64>,
}

impl<'a, 'b> OneDLookUpTableRef<'a, 'b> {
    /// The breakpoints.
    pub closed spec fn xs(&self) -> Seq<u64> {
        self.xs@
    }

    /// The values, one for each breakpoint.
    pub closed spec fn ys(&self) -> Seq<u64> {
        self.ys@
    }

    /// The results remembered so far, by the bit pattern of the query.
    pub closed spec fn cached(&self) -> Map<u64, u64> {
        self.cache@
    }

    /// The invariant of a table: its samples are valid and its memory holds
    /// nothing but values of the table.
    pub open spec fn wf(&self) -> bool {
        &&& valid_samples(self.xs(), self.ys())
        &&& cache_agrees(self.cached(), self.xs(), self.ys())
    }

    /// The value of the table at `q`.
    pub open spec fn value_at(&self, q: u64) -> u64 {
        interpolate_spec(q, self.xs(), self.ys())
    }

    /// What a call of `get` with `index` does: it returns the value `y` of the
    /// table and leaves the table as `after`, with the same samples and, unless
    /// the query lies outside the breakpoints, with `y` remembered for `index`.
    pub open spec fn answers(&self, index: u64, y: u64, after: &Self) -> bool {
        &&& after.wf()
        &&& after.xs() == self.xs()
        &&& after.ys() == self.ys()
        &&& y == self.value_at(index)
        &&& out_of_range(index, self.xs()) ==> after.cached() == self.cached()
        &&& !out_of_range(index, self.xs()) ==> after.cached() == self.cached().insert(
            index,
            y,
        )
    }

    /// Asking the same query twice gives the same answer twice, and the second
    /// answer comes from memory: the first call remembered it, unless the query
    /// lies outside the breakpoints, and the second call stores nothing new.
    pub proof fn lemma_repeated_query(
        &self,
        index: u64,
        first: u64,
        between: &Self,
        second: u64,
        after: &Self,
    )
        requires
            self.wf(),
            self.answers(index, first, between),
            between.answers(index, second, after),
        ensures
            first == second,
            after.cached() == between.cached(),
            !out_of_range(index, self.xs()) ==> between.cached().contains_key(index)
                && between.cached()[index] == second,
    {
        if !out_of_range(index, self.xs()) {
            assert(between.cached().insert(index, second) =~= between.cached());
        }
    }

    /// Builds a table over breakpoints and as many values, or says why they
    /// make none.
    pub fn new(xs: &'a [u64], ys: &'b [u64]) -> (r: Result<
        OneDLookUpTableRef<'a, 'b>,
        ConstructionError,
    >)
        requires
            xs@.len() == ys@.len(),
        ensures
            match r {
                Ok(table) => {
                    &&& construction_error(xs@, ys@) is None
                    &&& table.wf()
                    &&& table.xs() == xs@
                    &&& table.ys() == ys@
                    &&& table.cached() == Map::<u64, u64>::empty()
                },
                Err(e) => construction_error(xs@, ys@) == Some(e),
            },
    {
        match is_object_constructible(xs, ys) {
            Ok(_) => Ok(OneDLookUpTableRef { xs, ys, cache: HashMap::new() }),
            Err(e) => Err(e),
        }
    }

    /// Returns the value of the table at `index`.
    pub fn get(&mut self, index: u64) -> (y: u64)
        requires
            old(self).wf(),
            !is_nan_spec(index),
        ensures
            old(self).answers(index, y, final(self)),
    {
        interpolate_cached(index, self.xs, self.ys, &mut self.cache)
    }

    /// Tells whether the result for `index` is remembered.
    pub fn is_cached(&self, index: u64) -> (r: bool)
        ensures
            r == self.cached().contains_key(index),
    {
        self.cache.contains_key(&index)
    }
}

} // verus!
