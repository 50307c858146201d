use crate::axis::{
    all_finite, gap_exceeds_epsilon, gap_exceeds_epsilon_spec, get_indices, indices_spec,
    lemma_indices_on_breakpoint, lemma_indices_outside, lerp, lerp_spec, spaced_at, valid_axis,
    well_spaced,
};
use crate::binary64::order::{gt_spec, lt_spec};
use crate::binary64::arith::{add_spec, div_spec, mul_spec, sub_spec};
use crate::binary64::format::{is_finite, is_finite_spec, is_nan_spec};
use crate::error::ConstructionError;
use itertools::Itertools;
use vstd::prelude::*;

verus! {

/// Access to the values of a surface, whatever holds them.
pub trait SurfaceValueGetter {
    /// The surface, row by row.
    spec fn grid(&self) -> Seq<Seq<u64>>;

    /// Returns the value in row `x`, column `y`.
    fn get(&self, x: usize, y: usize) -> (value: u64)
        requires
            x < self.grid().len(),
            y < self.grid()[x as int].len(),
        ensures
            value == self.grid()[x as int][y as int],
    ;
}

/// The rows of a surface that is held as a sequence of slices.
pub open spec fn grid_of_rows(rows: Seq<&[u64]>) -> Seq<Seq<u64>> {
    Seq::new(rows.len(), |i: int| rows[i]@)
}

/// Whether a surface has the given number of rows, all of the given length.
pub open spec fn is_grid(g: Seq<Seq<u64>>, rows: int, columns: int) -> bool {
    &&& g.len() == rows
    &&& forall|i: int| 0 <= i < g.len() ==> (#[trigger] g[i]).len() == columns
}

/// Whether every value of a surface is a number.
pub open spec fn grid_finite(g: Seq<Seq<u64>>) -> bool {
    forall|i: int| 0 <= i < g.len() ==> all_finite(#[trigger] g[i])
}

/// The first reason, if any, for which two axes and a surface make no table:
/// an axis with too few entries, then an entry or a value that is no number,
/// then an axis that is not well spaced.
pub open spec fn construction_error(xs: Seq<u64>, ys: Seq<u64>, g: Seq<Seq<u64>>) -> Option<
    ConstructionError,
> {
    if xs.len() < 2 || ys.len() < 2 {
        Some(ConstructionError::MinLengthError)
    } else if !all_finite(xs) || !all_finite(ys) || !grid_finite(g) {
        Some(ConstructionError::ContainingNansOrInfinities)
    } else if !well_spaced(xs) || !well_spaced(ys) {
        Some(ConstructionError::IncreasingDimOrderError)
    } else {
        None
    }
}

/// The value of a surface at `(x, y)`, where `xs` runs along the rows and `ys`
/// across them. Each axis gives a pair of positions. Where both pairs collapse
/// the value is the stored one; where one collapses it is interpolated along
/// the other axis; otherwise it is interpolated with the share `alpha_x` between
/// the two rows, at both columns, and then with `alpha_y` between the results.
pub open spec fn bilinear_spec(x: u64, y: u64, xs: Seq<u64>, ys: Seq<u64>, g: Seq<Seq<u64>>) -> u64 {
    let (x1, x2) = indices_spec(x, xs);
    let (y1, y2) = indices_spec(y, ys);
    let fq11 = g[y1][x1];
    let fq12 = g[y1][x2];
    let fq21 = g[y2][x1];
    let fq22 = g[y2][x2];
    if x1 == x2 && y1 == y2 {
        fq11
    } else if y1 == y2 {
        lerp_spec(x, xs[x1], xs[x2], fq11, fq12)
    } else if x1 == x2 {
        lerp_spec(y, ys[y1], ys[y2], fq11, fq21)
    } else {
        let alpha_x = div_spec(sub_spec(x, xs[x1]), sub_spec(xs[x2], xs[x1]));
        let alpha_y = div_spec(sub_spec(y, ys[y1]), sub_spec(ys[y2], ys[y1]));
        let fxy1 = add_spec(fq11, mul_spec(alpha_x, sub_spec(fq21, fq11)));
        let fxy2 = add_spec(fq12, mul_spec(alpha_x, sub_spec(fq22, fq12)));
        add_spec(fxy1, mul_spec(alpha_y, sub_spec(fxy2, fxy1)))
    }
}

/// A query on a breakpoint of each axis gets the value stored for the pair,
/// exactly.
pub proof fn lemma_grid_point_returns_its_value(
    xs: Seq<u64>,
    ys: Seq<u64>,
    g: Seq<Seq<u64>>,
    i: int,
    j: int,
)
    requires
        valid_axis(xs),
        valid_axis(ys),
        0 <= i < xs.len(),
        0 <= j < ys.len(),
    ensures
        bilinear_spec(xs[i], ys[j], xs, ys, g) == g[j][i],
{
    lemma_indices_on_breakpoint(xs, i);
    lemma_indices_on_breakpoint(ys, j);
}

/// A query outside both axes gets the value in the nearest corner of the
/// surface.
pub proof fn lemma_outside_queries_get_corner_values(
    x: u64,
    y: u64,
    xs: Seq<u64>,
    ys: Seq<u64>,
    g: Seq<Seq<u64>>,
)
    requires
        valid_axis(xs),
        valid_axis(ys),
    ensures
        lt_spec(x, xs[0]) && lt_spec(y, ys[0]) ==> bilinear_spec(x, y, xs, ys, g) == g[0][0],
        gt_spec(x, xs[xs.len() - 1]) && lt_spec(y, ys[0]) ==> bilinear_spec(x, y, xs, ys, g)
            == g[0][xs.len() - 1],
        lt_spec(x, xs[0]) && gt_spec(y, ys[ys.len() - 1]) ==> bilinear_spec(x, y, xs, ys, g)
            == g[ys.len() - 1][0],
        gt_spec(x, xs[xs.len() - 1]) && gt_spec(y, ys[ys.len() - 1]) ==> bilinear_spec(
            x,
            y,
            xs,
            ys,
            g,
        ) == g[ys.len() - 1][xs.len() - 1],
{
    lemma_indices_outside(x, xs);
    lemma_indices_outside(y, ys);
}

/// Tells whether the pattern is a NaN or an infinity.
pub fn is_nan_or_infinite(bits: u64) -> (r: bool)
    ensures
        r == !is_finite_spec(bits),
{
    !is_finite(bits)
}

/// Calls `itertools::any` on the entries, with the question whether an entry is
/// a NaN or an infinity. Its documentation says that it tests whether the
/// predicate holds for any element; that is taken on trust here, as the claim
/// that the result is true exactly when some entry is a NaN or an infinity.
#[verifier::external_body]
fn any_nan_or_infinite(values: &[u64]) -> (r: bool)
    ensures
        r == (exists|i: int| 0 <= i < values@.len() && !is_finite_spec(values@[i])),
{
    itertools::any(values, |v| is_nan_or_infinite(*v))
}

/// Calls `Itertools::tuple_windows` on the entries, for windows of two. Its
/// documentation says that it yields all contiguous windows, in order; that is
/// taken on trust here, as the claim that the pairs are the neighbours
/// `(values[i], values[i + 1])`, one for each `i`, and that fewer than two
/// entries give no pair.
#[verifier::external_body]
fn tuple_windows(values: &[u64]) -> (pairs: Vec<(u64, u64)>)
    ensures
        values@.len() < 2 ==> pairs@.len() == 0,
        values@.len() >= 2 ==> pairs@.len() == values@.len() - 1,
        forall|i: int| 0 <= i < pairs@.len() ==> pairs@[i] == (values@[i], values@[i + 1]),
{
    values.iter().copied().tuple_windows::<(u64, u64)>().collect()
}

/// Calls `itertools::all` on the pairs, with the question whether the second
/// entry of a pair lies more than the tolerance above the first. Its
/// documentation says that it tests whether the predicate holds for all
/// elements; that is taken on trust here, as the claim that the result is true
/// exactly when every pair has such a gap.
#[verifier::external_body]
fn all_gaps_exceed_epsilon(pairs: &Vec<(u64, u64)>) -> (r: bool)
    ensures
        r == (forall|i: int|
            0 <= i < pairs@.len() ==> gap_exceeds_epsilon_spec(pairs@[i].0, pairs@[i].1)),
{
    itertools::all(pairs, |p| gap_exceeds_epsilon(p.0, p.1))
}

/// Tells whether some entry is a NaN or an infinity.
pub fn contains_nan_or_infinity(values: &[u64]) -> (r: bool)
    ensures
        r == !all_finite(values@),
{
    any_nan_or_infinite(values)
}

/// Tells whether each entry lies more than the tolerance above the one before.
pub fn is_well_spaced(values: &[u64]) -> (r: bool)
    ensures
        r == well_spaced(values@),
{
    let pairs: Vec<(u64, u64)> = tuple_windows(values);
    let r: bool = all_gaps_exceed_epsilon(&pairs);
    proof {
        if r {
            assert forall|i: int| 0 <= i < values@.len() - 1 implies #[trigger] spaced_at(
                values@,
                i,
            ) by {
                assert(pairs@[i] == (values@[i], values@[i + 1]));
            }
        } else {
            let i: int = choose|i: int|
                0 <= i < pairs@.len() && !gap_exceeds_epsilon_spec(pairs@[i].0, pairs@[i].1);
            assert(!spaced_at(values@, i));
        }
    }
    r
}

/// Tells whether some value of the surface is a NaN or an infinity.
pub fn surface_contains_nan_or_infinity(surface: &[&[u64]]) -> (r: bool)
    ensures
        r == !grid_finite(grid_of_rows(surface@)),
{
    let ghost g: Seq<Seq<u64>> = grid_of_rows(surface@);
    let mut i: usize = 0;
    while i < surface.len()
        invariant
            i <= surface.len(),
            g == grid_of_rows(surface@),
            forall|j: int| 0 <= j < i ==> all_finite(#[trigger] g[j]),
        decreases surface.len() - i,
    {
        if contains_nan_or_infinity(surface[i]) {
            assert(!all_finite(g[i as int]));
            return true;
        }
        i = i + 1;
    }
    false
}

/// Checks two axes and a surface before a table is built from them.
pub fn is_object_constructible(xs: &[u64], ys: &[u64], surface: &[&[u64]]) -> (r: Result<
    bool,
    ConstructionError,
>)
    ensures
        match r {
            Ok(constructible) => constructible && construction_error(
                xs@,
                ys@,
                grid_of_rows(surface@),
            ) is None,
            Err(e) => construction_error(xs@, ys@, grid_of_rows(surface@)) == Some(e),
        },
{
    if xs.len() < 2 || ys.len() < 2 {
        return Err(ConstructionError::MinLengthError);
    }
    if contains_nan_or_infinity(xs) || contains_nan_or_infinity(ys)
        || surface_contains_nan_or_infinity(surface) {
        return Err(ConstructionError::ContainingNansOrInfinities);
    }
    if !is_well_spaced(xs) || !is_well_spaced(ys) {
        return Err(ConstructionError::IncreasingDimOrderError);
    }
    Ok(true)
}

/// Evaluates a surface at `(x, y)`.
pub fn interpolate<S: SurfaceValueGetter>(x: u64, y: u64, xs: &[u64], ys: &[u64], obj: &S) -> (z:
    u64)
    requires
        valid_axis(xs@),
        valid_axis(ys@),
        !is_nan_spec(x),
        !is_nan_spec(y),
        is_grid(obj.grid(), ys@.len() as int, xs@.len() as int),
    ensures
        z == bilinear_spec(x, y, xs@, ys@, obj.grid()),
{
    let (x1_ind, x2_ind) = get_indices(x, xs);
    let (y1_ind, y2_ind) = get_indices(y, ys);
    let x1: u64 = xs[x1_ind];
    let x2: u64 = xs[x2_ind];
    let y1: u64 = ys[y1_ind];
    let y2: u64 = ys[y2_ind];
    // The four corners of the cell in which the query lies.
    let fq11: u64 = obj.get(y1_ind, x1_ind);
    let fq12: u64 = obj.get(y1_ind, x2_ind);
    let fq21: u64 = obj.get(y2_ind, x1_ind);
    let fq22: u64 = obj.get(y2_ind, x2_ind);
    if x1_ind == x2_ind && y1_ind == y2_ind {
        fq11
    } else if y1_ind == y2_ind {
        lerp(x, x1, x2, fq11, fq12)
    } else if x1_ind == x2_ind {
        lerp(y, y1, y2, fq11, fq21)
    } else {
        let alpha_x: u64 = crate::binary64::arith::div(
            crate::binary64::arith::sub(x, x1),
            crate::binary64::arith::sub(x2, x1),
        );
        let alpha_y: u64 = crate::binary64::arith::div(
            crate::binary64::arith::sub(y, y1),
            crate::binary64::arith::sub(y2, y1),
        );
        let fxy1: u64 = crate::binary64::arith::add(
            fq11,
            crate::binary64::arith::mul(alpha_x, crate::binary64::arith::sub(fq21, fq11)),
        );
        let fxy2: u64 = crate::binary64::arith::add(
            fq12,
            crate::binary64::arith::mul(alpha_x, crate::binary64::arith::sub(fq22, fq12)),
        );
        crate::binary64::arith::add(
            fxy1,
            crate::binary64::arith::mul(alpha_y, crate::binary64::arith::sub(fxy2, fxy1)),
        )
    }
}

} // verus!
