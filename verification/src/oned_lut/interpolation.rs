use crate::axis::{
    all_finite, contains_nan_or_infinity, get_indices, indices_spec, is_well_spaced,
    lemma_indices_between, lemma_indices_on_breakpoint, lemma_indices_outside,
    lemma_lerp_within_step, lerp, lerp_spec, valid_axis, well_spaced,
};
use crate::binary64::arith::{add_spec, sub_spec};
use crate::binary64::format::{is_finite_spec, is_nan_spec, value};
use crate::binary64::order::{gt, gt_spec, lt, lt_spec};
use crate::error::ConstructionError;
use std::collections::HashMap;
use vstd::prelude::*;

verus! {

broadcast use vstd::std_specs::hash::group_hash_axioms;

/// The first reason, if any, for which breakpoints `xs` with values `ys` make no
/// table: too few entries, then an entry that is no number, then breakpoints
/// that are not well spaced.
pub open spec fn construction_error(xs: Seq<u64>, ys: Seq<u64>) -> Option<ConstructionError> {
    if xs.len() < 2 || ys.len() < 2 {
        Some(ConstructionError::MinLengthError)
    } else if !all_finite(xs) || !all_finite(ys) {
        Some(ConstructionError::ContainingNansOrInfinities)
    } else if !well_spaced(xs) {
        Some(ConstructionError::IncreasingDimOrderError)
    } else {
        None
    }
}

/// What the samples of a table satisfy: nothing stands against them, and each
/// breakpoint has its value.
pub open spec fn valid_samples(xs: Seq<u64>, ys: Seq<u64>) -> bool {
    construction_error(xs, ys) is None && xs.len() == ys.len()
}

/// Whether a query lies below the first breakpoint or above the last.
pub open spec fn out_of_range(q: u64, xs: Seq<u64>) -> bool {
    lt_spec(q, xs[0]) || gt_spec(q, xs[xs.len() - 1])
}

/// The value of the table at `q`: the value stored with the breakpoint that
/// `q` equals, the boundary value when `q` lies outside the breakpoints, and
/// otherwise the linear interpolation between the two enclosing samples.
pub open spec fn interpolate_spec(q: u64, xs: Seq<u64>, ys: Seq<u64>) -> u64 {
    let (lo, hi) = indices_spec(q, xs);
    if lo == hi {
        ys[lo]
    } else {
        lerp_spec(q, xs[lo], xs[hi], ys[lo], ys[hi])
    }
}

/// Whether every remembered result is the value of the table at its query.
pub open spec fn cache_agrees(cache: Map<u64, u64>, xs: Seq<u64>, ys: Seq<u64>) -> bool {
    forall|q: u64| #[trigger] cache.contains_key(q) ==> cache[q] == interpolate_spec(q, xs, ys)
}

/// A query on a breakpoint gets the value stored with that breakpoint, exactly.
pub proof fn lemma_breakpoint_returns_its_value(xs: Seq<u64>, ys: Seq<u64>, i: int)
    requires
        valid_samples(xs, ys),
        0 <= i < xs.len(),
    ensures
        interpolate_spec(xs[i], xs, ys) == ys[i],
{
    lemma_indices_on_breakpoint(xs, i);
}

/// A query below the first breakpoint gets the first value, and a query above
/// the last breakpoint gets the last value.
pub proof fn lemma_outside_queries_are_clamped(xs: Seq<u64>, ys: Seq<u64>, q: u64)
    requires
        valid_samples(xs, ys),
    ensures
        lt_spec(q, xs[0]) ==> interpolate_spec(q, xs, ys) == ys[0],
        gt_spec(q, xs[xs.len() - 1]) ==> interpolate_spec(q, xs, ys) == ys[ys.len() - 1],
{
    lemma_indices_outside(q, xs);
}

/// Where the values rise from one breakpoint to the next, a query strictly
/// between the two gets a NaN or a number from the lower value to the sum of
/// the lower value and the difference of the two; and it gets no NaN where
/// neither the difference of the breakpoints nor that of the values overflows.
/// In exact arithmetic that sum is the upper value; in double precision it lies
/// next to it, and the result may lie on either bound.
pub proof fn lemma_rising_values_bound_the_interpolation(
    xs: Seq<u64>,
    ys: Seq<u64>,
    i: int,
    q: u64,
)
    requires
        valid_samples(xs, ys),
        0 <= i < xs.len() - 1,
        lt_spec(xs[i], q),
        lt_spec(q, xs[i + 1]),
        lt_spec(ys[i], ys[i + 1]),
    ensures
        is_nan_spec(interpolate_spec(q, xs, ys)) || value(ys[i]) <= value(
            interpolate_spec(q, xs, ys),
        ) <= value(add_spec(ys[i], sub_spec(ys[i + 1], ys[i]))),
        is_finite_spec(sub_spec(xs[i + 1], xs[i])) && is_finite_spec(
            sub_spec(ys[i + 1], ys[i]),
        ) ==> !is_nan_spec(interpolate_spec(q, xs, ys)),
{
    lemma_indices_between(q, xs, i);
    lemma_lerp_within_step(q, xs[i], xs[i + 1], ys[i], ys[i + 1]);
}

/// Checks samples before a table is built from them.
pub fn is_object_constructible(xs: &[u64], ys: &[u64]) -> (r: Result<bool, ConstructionError>)
    ensures
        match r {
            Ok(constructible) => constructible && construction_error(xs@, ys@) is None,
            Err(e) => construction_error(xs@, ys@) == Some(e),
        },
{
    if xs.len() < 2 || ys.len() < 2 {
        return Err(ConstructionError::MinLengthError);
    }
    if contains_nan_or_infinity(xs) || contains_nan_or_infinity(ys) {
        return Err(ConstructionError::ContainingNansOrInfinities);
    }
    if !is_well_spaced(xs) {
        return Err(ConstructionError::IncreasingDimOrderError);
    }
    Ok(true)
}

/// Evaluates the table at `x`.
pub fn interpolate(x: u64, xs: &[u64], ys: &[u64]) -> (y: u64)
    requires
        valid_axis(xs@),
        xs@.len() == ys@.len(),
        !is_nan_spec(x),
    ensures
        y == interpolate_spec(x, xs@, ys@),
{
    let (lo, hi) = get_indices(x, xs);
    if lo == hi {
        ys[lo]
    } else {
        lerp(x, xs[lo], xs[hi], ys[lo], ys[hi])
    }
}

/// Evaluates the table at `x`, remembering what it computes. A query outside
/// the breakpoints is answered with the boundary value and not remembered; one
/// that was remembered is answered from memory; any other is computed and
/// remembered under its bit pattern.
pub fn interpolate_cached(x: u64, xs: &[u64], ys: &[u64], cache: &mut HashMap<u64, u64>) -> (y: u64)
    requires
        valid_axis(xs@),
        xs@.len() == ys@.len(),
        !is_nan_spec(x),
        cache_agrees(old(cache)@, xs@, ys@),
    ensures
        y == interpolate_spec(x, xs@, ys@),
        cache_agrees(final(cache)@, xs@, ys@),
        out_of_range(x, xs@) ==> final(cache)@ == old(cache)@,
        !out_of_range(x, xs@) ==> final(cache)@ == old(cache)@.insert(x, y),
{
    let last: usize = xs.len() - 1;
    if lt(x, xs[0]) {
        return ys[0];
    }
    if gt(x, xs[last]) {
        return ys[last];
    }
    match cache.get(&x) {
        Some(known) => {
            let y: u64 = *known;
            assert(cache@.insert(x, y) =~= cache@);
            y
        },
        None => {
            let y: u64 = interpolate(x, xs, ys);
            cache.insert(x, y);
            y
        },
    }
}

} // verus!
