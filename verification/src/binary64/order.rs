use super::format::{
    abs, abs_spec, is_nan, is_nan_spec, is_negative, is_negative_spec, lemma_magnitude_injective,
    magnitude, value,
};
use vstd::prelude::*;

verus! {

/// `a < b` as IEEE-754 orders doubles: false when either is a NaN, and the two
/// zeros are equal.
pub open spec fn lt_spec(a: u64, b: u64) -> bool {
    !is_nan_spec(a) && !is_nan_spec(b) && value(a) < value(b)
}

/// `a > b` as IEEE-754 orders doubles.
pub open spec fn gt_spec(a: u64, b: u64) -> bool {
    lt_spec(b, a)
}

/// `a == b` as IEEE-754 compares doubles: false when either is a NaN, true of
/// the two zeros.
pub open spec fn eq_spec(a: u64, b: u64) -> bool {
    !is_nan_spec(a) && !is_nan_spec(b) && value(a) == value(b)
}

/// The pattern read as a sign and a size: an integer that orders all patterns
/// that are not NaNs as their values are ordered.
pub open spec fn rank(bits: u64) -> int {
    if is_negative_spec(bits) {
        -(abs_spec(bits) as int)
    } else {
        abs_spec(bits) as int
    }
}

/// Patterns are ordered by rank exactly as by value.
pub proof fn lemma_rank_orders_values(a: u64, b: u64)
    ensures
        rank(a) < rank(b) <==> value(a) < value(b),
        rank(a) == rank(b) <==> value(a) == value(b),
{
    lemma_magnitude_injective(a, b);
    lemma_magnitude_injective(a, 0);
    lemma_magnitude_injective(b, 0);
    assert(magnitude(0) == 0);
}

fn rank_of(bits: u64) -> (r: i64)
    ensures
        r == rank(bits),
{
    let a: u64 = abs(bits);
    if is_negative(bits) {
        -(a as i64)
    } else {
        a as i64
    }
}

/// Tells whether `a < b`.
#[verifier::when_used_as_spec(lt_spec)]
pub fn lt(a: u64, b: u64) -> (r: bool)
    ensures
        r == lt_spec(a, b),
{
    proof {
        lemma_rank_orders_values(a, b);
    }
    !is_nan(a) && !is_nan(b) && rank_of(a) < rank_of(b)
}

/// Tells whether `a > b`.
#[verifier::when_used_as_spec(gt_spec)]
pub fn gt(a: u64, b: u64) -> (r: bool)
    ensures
        r == gt_spec(a, b),
{
    lt(b, a)
}

/// Tells whether `a == b`.
#[verifier::when_used_as_spec(eq_spec)]
pub fn eq(a: u64, b: u64) -> (r: bool)
    ensures
        r == eq_spec(a, b),
{
    proof {
        lemma_rank_orders_values(a, b);
    }
    !is_nan(a) && !is_nan(b) && rank_of(a) == rank_of(b)
}

} // verus!
