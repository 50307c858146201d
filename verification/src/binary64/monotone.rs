use super::arith::{add_spec, div_spec, mul_spec, round_sum, sub_spec};
use super::format::{
    abs_spec, is_finite_spec, is_nan_spec, is_negative_spec, is_zero_spec,
    lemma_magnitude_injective, lemma_magnitude_zero, magnitude, neg_spec, value, with_sign_spec,
    HIDDEN_BIT, INFINITY_BITS,
};
use super::rounding::{
    lemma_magnitude_of_packed, lemma_nearest_exists, lemma_nearest_monotone, lemma_pow2_values,
    lemma_representable_rounds_to_itself, nearest,
};
use vstd::arithmetic::power2::{lemma_pow2_adds, lemma_pow2_pos, pow2};
use vstd::prelude::*;

verus! {

/// The pattern of the number one.
pub const ONE_BITS: u64 = 0x3ff0_0000_0000_0000;

/// Whether a pattern encodes a number that is not negative, zero included, or
/// positive infinity.
pub open spec fn is_unsigned(bits: u64) -> bool {
    bits <= INFINITY_BITS
}

/// A sum that is not smaller rounds to a double that is not smaller.
pub proof fn lemma_round_sum_monotone(s1: int, b1: bool, s2: int, b2: bool)
    requires
        s1 <= s2,
    ensures
        !is_nan_spec(round_sum(s1, b1)),
        !is_nan_spec(round_sum(s2, b2)),
        value(round_sum(s1, b1)) <= value(round_sum(s2, b2)),
{
    lemma_round_sum_sign(s1, b1);
    lemma_round_sum_sign(s2, b2);
    if 0 < s1 {
        lemma_nearest_exists(s1 as nat, 1);
        lemma_nearest_exists(s2 as nat, 1);
        lemma_nearest_monotone(s1 as nat, 1, s2 as nat, 1);
        lemma_magnitude_injective(nearest(s1 as nat, 1), nearest(s2 as nat, 1));
    } else if s2 < 0 {
        lemma_nearest_exists((-s1) as nat, 1);
        lemma_nearest_exists((-s2) as nat, 1);
        lemma_nearest_monotone((-s2) as nat, 1, (-s1) as nat, 1);
        lemma_magnitude_injective(nearest((-s2) as nat, 1), nearest((-s1) as nat, 1));
    }
}

/// A rounded sum has the sign of the sum, and is no NaN.
pub proof fn lemma_round_sum_sign(s: int, b: bool)
    ensures
        !is_nan_spec(round_sum(s, b)),
        s > 0 ==> round_sum(s, b) == nearest(s as nat, 1) && value(round_sum(s, b)) == magnitude(
            nearest(s as nat, 1),
        ) && is_unsigned(round_sum(s, b)) && value(round_sum(s, b)) > 0,
        s < 0 ==> value(round_sum(s, b)) == -magnitude(nearest((-s) as nat, 1)) && value(
            round_sum(s, b),
        ) < 0,
        s == 0 ==> value(round_sum(s, b)) == 0,
{
    lemma_magnitude_zero(0);
    lemma_magnitude_zero(super::format::SIGN_BIT);
    if s > 0 {
        lemma_nearest_exists(s as nat, 1);
        lemma_smallest_rounds_to_itself();
        lemma_nearest_monotone(1, 1, s as nat, 1);
        lemma_magnitude_zero(nearest(s as nat, 1));
    } else if s < 0 {
        lemma_nearest_exists((-s) as nat, 1);
        lemma_smallest_rounds_to_itself();
        lemma_nearest_monotone(1, 1, (-s) as nat, 1);
        let k: u64 = nearest((-s) as nat, 1);
        lemma_magnitude_zero(k);
        lemma_magnitude_zero(with_sign_spec(true, k));
        assert(magnitude(with_sign_spec(true, k)) == magnitude(k));
    }
}

/// One unit, the smallest positive double, rounds to itself.
proof fn lemma_smallest_rounds_to_itself()
    ensures
        nearest(1, 1) == 1,
{
    assert(magnitude(1) == 1);
    lemma_representable_rounds_to_itself(1, 1);
    assert(magnitude(1) * 1 == 1) by (nonlinear_arith)
        requires
            magnitude(1) == 1,
    ;
}

/// The value of a number, as a sum, rounds to a double of that value.
pub proof fn lemma_round_sum_exact(bits: u64, b: bool)
    requires
        !is_nan_spec(bits),
    ensures
        value(round_sum(value(bits), b)) == value(bits),
{
    let k: u64 = abs_spec(bits);
    let m: nat = magnitude(bits);
    assert(magnitude(k) == m);
    lemma_representable_rounds_to_itself(k, 1);
    assert(m * 1 == m) by (nonlinear_arith);
    lemma_round_sum_sign(value(bits), b);
}

/// The difference of two numbers, the second below the first, is positive: a
/// number above zero, or infinity where the difference overflows.
pub proof fn lemma_difference_is_positive(a: u64, b: u64)
    requires
        is_finite_spec(a),
        is_finite_spec(b),
        value(b) < value(a),
    ensures
        is_unsigned(sub_spec(a, b)),
        !is_zero_spec(sub_spec(a, b)),
        sub_spec(a, b) == nearest((value(a) - value(b)) as nat, 1),
{
    assert(value(neg_spec(b)) == -value(b)) by {
        assert(abs_spec(neg_spec(b)) == abs_spec(b));
    }
    lemma_round_sum_sign(
        value(a) - value(b),
        is_negative_spec(a) && is_negative_spec(neg_spec(b)),
    );
    lemma_magnitude_zero(sub_spec(a, b));
}

/// The magnitude of the number one: two to the 1074 units.
pub proof fn lemma_magnitude_of_one()
    ensures
        magnitude(ONE_BITS) == pow2(1074),
{
    lemma_pow2_values();
    lemma_magnitude_of_packed(1022, HIDDEN_BIT as nat);
    assert(1022 * HIDDEN_BIT + HIDDEN_BIT == ONE_BITS);
    lemma_pow2_adds(52, 1022);
}

/// A positive number divided by one that is not smaller gives a share: a
/// number between zero and one, both included. Only infinity by infinity gives
/// a NaN.
pub proof fn lemma_share_is_at_most_one(n: u64, d: u64)
    requires
        is_unsigned(n),
        is_unsigned(d),
        !is_zero_spec(d),
        n <= d,
    ensures
        is_nan_spec(div_spec(n, d)) || div_spec(n, d) <= ONE_BITS,
        is_finite_spec(d) ==> div_spec(n, d) <= ONE_BITS,
{
    if is_finite_spec(d) {
        let p: nat = pow2(1074);
        lemma_pow2_pos(1074);
        lemma_magnitude_zero(d);
        lemma_magnitude_injective(n, d);
        lemma_magnitude_of_one();
        lemma_representable_rounds_to_itself(ONE_BITS, 1);
        assert(magnitude(ONE_BITS) * 1 == p) by (nonlinear_arith)
            requires
                magnitude(ONE_BITS) == p,
        ;
        let mn: nat = magnitude(n);
        let md: nat = magnitude(d);
        assert((mn * p) * 1 <= p * md) by (nonlinear_arith)
            requires
                mn <= md,
        ;
        lemma_nearest_monotone(mn * p, md, p, 1);
    }
}

/// A share of a positive number is at most that number, and not negative. Only
/// the share zero of infinity gives a NaN.
pub proof fn lemma_share_of_a_number(alpha: u64, t: u64)
    requires
        alpha <= ONE_BITS,
        is_unsigned(t),
    ensures
        is_nan_spec(mul_spec(alpha, t)) || mul_spec(alpha, t) <= t,
        is_finite_spec(t) ==> mul_spec(alpha, t) <= t,
{
    if is_finite_spec(t) {
        let p: nat = pow2(1074);
        lemma_pow2_pos(1074);
        lemma_magnitude_of_one();
        lemma_magnitude_injective(alpha, ONE_BITS);
        lemma_representable_rounds_to_itself(t, p);
        let ma: nat = magnitude(alpha);
        let mt: nat = magnitude(t);
        assert((ma * mt) * p <= (mt * p) * p) by (nonlinear_arith)
            requires
                ma <= p,
        ;
        lemma_nearest_monotone(ma * mt, p, mt * p, p);
    }
}

/// Adding a number that is not negative, and at most `t`, to `y` gives a number
/// from `y` to the sum of `y` and `t`.
pub proof fn lemma_sum_within_step(y: u64, u: u64, t: u64)
    requires
        is_finite_spec(y),
        is_unsigned(u),
        is_unsigned(t),
        u <= t,
    ensures
        !is_nan_spec(add_spec(y, u)),
        !is_nan_spec(add_spec(y, t)),
        value(y) <= value(add_spec(y, u)) <= value(add_spec(y, t)),
{
    lemma_magnitude_injective(u, t);
    lemma_magnitude_injective(y, INFINITY_BITS);
    lemma_round_sum_exact(y, false);
    if is_finite_spec(t) {
        lemma_round_sum_monotone(value(y), false, value(y) + value(u), false);
        lemma_round_sum_monotone(value(y) + value(u), false, value(y) + value(t), false);
    } else if is_finite_spec(u) {
        lemma_round_sum_monotone(value(y), false, value(y) + value(u), false);
        lemma_round_sum_at_most_infinity(value(y) + value(u), false);
    }
}

/// No rounded sum lies above infinity.
pub proof fn lemma_round_sum_at_most_infinity(s: int, b: bool)
    ensures
        value(round_sum(s, b)) <= magnitude(INFINITY_BITS),
{
    lemma_round_sum_sign(s, b);
    if s > 0 {
        lemma_magnitude_injective(round_sum(s, b), INFINITY_BITS);
    }
}

} // verus!
