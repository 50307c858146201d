use super::format::{
    is_infinite, is_infinite_spec, is_nan, is_nan_spec, is_negative, is_negative_spec, is_zero,
    is_zero_spec, lemma_magnitude_zero, magnitude, neg, neg_spec, unpack, value, with_sign,
    with_sign_spec, HIDDEN_BIT, INFINITY_BITS, NAN_BITS, SIGN_BIT,
};
use super::pack::{bit_length, brackets, pow2_u128, round_pack};
use super::rounding::{
    lemma_nearest_is, lemma_pow2_increases, lemma_pow2_values, lemma_rounds_to_zero, nearest,
};
use vstd::arithmetic::power2::{lemma_pow2_adds, lemma_pow2_pos, pow2};
use vstd::prelude::*;

verus! {

/// The product of two doubles: the exact product, rounded to nearest. A NaN
/// operand, or infinity times zero, gives NaN.
pub open spec fn mul_spec(a: u64, b: u64) -> u64 {
    let negative = is_negative_spec(a) != is_negative_spec(b);
    if is_nan_spec(a) || is_nan_spec(b) {
        NAN_BITS
    } else if is_infinite_spec(a) || is_infinite_spec(b) {
        if is_zero_spec(a) || is_zero_spec(b) {
            NAN_BITS
        } else {
            with_sign_spec(negative, INFINITY_BITS)
        }
    } else {
        with_sign_spec(negative, nearest(magnitude(a) * magnitude(b), pow2(1074)))
    }
}

/// The quotient of two doubles: the exact quotient, rounded to nearest. A NaN
/// operand, zero by zero and infinity by infinity give NaN; a number that is
/// not zero, divided by zero, gives infinity.
pub open spec fn div_spec(a: u64, b: u64) -> u64 {
    let negative = is_negative_spec(a) != is_negative_spec(b);
    if is_nan_spec(a) || is_nan_spec(b) {
        NAN_BITS
    } else if is_infinite_spec(a) {
        if is_infinite_spec(b) {
            NAN_BITS
        } else {
            with_sign_spec(negative, INFINITY_BITS)
        }
    } else if is_infinite_spec(b) {
        with_sign_spec(negative, 0)
    } else if is_zero_spec(b) {
        if is_zero_spec(a) {
            NAN_BITS
        } else {
            with_sign_spec(negative, INFINITY_BITS)
        }
    } else {
        with_sign_spec(negative, nearest(magnitude(a) * pow2(1074), magnitude(b)))
    }
}

/// An exact sum, in units of two to the -1074, rounded to nearest. A sum of
/// zero is the positive zero, unless both terms were negative.
pub open spec fn round_sum(sum: int, both_negative: bool) -> u64 {
    if sum == 0 {
        if both_negative {
            SIGN_BIT
        } else {
            0
        }
    } else if sum < 0 {
        with_sign_spec(true, nearest((-sum) as nat, 1))
    } else {
        with_sign_spec(false, nearest(sum as nat, 1))
    }
}

/// The sum of two doubles: the exact sum, rounded to nearest. A NaN operand,
/// or infinities of opposite signs, give NaN.
pub open spec fn add_spec(a: u64, b: u64) -> u64 {
    if is_nan_spec(a) || is_nan_spec(b) {
        NAN_BITS
    } else if is_infinite_spec(a) {
        if is_infinite_spec(b) && is_negative_spec(a) != is_negative_spec(b) {
            NAN_BITS
        } else {
            a
        }
    } else if is_infinite_spec(b) {
        b
    } else {
        round_sum(value(a) + value(b), is_negative_spec(a) && is_negative_spec(b))
    }
}

/// The difference of two doubles: the first plus the second negated.
pub open spec fn sub_spec(a: u64, b: u64) -> u64 {
    add_spec(a, neg_spec(b))
}

/// Multiplies two doubles.
#[verifier::when_used_as_spec(mul_spec)]
pub fn mul(a: u64, b: u64) -> (r: u64)
    ensures
        r == mul_spec(a, b),
{
    let negative: bool = is_negative(a) != is_negative(b);
    if is_nan(a) || is_nan(b) {
        return NAN_BITS;
    }
    if is_infinite(a) || is_infinite(b) {
        if is_zero(a) || is_zero(b) {
            return NAN_BITS;
        }
        return with_sign(negative, INFINITY_BITS);
    }
    let (ma, ea) = unpack(a);
    let (mb, eb) = unpack(b);
    proof {
        lemma_pow2_values();
        assert(ma * mb < 0x20_0000_0000_0000 * 0x20_0000_0000_0000) by (nonlinear_arith)
            requires
                ma < 0x20_0000_0000_0000,
                mb < 0x20_0000_0000_0000,
        ;
    }
    let product: u128 = (ma as u128) * (mb as u128);
    let e: i32 = ea as i32 + eb as i32 - 1074;
    let ghost num: nat = magnitude(a) * magnitude(b);
    let ghost den: nat = pow2(1074);
    proof {
        let pa: nat = pow2(ea as nat);
        let pb: nat = pow2(eb as nat);
        lemma_pow2_pos(1074);
        lemma_pow2_adds(ea as nat, eb as nat);
        if e >= 0 {
            let g: nat = pow2(e as nat);
            lemma_pow2_pos(e as nat);
            lemma_pow2_adds(1074, e as nat);
            assert(product * (den * g) == num * 1) by (nonlinear_arith)
                requires
                    product == ma * mb,
                    num == (ma * pa) * (mb * pb),
                    den * g == pa * pb,
            ;
            assert((product + 1) * (den * g) > product * (den * g)) by (nonlinear_arith)
                requires
                    den > 0,
                    g > 0,
            ;
        } else {
            let s: nat = pow2((-e) as nat);
            lemma_pow2_adds((ea + eb) as nat, (-e) as nat);
            assert(product * (den * 1) == num * s) by (nonlinear_arith)
                requires
                    product == ma * mb,
                    num == (ma * pa) * (mb * pb),
                    den == pa * pb * s,
            ;
            assert((product + 1) * (den * 1) > product * (den * 1)) by (nonlinear_arith)
                requires
                    den > 0,
            ;
        }
        assert(brackets(product as nat, e as int, false, num, den));
    }
    let k: u64 = round_pack(product, e, false, Ghost(num), Ghost(den));
    with_sign(negative, k)
}

/// Divides one double by another.
#[verifier::when_used_as_spec(div_spec)]
pub fn div(a: u64, b: u64) -> (r: u64)
    ensures
        r == div_spec(a, b),
{
    let negative: bool = is_negative(a) != is_negative(b);
    if is_nan(a) || is_nan(b) {
        return NAN_BITS;
    }
    if is_infinite(a) {
        if is_infinite(b) {
            return NAN_BITS;
        }
        return with_sign(negative, INFINITY_BITS);
    }
    if is_infinite(b) {
        return with_sign(negative, 0);
    }
    if is_zero(b) {
        if is_zero(a) {
            return NAN_BITS;
        }
        return with_sign(negative, INFINITY_BITS);
    }
    let (ma, ea) = unpack(a);
    let (mb, eb) = unpack(b);
    let ghost num: nat = magnitude(a) * pow2(1074);
    let ghost den: nat = magnitude(b);
    proof {
        lemma_pow2_values();
        lemma_magnitude_zero(a);
        lemma_magnitude_zero(b);
        lemma_pow2_pos(ea as nat);
        lemma_pow2_pos(eb as nat);
        assert(mb > 0) by (nonlinear_arith)
            requires
                mb * pow2(eb as nat) > 0,
        ;
    }
    if ma == 0 {
        proof {
            assert(magnitude(a) == 0) by (nonlinear_arith)
                requires
                    magnitude(a) == ma * pow2(ea as nat),
                    ma == 0,
            ;
            assert(num == 0) by (nonlinear_arith)
                requires
                    num == magnitude(a) * pow2(1074),
                    magnitude(a) == 0,
            ;
            lemma_rounds_to_zero(num, den);
            lemma_nearest_is(num, den, 0);
        }
        return with_sign(negative, 0);
    }
    proof {
        lemma_pow2_increases(53, 126);
    }
    let len: u32 = bit_length(ma as u128);
    proof {
        if len > 53 {
            lemma_pow2_increases(53, (len - 1) as nat);
        }
    }
    // Widen the dividend to fifty-three bits and sixty-four more, so that the
    // quotient has at least sixty-four.
    let t: u32 = 53 - len + 64;
    let f: u128 = pow2_u128(t);
    proof {
        lemma_pow2_adds(len as nat, t as nat);
        lemma_pow2_adds((len - 1) as nat, t as nat);
        lemma_pow2_adds(53, 64);
        lemma_pow2_adds(52, 64);
        lemma_pow2_pos(t as nat);
        assert(ma * f < pow2(len as nat) * f) by (nonlinear_arith)
            requires
                ma < pow2(len as nat),
                f > 0,
        ;
        assert(ma * f >= pow2((len - 1) as nat) * f) by (nonlinear_arith)
            requires
                ma >= pow2((len - 1) as nat),
                f > 0,
        ;
        assert(pow2(117) == 0x20_0000_0000_0000 * 0x1_0000_0000_0000_0000);
        assert(pow2(116) == 0x10_0000_0000_0000 * 0x1_0000_0000_0000_0000);
    }
    let wide: u128 = (ma as u128) * f;
    let quotient: u128 = wide / (mb as u128);
    let rest: u128 = wide % (mb as u128);
    let sticky: bool = rest != 0;
    let e: i32 = ea as i32 - eb as i32 + 1074 - t as i32;
    proof {
        vstd::arithmetic::div_mod::lemma_fundamental_div_mod(wide as int, mb as int);
        assert(wide == quotient * mb + rest) by (nonlinear_arith)
            requires
                wide == mb * quotient + rest,
        ;
        // The quotient has between sixty-four and a hundred and seventeen bits.
        assert(quotient >= 0x8000_0000_0000_0000) by (nonlinear_arith)
            requires
                wide == quotient * mb + rest,
                rest < mb,
                mb < 0x20_0000_0000_0000,
                wide >= 0x10_0000_0000_0000 * 0x1_0000_0000_0000_0000,
        ;
        assert(quotient <= wide) by (nonlinear_arith)
            requires
                wide == quotient * mb + rest,
                mb >= 1,
                rest >= 0,
        ;
        lemma_pow2_increases(117, 120);
        let pa: nat = pow2(ea as nat);
        let pb: nat = pow2(eb as nat);
        let big: nat = pow2(1074);
        if e >= 0 {
            let g: nat = pow2(e as nat);
            lemma_pow2_pos(e as nat);
            // t + eb + e == ea + 1074
            lemma_pow2_adds(t as nat, eb as nat);
            lemma_pow2_adds((t + eb) as nat, e as nat);
            lemma_pow2_adds(ea as nat, 1074);
            assert(f * pb * g == pa * big);
            assert(wide * (pb * g) == num * 1) by (nonlinear_arith)
                requires
                    wide == ma * f,
                    num == (ma * pa) * big,
                    f * pb * g == pa * big,
            ;
            assert(quotient * (den * g) + rest * (pb * g) == wide * (pb * g)) by (nonlinear_arith)
                requires
                    wide == quotient * mb + rest,
                    den == mb * pb,
            ;
            assert((quotient + 1) * (den * g) == quotient * (den * g) + mb * (pb * g))
                by (nonlinear_arith)
                requires
                    den == mb * pb,
            ;
            assert(rest * (pb * g) < mb * (pb * g)) by (nonlinear_arith)
                requires
                    rest < mb,
                    pb > 0,
                    g > 0,
            ;
            assert(rest != 0 <==> rest * (pb * g) > 0) by (nonlinear_arith)
                requires
                    rest >= 0,
                    pb > 0,
                    g > 0,
            ;
        } else {
            let s: nat = pow2((-e) as nat);
            // t + eb == ea + 1074 + (-e)
            lemma_pow2_adds(t as nat, eb as nat);
            lemma_pow2_adds(ea as nat, 1074);
            lemma_pow2_adds((ea + 1074) as nat, (-e) as nat);
            assert(f * pb == pa * big * s);
            assert(wide * pb == num * s) by (nonlinear_arith)
                requires
                    wide == ma * f,
                    num == (ma * pa) * big,
                    f * pb == pa * big * s,
            ;
            assert(quotient * (den * 1) + rest * pb == wide * pb) by (nonlinear_arith)
                requires
                    wide == quotient * mb + rest,
                    den == mb * pb,
            ;
            assert((quotient + 1) * (den * 1) == quotient * (den * 1) + mb * pb) by (nonlinear_arith)
                requires
                    den == mb * pb,
            ;
            assert(rest * pb < mb * pb) by (nonlinear_arith)
                requires
                    rest < mb,
                    pb > 0,
            ;
            assert(rest != 0 <==> rest * pb > 0) by (nonlinear_arith)
                requires
                    rest >= 0,
                    pb > 0,
            ;
        }
        assert(brackets(quotient as nat, e as int, sticky, num, den));
    }
    let k: u64 = round_pack(quotient, e, sticky, Ghost(num), Ghost(den));
    with_sign(negative, k)
}

/// A magnitude with its sign.
pub open spec fn signed_value(negative: bool, size: int) -> int {
    if negative {
        -size
    } else {
        size
    }
}

/// Brings two significands to one scale. The one with the larger scale is
/// widened by at most sixty-four bits; if that does not reach the scale of the
/// other, the other is narrowed, and `lost` tells whether bits of it fell off.
fn align(mh: u64, eh: u32, ml: u64, el: u32) -> (r: (u128, u128, i32, bool))
    requires
        mh < 2 * HIDDEN_BIT,
        ml < 2 * HIDDEN_BIT,
        el <= eh <= 2045,
        eh > 0 ==> mh >= HIDDEN_BIT,
    ensures
        0 <= r.2 <= 2045,
        r.0 * pow2(r.2 as nat) == mh * pow2(eh as nat),
        r.1 * pow2(r.2 as nat) <= ml * pow2(el as nat) < (r.1 + 1) * pow2(r.2 as nat),
        r.3 <==> r.1 * pow2(r.2 as nat) < ml * pow2(el as nat),
        r.0 < pow2(117),
        r.1 < pow2(53),
        r.3 ==> r.0 >= pow2(116),
{
    let d: u32 = eh - el;
    let ghost lo: int = ml * pow2(el as nat);
    proof {
        lemma_pow2_values();
        lemma_pow2_adds(53, 64);
        lemma_pow2_adds(52, 64);
        lemma_pow2_pos(el as nat);
    }
    if d <= 64 {
        let f: u128 = pow2_u128(d);
        proof {
            lemma_pow2_increases(d as nat, 64);
            lemma_pow2_adds(d as nat, el as nat);
            assert(mh * f < 0x20_0000_0000_0000 * 0x1_0000_0000_0000_0000) by (nonlinear_arith)
                requires
                    mh < 0x20_0000_0000_0000,
                    f <= 0x1_0000_0000_0000_0000,
            ;
            assert((mh * f) * pow2(el as nat) == mh * pow2(eh as nat)) by (nonlinear_arith)
                requires
                    f * pow2(el as nat) == pow2(eh as nat),
            ;
            assert((ml + 1) * pow2(el as nat) > lo) by (nonlinear_arith)
                requires
                    lo == ml * pow2(el as nat),
                    pow2(el as nat) > 0,
            ;
        }
        ((mh as u128) * f, ml as u128, el as i32, false)
    } else {
        let f: u128 = pow2_u128(64);
        let e: i32 = eh as i32 - 64;
        let s: u32 = d - 64;
        let ghost ue: nat = pow2(e as nat);
        proof {
            lemma_pow2_adds(64, e as nat);
            lemma_pow2_adds(s as nat, el as nat);
            lemma_pow2_pos(e as nat);
            assert(mh * f < 0x20_0000_0000_0000 * 0x1_0000_0000_0000_0000) by (nonlinear_arith)
                requires
                    mh < 0x20_0000_0000_0000,
                    f == 0x1_0000_0000_0000_0000,
            ;
            assert(mh * f >= 0x10_0000_0000_0000 * 0x1_0000_0000_0000_0000) by (nonlinear_arith)
                requires
                    mh >= 0x10_0000_0000_0000,
                    f == 0x1_0000_0000_0000_0000,
            ;
            assert((mh * f) * ue == mh * pow2(eh as nat)) by (nonlinear_arith)
                requires
                    f * ue == pow2(eh as nat),
            ;
        }
        let big: u128 = (mh as u128) * f;
        if s >= 64 {
            proof {
                lemma_pow2_increases(64, s as nat);
                assert(lo < ue) by (nonlinear_arith)
                    requires
                        lo == ml * pow2(el as nat),
                        ml < pow2(s as nat),
                        pow2(s as nat) * pow2(el as nat) == ue,
                        pow2(el as nat) > 0,
                ;
                assert(ml != 0 <==> lo > 0) by (nonlinear_arith)
                    requires
                        lo == ml * pow2(el as nat),
                        pow2(el as nat) > 0,
                ;
                assert(0 * ue == 0 && (0 + 1) * ue == ue) by (nonlinear_arith);
            }
            (big, 0, e, ml != 0)
        } else {
            let p: u128 = pow2_u128(s);
            proof {
                lemma_pow2_pos(s as nat);
            }
            let small: u128 = (ml as u128) / p;
            let rest: u128 = (ml as u128) % p;
            proof {
                vstd::arithmetic::div_mod::lemma_fundamental_div_mod(ml as int, p as int);
                let pe: nat = pow2(el as nat);
                assert(lo == small * ue + rest * pe) by (nonlinear_arith)
                    requires
                        lo == ml * pe,
                        ml == p * small + rest,
                        p * pe == ue,
                ;
                assert(rest * pe < ue) by (nonlinear_arith)
                    requires
                        rest < p,
                        p * pe == ue,
                        pe > 0,
                ;
                assert(rest != 0 <==> rest * pe > 0) by (nonlinear_arith)
                    requires
                        rest >= 0,
                        pe > 0,
                ;
                assert((small + 1) * ue == small * ue + ue) by (nonlinear_arith);
                assert(small <= ml) by (nonlinear_arith)
                    requires
                        ml == p * small + rest,
                        p >= 1,
                        rest >= 0,
                        small >= 0,
                ;
            }
            (big, small, e, rest != 0)
        }
    }
}

/// Adds two numbers given as sign, significand and scale, the first having the
/// larger scale.
fn add_ordered(nh: bool, mh: u64, eh: u32, nl: bool, ml: u64, el: u32) -> (r: u64)
    requires
        mh < 2 * HIDDEN_BIT,
        ml < 2 * HIDDEN_BIT,
        el <= eh <= 2045,
        eh > 0 ==> mh >= HIDDEN_BIT,
    ensures
        r == round_sum(
            signed_value(nh, mh * pow2(eh as nat)) + signed_value(nl, ml * pow2(el as nat)),
            nh && nl,
        ),
{
    let (big, small, e, lost) = align(mh, eh, ml, el);
    let ghost hi: int = mh * pow2(eh as nat);
    let ghost lo: int = ml * pow2(el as nat);
    let ghost ue: nat = pow2(e as nat);
    proof {
        lemma_pow2_values();
        lemma_pow2_pos(e as nat);
    }
    if nh == nl {
        let m: u128 = big + small;
        proof {
            assert(m * (1 * ue) == big * ue + small * ue) by (nonlinear_arith)
                requires
                    m == big + small,
            ;
            assert((m + 1) * (1 * ue) == big * ue + (small + 1) * ue) by (nonlinear_arith)
                requires
                    m == big + small,
            ;
            assert(brackets(m as nat, e as int, lost, (hi + lo) as nat, 1));
        }
        if m == 0 && !lost {
            proof {
                assert(0 * (1 * ue) == 0) by (nonlinear_arith);
            }
            return if nh {
                SIGN_BIT
            } else {
                0
            };
        }
        proof {
            assert(m > 0 ==> m * (1 * ue) > 0) by (nonlinear_arith)
                requires
                    ue > 0,
            ;
        }
        let k: u64 = round_pack(m, e, lost, Ghost((hi + lo) as nat), Ghost(1));
        with_sign(nh, k)
    } else if lost {
        let m: u128 = (big - small - 1) as u128;
        proof {
            assert(m * (1 * ue) == big * ue - (small + 1) * ue) by (nonlinear_arith)
                requires
                    m == big - small - 1,
            ;
            assert((m + 1) * (1 * ue) == big * ue - small * ue) by (nonlinear_arith)
                requires
                    m == big - small - 1,
            ;
            assert(brackets(m as nat, e as int, true, (hi - lo) as nat, 1));
        }
        let k: u64 = round_pack(m, e, true, Ghost((hi - lo) as nat), Ghost(1));
        with_sign(nh, k)
    } else if big > small {
        let m: u128 = (big - small) as u128;
        proof {
            assert(m * (1 * ue) == big * ue - small * ue) by (nonlinear_arith)
                requires
                    m == big - small,
            ;
            assert((m + 1) * (1 * ue) > m * (1 * ue)) by (nonlinear_arith)
                requires
                    ue > 0,
            ;
            assert(m * (1 * ue) > 0) by (nonlinear_arith)
                requires
                    m > 0,
                    ue > 0,
            ;
            assert(brackets(m as nat, e as int, false, (hi - lo) as nat, 1));
        }
        let k: u64 = round_pack(m, e, false, Ghost((hi - lo) as nat), Ghost(1));
        with_sign(nh, k)
    } else if big < small {
        let m: u128 = (small - big) as u128;
        proof {
            assert(m * (1 * ue) == small * ue - big * ue) by (nonlinear_arith)
                requires
                    m == small - big,
            ;
            assert((m + 1) * (1 * ue) > m * (1 * ue)) by (nonlinear_arith)
                requires
                    ue > 0,
            ;
            assert(m * (1 * ue) > 0) by (nonlinear_arith)
                requires
                    m > 0,
                    ue > 0,
            ;
            assert(brackets(m as nat, e as int, false, (lo - hi) as nat, 1));
        }
        let k: u64 = round_pack(m, e, false, Ghost((lo - hi) as nat), Ghost(1));
        with_sign(nl, k)
    } else {
        0
    }
}

/// Adds two doubles.
#[verifier::when_used_as_spec(add_spec)]
pub fn add(a: u64, b: u64) -> (r: u64)
    ensures
        r == add_spec(a, b),
{
    if is_nan(a) || is_nan(b) {
        return NAN_BITS;
    }
    if is_infinite(a) {
        if is_infinite(b) && is_negative(a) != is_negative(b) {
            return NAN_BITS;
        }
        return a;
    }
    if is_infinite(b) {
        return b;
    }
    let (ma, ea) = unpack(a);
    let (mb, eb) = unpack(b);
    if ea >= eb {
        add_ordered(is_negative(a), ma, ea, is_negative(b), mb, eb)
    } else {
        add_ordered(is_negative(b), mb, eb, is_negative(a), ma, ea)
    }
}

/// Subtracts the second double from the first.
#[verifier::when_used_as_spec(sub_spec)]
pub fn sub(a: u64, b: u64) -> (r: u64)
    ensures
        r == sub_spec(a, b),
{
    self::add(a, neg(b))
}

} // verus!
