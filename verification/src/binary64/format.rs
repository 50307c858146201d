use vstd::arithmetic::power2::{lemma_pow2_pos, lemma_pow2_strictly_increases, lemma_pow2_unfold, pow2};
use vstd::prelude::*;

verus! {

/// The bit that holds the sign.
pub const SIGN_BIT: u64 = 0x8000_0000_0000_0000;

/// The pattern of positive infinity: every exponent bit set, no fraction bit.
pub const INFINITY_BITS: u64 = 0x7ff0_0000_0000_0000;

/// The pattern that this library returns for every NaN result.
pub const NAN_BITS: u64 = 0x7ff8_0000_0000_0000;

/// Two to the 52: the weight of the implicit leading bit of a normal number.
pub const HIDDEN_BIT: u64 = 0x0010_0000_0000_0000;

/// The largest exponent, counted in doublings of the smallest subnormal, that a
/// finite number has.
pub const MAX_SCALE: u32 = 2045;

/// The pattern without its sign bit.
pub open spec fn abs_spec(bits: u64) -> u64 {
    if bits >= SIGN_BIT {
        (bits - SIGN_BIT) as u64
    } else {
        bits
    }
}

/// Whether the sign bit is set.
pub open spec fn is_negative_spec(bits: u64) -> bool {
    bits >= SIGN_BIT
}

/// Whether the pattern encodes a NaN.
pub open spec fn is_nan_spec(bits: u64) -> bool {
    abs_spec(bits) > INFINITY_BITS
}

/// Whether the pattern encodes positive or negative infinity.
pub open spec fn is_infinite_spec(bits: u64) -> bool {
    abs_spec(bits) == INFINITY_BITS
}

/// Whether the pattern encodes a number: zero, subnormal or normal.
pub open spec fn is_finite_spec(bits: u64) -> bool {
    abs_spec(bits) < INFINITY_BITS
}

/// Whether the pattern encodes positive or negative zero.
pub open spec fn is_zero_spec(bits: u64) -> bool {
    abs_spec(bits) == 0
}

/// The eleven exponent bits, as a number.
pub open spec fn exponent_field(bits: u64) -> nat {
    (abs_spec(bits) / HIDDEN_BIT) as nat
}

/// The fifty-two fraction bits, as a number.
pub open spec fn fraction_field(bits: u64) -> nat {
    (abs_spec(bits) % HIDDEN_BIT) as nat
}

/// The absolute value that a pattern encodes, counted in units of the smallest
/// positive subnormal, two to the -1074. Every finite double is a whole number of
/// such units. Infinity counts as two to the 1024, one binade above the largest
/// finite number; that is where rounding places it.
pub open spec fn magnitude(bits: u64) -> nat {
    if exponent_field(bits) == 0 {
        fraction_field(bits)
    } else {
        ((HIDDEN_BIT + fraction_field(bits)) * pow2((exponent_field(bits) - 1) as nat)) as nat
    }
}

/// The value that a pattern encodes, in units of two to the -1074.
pub open spec fn value(bits: u64) -> int {
    if is_negative_spec(bits) {
        -(magnitude(bits) as int)
    } else {
        magnitude(bits) as int
    }
}

/// Clears the sign bit.
#[verifier::when_used_as_spec(abs_spec)]
pub fn abs(bits: u64) -> (r: u64)
    ensures
        r == abs_spec(bits),
{
    if bits >= SIGN_BIT {
        bits - SIGN_BIT
    } else {
        bits
    }
}

/// The pattern with its sign bit flipped: the number negated.
pub open spec fn neg_spec(bits: u64) -> u64 {
    if bits >= SIGN_BIT {
        (bits - SIGN_BIT) as u64
    } else {
        (bits + SIGN_BIT) as u64
    }
}

/// The pattern with the given sign and the given bits below the sign.
pub open spec fn with_sign_spec(negative: bool, magnitude_bits: u64) -> u64 {
    if negative {
        (magnitude_bits + SIGN_BIT) as u64
    } else {
        magnitude_bits
    }
}

/// Flips the sign bit.
#[verifier::when_used_as_spec(neg_spec)]
pub fn neg(bits: u64) -> (r: u64)
    ensures
        r == neg_spec(bits),
{
    if bits >= SIGN_BIT {
        bits - SIGN_BIT
    } else {
        bits + SIGN_BIT
    }
}

/// Tells whether the sign bit is set.
#[verifier::when_used_as_spec(is_negative_spec)]
pub fn is_negative(bits: u64) -> (r: bool)
    ensures
        r == is_negative_spec(bits),
{
    bits >= SIGN_BIT
}

/// Tells whether the pattern encodes a NaN.
#[verifier::when_used_as_spec(is_nan_spec)]
pub fn is_nan(bits: u64) -> (r: bool)
    ensures
        r == is_nan_spec(bits),
{
    abs(bits) > INFINITY_BITS
}

/// Tells whether the pattern encodes an infinity.
#[verifier::when_used_as_spec(is_infinite_spec)]
pub fn is_infinite(bits: u64) -> (r: bool)
    ensures
        r == is_infinite_spec(bits),
{
    abs(bits) == INFINITY_BITS
}

/// Tells whether the pattern encodes a number.
#[verifier::when_used_as_spec(is_finite_spec)]
pub fn is_finite(bits: u64) -> (r: bool)
    ensures
        r == is_finite_spec(bits),
{
    abs(bits) < INFINITY_BITS
}

/// Tells whether the pattern encodes a zero of either sign.
#[verifier::when_used_as_spec(is_zero_spec)]
pub fn is_zero(bits: u64) -> (r: bool)
    ensures
        r == is_zero_spec(bits),
{
    abs(bits) == 0
}

/// Puts a sign on a pattern that has none.
#[verifier::when_used_as_spec(with_sign_spec)]
pub fn with_sign(negative: bool, magnitude_bits: u64) -> (r: u64)
    requires
        magnitude_bits < SIGN_BIT,
    ensures
        r == with_sign_spec(negative, magnitude_bits),
{
    if negative {
        magnitude_bits + SIGN_BIT
    } else {
        magnitude_bits
    }
}

/// Splits a pattern into a significand below two to the 53 and a scale, such
/// that the magnitude is the significand doubled `scale` times.
pub fn unpack(bits: u64) -> (r: (u64, u32))
    ensures
        r.0 < 2 * HIDDEN_BIT,
        r.1 <= 2046,
        r.0 * pow2(r.1 as nat) == magnitude(bits),
        r.1 > 0 ==> r.0 >= HIDDEN_BIT,
        exponent_field(bits) == 0 ==> r.1 == 0 && r.0 == fraction_field(bits),
        exponent_field(bits) > 0 ==> r.1 == exponent_field(bits) - 1 && r.0 == HIDDEN_BIT
            + fraction_field(bits),
{
    let a: u64 = abs(bits);
    let e: u64 = a / HIDDEN_BIT;
    let f: u64 = a % HIDDEN_BIT;
    proof {
        vstd::arithmetic::power2::lemma2_to64();
    }
    if e == 0 {
        (f, 0)
    } else {
        (HIDDEN_BIT + f, (e - 1) as u32)
    }
}

/// The magnitude of a pattern lies in the binade that its exponent field names.
pub proof fn lemma_magnitude_bounds(bits: u64)
    ensures
        magnitude(bits) < HIDDEN_BIT * pow2(exponent_field(bits)),
        exponent_field(bits) >= 1 ==> magnitude(bits) >= HIDDEN_BIT * pow2(
            (exponent_field(bits) - 1) as nat,
        ),
{
    let e: nat = exponent_field(bits);
    let f: nat = fraction_field(bits);
    let h: nat = HIDDEN_BIT as nat;
    if e == 0 {
        vstd::arithmetic::power2::lemma2_to64();
    } else {
        let p: nat = pow2((e - 1) as nat);
        lemma_pow2_pos((e - 1) as nat);
        lemma_pow2_unfold(e);
        assert((h + f) * p < h * (2 * p)) by (nonlinear_arith)
            requires
                f < h,
                p > 0,
        ;
        assert((h + f) * p >= h * p) by (nonlinear_arith)
            requires
                p > 0,
        ;
    }
}

/// A larger pattern, signs aside, encodes a larger magnitude.
pub proof fn lemma_magnitude_strictly_increases(a: u64, b: u64)
    requires
        abs_spec(a) < abs_spec(b),
    ensures
        magnitude(a) < magnitude(b),
{
    let ea: nat = exponent_field(a);
    let eb: nat = exponent_field(b);
    let fa: nat = fraction_field(a);
    let fb: nat = fraction_field(b);
    let h: nat = HIDDEN_BIT as nat;
    assert(ea <= eb);
    if ea == eb {
        assert(fa < fb);
        if ea != 0 {
            let p: nat = pow2((ea - 1) as nat);
            lemma_pow2_pos((ea - 1) as nat);
            assert((h + fa) * p < (h + fb) * p) by (nonlinear_arith)
                requires
                    fa < fb,
                    p > 0,
            ;
        }
    } else {
        lemma_magnitude_bounds(a);
        lemma_magnitude_bounds(b);
        let pa: nat = pow2(ea);
        let pb: nat = pow2((eb - 1) as nat);
        if ea < eb - 1 {
            lemma_pow2_strictly_increases(ea, (eb - 1) as nat);
        }
        assert(h * pa <= h * pb) by (nonlinear_arith)
            requires
                pa <= pb,
        ;
    }
}

/// Two patterns encode the same magnitude only if they agree up to the sign.
pub proof fn lemma_magnitude_injective(a: u64, b: u64)
    ensures
        magnitude(a) == magnitude(b) <==> abs_spec(a) == abs_spec(b),
        magnitude(a) < magnitude(b) <==> abs_spec(a) < abs_spec(b),
{
    if abs_spec(a) < abs_spec(b) {
        lemma_magnitude_strictly_increases(a, b);
    } else if abs_spec(b) < abs_spec(a) {
        lemma_magnitude_strictly_increases(b, a);
    } else {
        assert(exponent_field(a) == exponent_field(b));
        assert(fraction_field(a) == fraction_field(b));
    }
}

/// Only the two zeros have magnitude zero.
pub proof fn lemma_magnitude_zero(bits: u64)
    ensures
        magnitude(bits) == 0 <==> is_zero_spec(bits),
{
    lemma_magnitude_injective(bits, 0);
    assert(exponent_field(0) == 0 && fraction_field(0) == 0);
}

} // verus!
