use super::format::{
    lemma_magnitude_strictly_increases, magnitude, HIDDEN_BIT, INFINITY_BITS, MAX_SCALE,
};
use vstd::arithmetic::power2::{lemma2_to64, lemma_pow2_strictly_increases, lemma_pow2_unfold, pow2};
use vstd::prelude::*;

verus! {

/// Twice the midpoint between the magnitudes of two neighbouring patterns.
pub open spec fn twice_midpoint(k: u64) -> nat {
    magnitude(k) + magnitude((k + 1) as u64)
}

/// Whether the unsigned pattern `k` is the rational `num / den`, counted in units
/// of two to the -1074, rounded to the nearest double with ties going to the even
/// significand. `k` is nearest when `num / den` lies between the midpoints to its
/// two neighbours; on a midpoint the even pattern wins. Infinity is the pattern
/// above the largest finite one, so a quotient at or beyond the last midpoint
/// rounds to it.
pub open spec fn rounds_to(num: nat, den: nat, k: u64) -> bool {
    &&& k <= INFINITY_BITS
    &&& k < INFINITY_BITS ==> {
        ||| 2 * num < twice_midpoint(k) * den
        ||| (2 * num == twice_midpoint(k) * den && k % 2 == 0)
    }
    &&& k > 0 ==> {
        ||| 2 * num > twice_midpoint((k - 1) as u64) * den
        ||| (2 * num == twice_midpoint((k - 1) as u64) * den && k % 2 == 0)
    }
}

/// The nearest double to `num / den`, as an unsigned pattern.
pub open spec fn nearest(num: nat, den: nat) -> u64 {
    choose|k: u64| rounds_to(num, den, k)
}

/// A rational rounds to one pattern only.
pub proof fn lemma_rounds_to_unique(num: nat, den: nat, k1: u64, k2: u64)
    requires
        den > 0,
        rounds_to(num, den, k1),
        rounds_to(num, den, k2),
    ensures
        k1 == k2,
{
    if k1 < k2 {
        lemma_rounds_to_excludes(num, den, k1, k2);
    } else if k2 < k1 {
        lemma_rounds_to_excludes(num, den, k2, k1);
    }
}

/// What rounds to a pattern rounds to none above it.
proof fn lemma_rounds_to_excludes(num: nat, den: nat, k1: u64, k2: u64)
    requires
        den > 0,
        k1 < k2,
        rounds_to(num, den, k1),
    ensures
        !rounds_to(num, den, k2),
{
    if k2 > INFINITY_BITS {
        return ;
    }
    let j: u64 = (k2 - 1) as u64;
    let m1: nat = twice_midpoint(k1);
    let m2: nat = twice_midpoint(j);
    if k1 < j {
        lemma_magnitude_strictly_increases(k1, j);
        lemma_magnitude_strictly_increases((k1 + 1) as u64, k2);
        assert(m1 * den < m2 * den) by (nonlinear_arith)
            requires
                m1 < m2,
                den > 0,
        ;
    }
}

/// What rounds to `k` is the value of `nearest`.
pub proof fn lemma_nearest_is(num: nat, den: nat, k: u64)
    requires
        den > 0,
        rounds_to(num, den, k),
    ensures
        nearest(num, den) == k,
{
    lemma_rounds_to_unique(num, den, k, nearest(num, den));
}

/// Whether `num / den` lies at or above the midpoint below the pattern `k`, as
/// rounding to `k` asks.
pub open spec fn reaches(num: nat, den: nat, k: u64) -> bool {
    k > 0 ==> {
        ||| 2 * num > twice_midpoint((k - 1) as u64) * den
        ||| (2 * num == twice_midpoint((k - 1) as u64) * den && k % 2 == 0)
    }
}

/// Every nonnegative rational has a nearest double.
pub proof fn lemma_nearest_exists(num: nat, den: nat)
    requires
        den > 0,
    ensures
        rounds_to(num, den, nearest(num, den)),
{
    lemma_climb(num, den, 0);
}

/// Climbs from a pattern that the quotient reaches to the one it rounds to.
proof fn lemma_climb(num: nat, den: nat, k: u64)
    requires
        den > 0,
        k <= INFINITY_BITS,
        reaches(num, den, k),
    ensures
        exists|r: u64| rounds_to(num, den, r),
    decreases INFINITY_BITS - k,
{
    if rounds_to(num, den, k) {
    } else {
        lemma_climb(num, den, (k + 1) as u64);
    }
}

/// A rational that is a double rounds to that double.
pub proof fn lemma_representable_rounds_to_itself(k: u64, den: nat)
    requires
        k <= INFINITY_BITS,
        den > 0,
    ensures
        rounds_to(magnitude(k) * den, den, k),
        nearest(magnitude(k) * den, den) == k,
{
    let m: nat = magnitude(k);
    if k < INFINITY_BITS {
        lemma_magnitude_strictly_increases(k, (k + 1) as u64);
        let above: nat = magnitude((k + 1) as u64);
        assert(2 * (m * den) < (m + above) * den) by (nonlinear_arith)
            requires
                m < above,
                den > 0,
        ;
    }
    if k > 0 {
        lemma_magnitude_strictly_increases((k - 1) as u64, k);
        let below: nat = magnitude((k - 1) as u64);
        assert(2 * (m * den) > (below + m) * den) by (nonlinear_arith)
            requires
                below < m,
                den > 0,
        ;
    }
    lemma_nearest_is(m * den, den, k);
}

/// Rounding keeps the order: of two rationals, the smaller does not round to
/// the larger double.
pub proof fn lemma_nearest_monotone(n1: nat, d1: nat, n2: nat, d2: nat)
    requires
        d1 > 0,
        d2 > 0,
        n1 * d2 <= n2 * d1,
    ensures
        nearest(n1, d1) <= nearest(n2, d2),
{
    lemma_nearest_exists(n1, d1);
    lemma_nearest_exists(n2, d2);
    let k1: u64 = nearest(n1, d1);
    let k2: u64 = nearest(n2, d2);
    if k1 > k2 {
        // The midpoint above `k2` bounds the second rational from above, the
        // midpoint below `k1` bounds the first from below, and the two
        // midpoints are in order.
        let j: u64 = (k1 - 1) as u64;
        let ma: nat = twice_midpoint(k2);
        let mb: nat = twice_midpoint(j);
        assert(2 * (n1 * d2) >= mb * (d1 * d2)) by (nonlinear_arith)
            requires
                2 * n1 >= mb * d1,
                d2 > 0,
        ;
        assert(2 * (n2 * d1) <= ma * (d1 * d2)) by (nonlinear_arith)
            requires
                2 * n2 <= ma * d2,
                d1 > 0,
        ;
        assert(d1 * d2 > 0) by (nonlinear_arith)
            requires
                d1 > 0,
                d2 > 0,
        ;
        if k2 < j {
            lemma_magnitude_strictly_increases(k2, j);
            lemma_magnitude_strictly_increases((k2 + 1) as u64, k1);
            assert(ma * (d1 * d2) < mb * (d1 * d2)) by (nonlinear_arith)
                requires
                    ma < mb,
                    d1 * d2 > 0,
            ;
        } else {
            assert(2 * n1 == mb * d1) by (nonlinear_arith)
                requires
                    2 * (n1 * d2) == mb * (d1 * d2),
                    d2 > 0,
            ;
            assert(2 * n2 == ma * d2) by (nonlinear_arith)
                requires
                    2 * (n2 * d1) == ma * (d1 * d2),
                    d1 > 0,
            ;
        }
    }
}

/// Rounding sees the quotient only: a common factor changes nothing.
pub proof fn lemma_rounds_to_scaled(num: nat, den: nat, c: nat, k: u64)
    requires
        c > 0,
        rounds_to(num * c, den * c, k),
    ensures
        rounds_to(num, den, k),
{
    if k < INFINITY_BITS {
        let t: nat = twice_midpoint(k);
        assert(2 * (num * c) < t * (den * c) ==> 2 * num < t * den) by (nonlinear_arith)
            requires
                c > 0,
        ;
        assert(2 * (num * c) == t * (den * c) ==> 2 * num == t * den) by (nonlinear_arith)
            requires
                c > 0,
        ;
    }
    if k > 0 {
        let t: nat = twice_midpoint((k - 1) as u64);
        assert(2 * (num * c) > t * (den * c) ==> 2 * num > t * den) by (nonlinear_arith)
            requires
                c > 0,
        ;
        assert(2 * (num * c) == t * (den * c) ==> 2 * num == t * den) by (nonlinear_arith)
            requires
                c > 0,
        ;
    }
}

/// The pattern made of a scale and a significand has the magnitude that the two
/// spell out: the significand doubled `scale` times.
pub proof fn lemma_magnitude_of_packed(scale: nat, q: nat)
    requires
        scale <= 2046,
        q <= 2 * HIDDEN_BIT,
        scale == 2046 ==> q < 2 * HIDDEN_BIT,
        scale == 0 || q >= HIDDEN_BIT,
    ensures
        scale * HIDDEN_BIT + q < 0x8000_0000_0000_0000,
        magnitude((scale * HIDDEN_BIT + q) as u64) == q * pow2(scale),
{
    let h: nat = 0x10_0000_0000_0000;
    assert(scale * HIDDEN_BIT == scale * 0x10_0000_0000_0000) by (nonlinear_arith)
        requires
            HIDDEN_BIT == 0x10_0000_0000_0000,
    ;
    let k: u64 = (scale * 0x10_0000_0000_0000 + q) as u64;
    lemma2_to64();
    if q < h {
        assert(k / HIDDEN_BIT == 0);
        assert(k % HIDDEN_BIT == q);
    } else if q < 2 * h {
        assert(k == (scale + 1) * 0x10_0000_0000_0000 + (q - h));
        assert(k / HIDDEN_BIT == scale + 1);
        assert(k % HIDDEN_BIT == q - h);
    } else {
        assert(k == (scale + 2) * 0x10_0000_0000_0000);
        assert(k / HIDDEN_BIT == scale + 2);
        assert(k % HIDDEN_BIT == 0);
        lemma_pow2_unfold(scale + 1);
        let p: nat = pow2(scale);
        assert(h * (2 * p) == (2 * h) * p) by (nonlinear_arith);
    }
}

/// A quotient in the top binade or above rounds to infinity.
pub proof fn lemma_rounds_to_infinity(num: nat, den: nat)
    requires
        den > 0,
        num >= magnitude(INFINITY_BITS) * den,
    ensures
        rounds_to(num, den, INFINITY_BITS),
{
    let j: u64 = (INFINITY_BITS - 1) as u64;
    lemma_magnitude_strictly_increases(j, INFINITY_BITS);
    let a: nat = magnitude(j);
    let b: nat = magnitude(INFINITY_BITS);
    assert(2 * num > (a + b) * den) by (nonlinear_arith)
        requires
            num >= b * den,
            a < b,
            den > 0,
    ;
}

/// A quotient below a quarter of the smallest subnormal rounds to zero.
pub proof fn lemma_rounds_to_zero(num: nat, den: nat)
    requires
        den > 0,
        4 * num <= den,
    ensures
        rounds_to(num, den, 0),
{
    assert(magnitude(0) == 0);
    assert(magnitude(1) == 1);
    assert(twice_midpoint(0) * den == den) by (nonlinear_arith)
        requires
            twice_midpoint(0) == 1,
    ;
}

/// The rounding step. A quotient is known to lie in `[m, m + 1)` units of size
/// `unit`, where `m = q * p + r` splits into the bits that are kept and the
/// `p`-th part that is dropped; `sticky` tells whether it lies above `m`. The
/// kept bits `q` at the given scale are the pattern below the quotient, and
/// comparing the dropped part with one half decides whether to step up.
pub proof fn lemma_round_step(
    num: nat,
    den: nat,
    scale: nat,
    q: nat,
    p: nat,
    r: nat,
    unit: nat,
    sticky: bool,
    up: bool,
)
    requires
        den > 0,
        unit > 0,
        p > 0,
        r < p,
        scale <= MAX_SCALE,
        q < 2 * HIDDEN_BIT,
        scale == 0 || q >= HIDDEN_BIT,
        pow2(scale) * den == p * unit,
        (q * p + r) * unit <= num < (q * p + r + 1) * unit,
        sticky <==> (q * p + r) * unit < num,
        sticky ==> p % 2 == 0,
        up <==> (2 * r > p || (2 * r == p && (sticky || q % 2 == 1))),
    ensures
        scale * HIDDEN_BIT + q + 1 <= INFINITY_BITS,
        rounds_to(num, den, (scale * HIDDEN_BIT + q + (if up { 1nat } else { 0nat })) as u64),
{
    let h: nat = HIDDEN_BIT as nat;
    let k0: u64 = (scale * h + q) as u64;
    let k1: u64 = (k0 + 1) as u64;
    lemma_magnitude_of_packed(scale, q);
    lemma_magnitude_of_packed(scale, q + 1);
    let s: nat = pow2(scale);
    let m0: nat = magnitude(k0);
    let m1: nat = magnitude(k1);
    assert(m0 == q * s);
    assert(m1 == (q + 1) * s);
    // The midpoint between the two candidates, in the units of `num`.
    let t: nat = (2 * q + 1) * p * unit;
    assert(twice_midpoint(k0) * den == t) by (nonlinear_arith)
        requires
            twice_midpoint(k0) == q * s + (q + 1) * s,
            s * den == p * unit,
            t == (2 * q + 1) * p * unit,
    ;
    assert(m0 * den == q * p * unit) by (nonlinear_arith)
        requires
            m0 == q * s,
            s * den == p * unit,
    ;
    assert(m1 * den == (q + 1) * p * unit) by (nonlinear_arith)
        requires
            m1 == (q + 1) * s,
            s * den == p * unit,
    ;
    lemma_halfway(num, q, p, r, unit, t);
    if up {
        // num is at or above the midpoint, and below the upper candidate.
        if k1 < INFINITY_BITS {
            let k2: u64 = (k1 + 1) as u64;
            lemma_magnitude_strictly_increases(k1, k2);
            let m2: nat = magnitude(k2);
            assert(2 * num < (m1 + m2) * den) by (nonlinear_arith)
                requires
                    num < (q * p + r + 1) * unit,
                    r < p,
                    unit > 0,
                    m1 * den == (q + 1) * p * unit,
                    m1 < m2,
                    den > 0,
            ;
        }
        assert(k0 % 2 == q % 2);
    } else {
        // num is at or below the midpoint, and at or above the lower candidate.
        if k0 > 0 {
            let j: u64 = (k0 - 1) as u64;
            lemma_magnitude_strictly_increases(j, k0);
            let mj: nat = magnitude(j);
            assert(2 * num > (mj + m0) * den) by (nonlinear_arith)
                requires
                    num >= (q * p + r) * unit,
                    m0 * den == q * p * unit,
                    mj < m0,
                    den > 0,
                    unit > 0,
            ;
        }
        assert(k0 % 2 == q % 2);
    }
}

/// Where a quotient known up to one unit lies relative to the midpoint `t` of
/// the two candidates.
proof fn lemma_halfway(num: nat, q: nat, p: nat, r: nat, unit: nat, t: nat)
    requires
        unit > 0,
        p > 0,
        r < p,
        (q * p + r) * unit <= num < (q * p + r + 1) * unit,
        p % 2 == 0 || num == (q * p + r) * unit,
        t == (2 * q + 1) * p * unit,
    ensures
        2 * r > p ==> 2 * num > t,
        2 * r < p ==> 2 * num < t,
        2 * r == p ==> 2 * ((q * p + r) * unit) == t,
{
    let lo: nat = (q * p + r) * unit;
    let hi: nat = (q * p + r + 1) * unit;
    if 2 * r > p {
        assert(2 * lo > t) by (nonlinear_arith)
            requires
                lo == (q * p + r) * unit,
                t == (2 * q + 1) * p * unit,
                2 * r >= p + 1,
                unit > 0,
        ;
    } else if 2 * r < p {
        if p % 2 == 0 {
            assert(2 * hi <= t) by (nonlinear_arith)
                requires
                    hi == (q * p + r + 1) * unit,
                    t == (2 * q + 1) * p * unit,
                    2 * r + 2 <= p,
                    unit > 0,
            ;
        } else {
            assert(2 * lo < t) by (nonlinear_arith)
                requires
                    lo == (q * p + r) * unit,
                    t == (2 * q + 1) * p * unit,
                    2 * r < p,
                    unit > 0,
            ;
        }
    } else {
        assert(2 * lo == t) by (nonlinear_arith)
            requires
                lo == (q * p + r) * unit,
                t == (2 * q + 1) * p * unit,
                2 * r == p,
        ;
    }
}

/// The powers of two that the arithmetic below meets by value.
pub proof fn lemma_pow2_values()
    ensures
        pow2(0) == 1,
        pow2(1) == 2,
        pow2(52) == 0x10_0000_0000_0000,
        pow2(53) == 0x20_0000_0000_0000,
        pow2(55) == 0x80_0000_0000_0000,
        pow2(64) == 0x1_0000_0000_0000_0000,
        pow2(116) == 0x10_0000_0000_0000_0000_0000_0000_0000,
        pow2(117) == 0x20_0000_0000_0000_0000_0000_0000_0000,
        pow2(120) == 0x100_0000_0000_0000_0000_0000_0000_0000,
        pow2(127) == 0x8000_0000_0000_0000_0000_0000_0000_0000,
{
    lemma2_to64();
    vstd::arithmetic::power2::lemma2_to64_rest();
    vstd::arithmetic::power2::lemma_pow2_adds(60, 56);
    vstd::arithmetic::power2::lemma_pow2_adds(60, 57);
    vstd::arithmetic::power2::lemma_pow2_adds(60, 60);
    vstd::arithmetic::power2::lemma_pow2_adds(64, 63);
}

/// Powers of two grow with the exponent.
pub proof fn lemma_pow2_increases(a: nat, b: nat)
    requires
        a <= b,
    ensures
        pow2(a) <= pow2(b),
{
    if a < b {
        lemma_pow2_strictly_increases(a, b);
    }
}

} // verus!
