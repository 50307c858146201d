use super::format::{magnitude, HIDDEN_BIT, INFINITY_BITS};
use super::rounding::{
    lemma_magnitude_of_packed, lemma_nearest_is, lemma_pow2_increases, lemma_pow2_values,
    lemma_round_step, lemma_rounds_to_infinity, lemma_rounds_to_scaled, lemma_rounds_to_zero,
    nearest, rounds_to,
};
use vstd::arithmetic::power2::{lemma_pow2_pos, lemma_pow2_unfold, pow2};
use vstd::prelude::*;

verus! {

/// Computes a power of two.
pub fn pow2_u128(n: u32) -> (r: u128)
    requires
        n <= 127,
    ensures
        r == pow2(n as nat),
{
    let mut r: u128 = 1;
    let mut i: u32 = 0;
    proof {
        lemma_pow2_values();
    }
    while i < n
        invariant
            i <= n <= 127,
            r == pow2(i as nat),
        decreases n - i,
    {
        proof {
            lemma_pow2_unfold((i + 1) as nat);
            lemma_pow2_increases((i + 1) as nat, 127);
            lemma_pow2_values();
        }
        r = r * 2;
        i = i + 1;
    }
    r
}

/// Counts the bits of a positive number: the position above its leading one.
pub fn bit_length(m: u128) -> (len: u32)
    requires
        0 < m < pow2(126),
    ensures
        1 <= len <= 126,
        pow2((len - 1) as nat) <= m < pow2(len as nat),
{
    let mut len: u32 = 0;
    let mut p: u128 = 1;
    proof {
        lemma_pow2_values();
    }
    while p <= m
        invariant
            0 < m < pow2(126),
            len <= 126,
            p == pow2(len as nat),
            len > 0 ==> pow2((len - 1) as nat) <= m,
        decreases 127 - len,
    {
        proof {
            if len >= 126 {
                lemma_pow2_increases(126, len as nat);
            }
            lemma_pow2_unfold((len + 1) as nat);
            lemma_pow2_increases((len + 1) as nat, 127);
            lemma_pow2_values();
        }
        p = p * 2;
        len = len + 1;
    }
    len
}

/// Whether `num / den` lies in `[m, m + 1)` counted in units of two to the `e`,
/// with `sticky` telling whether it lies above `m`.
pub open spec fn brackets(m: nat, e: int, sticky: bool, num: nat, den: nat) -> bool {
    let grow: nat = if e >= 0 {
        pow2(e as nat)
    } else {
        1
    };
    let shrink: nat = if e >= 0 {
        1
    } else {
        pow2((-e) as nat)
    };
    &&& m * (den * grow) <= num * shrink
    &&& num * shrink < (m + 1) * (den * grow)
    &&& sticky <==> m * (den * grow) < num * shrink
}

/// Rounds a quotient, known as a significand `m` at scale `e` and a flag for
/// what lies below the last bit of `m`, to the nearest double.
pub(crate) fn round_pack(
    m: u128,
    e: i32,
    sticky: bool,
    Ghost(num): Ghost<nat>,
    Ghost(den): Ghost<nat>,
) -> (k: u64)
    requires
        den > 0,
        m < pow2(120),
        -1200 <= e <= 3200,
        sticky ==> m >= pow2(55),
        brackets(m as nat, e as int, sticky, num, den),
    ensures
        rounds_to(num, den, k),
        nearest(num, den) == k,
{
    let ghost grow: nat = if e >= 0 {
        pow2(e as nat)
    } else {
        1
    };
    let ghost shrink: nat = if e >= 0 {
        1
    } else {
        pow2((-e) as nat)
    };
    let ghost unit: nat = den * grow;
    let ghost x: nat = num * shrink;
    let ghost d: nat = den * shrink;
    proof {
        lemma_pow2_values();
        if e >= 0 {
            lemma_pow2_pos(e as nat);
        } else {
            lemma_pow2_pos((-e) as nat);
        }
        assert(unit > 0) by (nonlinear_arith)
            requires
                unit == den * grow,
                den > 0,
                grow > 0,
        ;
        assert(d > 0) by (nonlinear_arith)
            requires
                d == den * shrink,
                den > 0,
                shrink > 0,
        ;
    }
    if m == 0 {
        proof {
            assert(0 * unit == 0) by (nonlinear_arith);
            assert(num == 0) by (nonlinear_arith)
                requires
                    num * shrink == 0,
                    shrink > 0,
            ;
            lemma_rounds_to_zero(num, den);
            lemma_nearest_is(num, den, 0);
        }
        return 0;
    }
    proof {
        lemma_pow2_increases(120, 126);
    }
    let len: u32 = bit_length(m);
    proof {
        if len > 120 {
            lemma_pow2_increases(120, (len - 1) as nat);
        }
    }
    let wide: i32 = len as i32 - 53;
    let drop: i32 = if wide > -e {
        wide
    } else {
        -e
    };
    let scale: i32 = e + drop;
    if drop > 126 {
        proof {
            // The quotient is below two to the 120 units of two to the `e`, and
            // those are smaller than two to the -126.
            let s: nat = pow2(drop as nat);
            lemma_pow2_increases(127, drop as nat);
            assert(4 * x <= d) by (nonlinear_arith)
                requires
                    x < (m + 1) * unit,
                    unit == den,
                    d == den * s,
                    m + 1 <= 0x100_0000_0000_0000_0000_0000_0000_0000,
                    s >= 0x8000_0000_0000_0000_0000_0000_0000_0000,
            ;
            lemma_rounds_to_zero(x, d);
            lemma_rounds_to_scaled(num, den, shrink, 0);
            lemma_nearest_is(num, den, 0);
        }
        return 0;
    }
    if scale >= 2046 {
        proof {
            // The leading bit alone reaches two to the 1024.
            lemma_magnitude_of_packed(2046, HIDDEN_BIT as nat);
            let top: nat = pow2((len - 1) as nat);
            vstd::arithmetic::power2::lemma_pow2_adds((len - 1) as nat, e as nat);
            vstd::arithmetic::power2::lemma_pow2_adds(52, 2046);
            lemma_pow2_increases(2098, ((len - 1) + e) as nat);
            let big: nat = pow2(2098);
            assert(magnitude(INFINITY_BITS) == big);
            assert(x >= big * den) by (nonlinear_arith)
                requires
                    x >= m * unit,
                    unit == den * grow,
                    m >= top,
                    top * grow >= big,
            ;
            lemma_rounds_to_infinity(num, den);
            lemma_nearest_is(num, den, INFINITY_BITS);
        }
        return INFINITY_BITS;
    }
    let q: u64;
    let up: bool;
    if drop <= 0 {
        let t: u32 = (-drop) as u32;
        let f: u128 = pow2_u128(t);
        proof {
            lemma_pow2_pos(t as nat);
            vstd::arithmetic::power2::lemma_pow2_adds(len as nat, t as nat);
            lemma_pow2_increases((len + t) as nat, 53);
            assert(m * f < pow2(len as nat) * f) by (nonlinear_arith)
                requires
                    m < pow2(len as nat),
                    f > 0,
            ;
        }
        q = (m * f) as u64;
        up = false;
        proof {
            let s: nat = pow2(scale as nat);
            let fine: nat = den * s;
            lemma_pow2_increases(len as nat, 55);
            assert(!sticky);
            assert(x == m * unit);
            lemma_pow2_pos(scale as nat);
            vstd::arithmetic::power2::lemma_pow2_adds(t as nat, scale as nat);
            assert(q * fine == m * unit) by (nonlinear_arith)
                requires
                    q == m * f,
                    fine == den * s,
                    unit == den * grow,
                    grow == f * s,
            ;
            assert(fine > 0) by (nonlinear_arith)
                requires
                    fine == den * s,
                    den > 0,
                    s > 0,
            ;
            assert((q * 1 + 0) * fine == q * fine) by (nonlinear_arith);
            assert((q * 1 + 0 + 1) * fine == q * fine + fine) by (nonlinear_arith);
            assert(s * d == 1 * fine) by (nonlinear_arith)
                requires
                    fine == den * s,
                    d == den,
            ;
            if scale > 0 {
                // No bit is dropped and the scale is positive: the significand
                // was widened to fifty-three bits.
                vstd::arithmetic::power2::lemma_pow2_adds((len - 1) as nat, t as nat);
                assert(q >= HIDDEN_BIT) by (nonlinear_arith)
                    requires
                        q == m * f,
                        m >= pow2((len - 1) as nat),
                        pow2((len - 1) as nat) * f == HIDDEN_BIT,
                        f > 0,
                ;
            }
            lemma_round_step(x, d, scale as nat, q as nat, 1, 0, fine, false, false);
        }
    } else {
        let p: u128 = pow2_u128(drop as u32);
        proof {
            lemma_pow2_pos(drop as nat);
            lemma_pow2_unfold(drop as nat);
        }
        let whole: u128 = m / p;
        let r: u128 = m % p;
        let half: u128 = p / 2;
        proof {
            vstd::arithmetic::div_mod::lemma_fundamental_div_mod(m as int, p as int);
            assert(m == whole * p + r) by (nonlinear_arith)
                requires
                    m == p * whole + r,
            ;
            // At most fifty-three bits are kept.
            vstd::arithmetic::power2::lemma_pow2_adds(53, drop as nat);
            lemma_pow2_increases(len as nat, (53 + drop) as nat);
            assert(whole < 2 * HIDDEN_BIT) by (nonlinear_arith)
                requires
                    m == whole * p + r,
                    m < 0x20_0000_0000_0000 * p,
                    HIDDEN_BIT == 0x10_0000_0000_0000,
                    p > 0,
            ;
            if scale > 0 {
                vstd::arithmetic::power2::lemma_pow2_adds(52, drop as nat);
                assert(whole >= HIDDEN_BIT) by (nonlinear_arith)
                    requires
                        m == whole * p + r,
                        m >= 0x10_0000_0000_0000 * p,
                        HIDDEN_BIT == 0x10_0000_0000_0000,
                        r < p,
                ;
            }
        }
        q = whole as u64;
        up = r > half || (r == half && (sticky || q % 2 == 1));
        proof {
            let s: nat = pow2(scale as nat);
            if e >= 0 {
                vstd::arithmetic::power2::lemma_pow2_adds(e as nat, drop as nat);
            } else {
                vstd::arithmetic::power2::lemma_pow2_adds(scale as nat, (-e) as nat);
            }
            assert(s * d == p * unit) by (nonlinear_arith)
                requires
                    d == den * shrink,
                    unit == den * grow,
                    s * shrink == p * grow,
            ;
            lemma_round_step(x, d, scale as nat, q as nat, p as nat, r as nat, unit, sticky, up);
        }
    }
    proof {
        assert(scale * HIDDEN_BIT == scale * 0x10_0000_0000_0000) by (nonlinear_arith)
            requires
                HIDDEN_BIT == 0x10_0000_0000_0000,
        ;
    }
    let k0: u64 = (scale as u64) * HIDDEN_BIT + q;
    let k: u64 = if up {
        k0 + 1
    } else {
        k0
    };
    proof {
        lemma_rounds_to_scaled(num, den, shrink, k);
        lemma_nearest_is(num, den, k);
    }
    k
}

} // verus!
