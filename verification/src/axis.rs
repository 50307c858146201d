//! One axis of breakpoints: what makes it valid, and where a query falls on it.

use crate::binary64::arith::{add_spec, div_spec, mul_spec, sub_spec};
use crate::binary64::format::{is_finite, is_finite_spec, is_nan_spec, lemma_magnitude_zero, value};
use crate::binary64::order::{eq_spec, gt, gt_spec, lt, lt_spec};
use crate::binary64::rounding::lemma_nearest_exists;
use crate::EPSILON;
use vstd::prelude::*;

verus! {

/// Whether every entry is a number, neither NaN nor infinite.
pub open spec fn all_finite(s: Seq<u64>) -> bool {
    forall|i: int| 0 <= i < s.len() ==> is_finite_spec(#[trigger] s[i])
}

/// Whether `b - a`, computed in double precision, is greater than the
/// tolerance.
pub open spec fn gap_exceeds_epsilon_spec(a: u64, b: u64) -> bool {
    gt_spec(sub_spec(b, a), EPSILON)
}

/// Whether the entry after position `i` lies more than the tolerance above the
/// entry at `i`.
pub open spec fn spaced_at(s: Seq<u64>, i: int) -> bool {
    gap_exceeds_epsilon_spec(s[i], s[i + 1])
}

/// Whether each entry lies more than the tolerance above the one before it.
pub open spec fn well_spaced(s: Seq<u64>) -> bool {
    forall|i: int| 0 <= i < s.len() - 1 ==> #[trigger] spaced_at(s, i)
}

/// Whether the entries, as numbers, strictly increase.
pub open spec fn ascending(s: Seq<u64>) -> bool {
    forall|i: int, j: int| 0 <= i < j < s.len() ==> value(#[trigger] s[i]) < value(#[trigger] s[j])
}

/// What a sequence of breakpoints must satisfy: at least two entries, all of
/// them numbers, each more than the tolerance above the one before.
pub open spec fn valid_axis(s: Seq<u64>) -> bool {
    &&& s.len() >= 2
    &&& all_finite(s)
    &&& well_spaced(s)
}

/// Whether the breakpoint at `i` equals the query.
pub open spec fn matches_at(q: u64, s: Seq<u64>, i: int) -> bool {
    0 <= i < s.len() && eq_spec(s[i], q)
}

/// Whether the query lies strictly between the breakpoints at `i - 1` and `i`.
pub open spec fn straddled_at(q: u64, s: Seq<u64>, i: int) -> bool {
    0 < i < s.len() && lt_spec(s[i - 1], q) && lt_spec(q, s[i])
}

/// The pair of positions between which a query is interpolated. Below the first
/// breakpoint it is the first position twice, above the last the last twice, on
/// a breakpoint that position twice, and otherwise the positions of the two
/// breakpoints that enclose the query.
pub open spec fn indices_spec(q: u64, s: Seq<u64>) -> (int, int) {
    let last = s.len() - 1;
    if lt_spec(q, s[0]) {
        (0, 0)
    } else if gt_spec(q, s[last]) {
        (last, last)
    } else if exists|i: int| matches_at(q, s, i) {
        let i = choose|i: int| matches_at(q, s, i);
        (i, i)
    } else {
        let i = choose|i: int| straddled_at(q, s, i);
        (i - 1, i)
    }
}

/// The value at `q` on the straight line through `(x0, y0)` and `(x1, y1)`, each
/// step computed in double precision: the share `alpha = (q - x0) / (x1 - x0)`
/// of the way from `y0` to `y1`.
pub open spec fn lerp_spec(q: u64, x0: u64, x1: u64, y0: u64, y1: u64) -> u64 {
    let alpha = div_spec(sub_spec(q, x0), sub_spec(x1, x0));
    add_spec(y0, mul_spec(alpha, sub_spec(y1, y0)))
}

/// Interpolates linearly between two samples.
#[verifier::when_used_as_spec(lerp_spec)]
pub fn lerp(q: u64, x0: u64, x1: u64, y0: u64, y1: u64) -> (r: u64)
    ensures
        r == lerp_spec(q, x0, x1, y0, y1),
{
    let alpha: u64 = crate::binary64::arith::div(
        crate::binary64::arith::sub(q, x0),
        crate::binary64::arith::sub(x1, x0),
    );
    crate::binary64::arith::add(
        y0,
        crate::binary64::arith::mul(alpha, crate::binary64::arith::sub(y1, y0)),
    )
}

/// A gap above the tolerance is a gap: the second number is the greater.
pub proof fn lemma_gap_implies_order(a: u64, b: u64)
    requires
        is_finite_spec(a),
        is_finite_spec(b),
        gap_exceeds_epsilon_spec(a, b),
    ensures
        value(a) < value(b),
{
    let sum: int = value(b) - value(a);
    lemma_magnitude_zero(EPSILON);
    assert(value(EPSILON) > 0);
    if sum < 0 {
        lemma_nearest_exists((-sum) as nat, 1);
    }
    lemma_magnitude_zero(0);
    lemma_magnitude_zero(crate::binary64::format::SIGN_BIT);
}

/// Breakpoints that are numbers and well spaced strictly increase.
pub proof fn lemma_well_spaced_ascending(s: Seq<u64>)
    requires
        all_finite(s),
        well_spaced(s),
    ensures
        ascending(s),
{
    assert forall|i: int, j: int| 0 <= i < j < s.len() implies value(#[trigger] s[i]) < value(
        #[trigger] s[j],
    ) by {
        lemma_rises_between(s, i, j);
    }
}

proof fn lemma_rises_between(s: Seq<u64>, i: int, j: int)
    requires
        all_finite(s),
        well_spaced(s),
        0 <= i < j < s.len(),
    ensures
        value(s[i]) < value(s[j]),
    decreases j - i,
{
    assert(spaced_at(s, j - 1));
    lemma_gap_implies_order(s[j - 1], s[j]);
    if i < j - 1 {
        lemma_rises_between(s, i, j - 1);
    }
}

/// Tells whether `b - a` is greater than the tolerance.
#[verifier::when_used_as_spec(gap_exceeds_epsilon_spec)]
pub fn gap_exceeds_epsilon(a: u64, b: u64) -> (r: bool)
    ensures
        r == gap_exceeds_epsilon_spec(a, b),
{
    gt(crate::binary64::arith::sub(b, a), EPSILON)
}

/// Tells whether some entry is a NaN or an infinity.
pub fn contains_nan_or_infinity(values: &[u64]) -> (r: bool)
    ensures
        r == !all_finite(values@),
{
    let mut i: usize = 0;
    while i < values.len()
        invariant
            i <= values.len(),
            forall|j: int| 0 <= j < i ==> is_finite_spec(#[trigger] values@[j]),
        decreases values.len() - i,
    {
        if !is_finite(values[i]) {
            return true;
        }
        i = i + 1;
    }
    false
}

/// Tells whether each entry lies more than the tolerance above the one before.
pub fn is_well_spaced(values: &[u64]) -> (r: bool)
    ensures
        r == well_spaced(values@),
{
    if values.len() < 2 {
        return true;
    }
    let mut i: usize = 0;
    while i < values.len() - 1
        invariant
            values.len() >= 2,
            i <= values.len() - 1,
            forall|j: int| 0 <= j < i ==> #[trigger] spaced_at(values@, j),
        decreases values.len() - i,
    {
        if !gap_exceeds_epsilon(values[i], values[i + 1]) {
            assert(!spaced_at(values@, i as int));
            return false;
        }
        i = i + 1;
    }
    true
}

/// Searches strictly increasing breakpoints for a query by bisection. `Ok`
/// holds the position of the breakpoint that equals the query; `Err` holds the
/// position at which the query would have to be inserted.
pub fn search(values: &[u64], q: u64) -> (r: Result<usize, usize>)
    requires
        all_finite(values@),
        ascending(values@),
        !is_nan_spec(q),
    ensures
        match r {
            Ok(i) => matches_at(q, values@, i as int),
            Err(i) => {
                &&& i <= values.len()
                &&& forall|j: int| 0 <= j < i ==> lt_spec(#[trigger] values@[j], q)
                &&& forall|j: int| i <= j < values.len() ==> lt_spec(q, #[trigger] values@[j])
            },
        },
{
    let mut lo: usize = 0;
    let mut hi: usize = values.len();
    while lo < hi
        invariant
            lo <= hi <= values.len(),
            all_finite(values@),
            ascending(values@),
            !is_nan_spec(q),
            forall|j: int| 0 <= j < lo ==> lt_spec(#[trigger] values@[j], q),
            forall|j: int| hi <= j < values.len() ==> lt_spec(q, #[trigger] values@[j]),
        decreases hi - lo,
    {
        let mid: usize = lo + (hi - lo) / 2;
        let v: u64 = values[mid];
        if lt(v, q) {
            assert forall|j: int| 0 <= j < mid + 1 implies lt_spec(#[trigger] values@[j], q) by {
                assert(value(values@[j]) <= value(values@[mid as int]));
            }
            lo = mid + 1;
        } else if lt(q, v) {
            assert forall|j: int| mid <= j < values.len() implies lt_spec(q, #[trigger] values@[j]) by {
                assert(value(values@[mid as int]) <= value(values@[j]));
            }
            hi = mid;
        } else {
            return Ok(mid);
        }
    }
    Err(lo)
}

/// Finds the pair of positions between which a query is interpolated.
pub fn get_indices(v: u64, vs: &[u64]) -> (r: (usize, usize))
    requires
        valid_axis(vs@),
        !is_nan_spec(v),
    ensures
        (r.0 as int, r.1 as int) == indices_spec(v, vs@),
        r.0 <= r.1 < vs.len(),
        r.1 - r.0 <= 1,
{
    proof {
        lemma_well_spaced_ascending(vs@);
    }
    let last: usize = vs.len() - 1;
    if lt(v, vs[0]) {
        (0, 0)
    } else if gt(v, vs[last]) {
        (last, last)
    } else {
        match search(vs, v) {
            Ok(i) => {
                proof {
                    lemma_match_is_unique(v, vs@, i as int);
                }
                (i, i)
            },
            Err(i) => {
                proof {
                    lemma_straddle_is_unique(v, vs@, i as int);
                }
                (i - 1, i)
            },
        }
    }
}

/// A query that is a breakpoint is interpolated at that breakpoint alone.
pub proof fn lemma_indices_on_breakpoint(s: Seq<u64>, i: int)
    requires
        valid_axis(s),
        0 <= i < s.len(),
    ensures
        indices_spec(s[i], s) == (i, i),
{
    lemma_well_spaced_ascending(s);
    assert(matches_at(s[i], s, i));
    lemma_match_is_unique(s[i], s, i);
}

/// A query below the first breakpoint is interpolated at the first alone, and a
/// query above the last breakpoint at the last alone.
pub proof fn lemma_indices_outside(q: u64, s: Seq<u64>)
    requires
        valid_axis(s),
    ensures
        lt_spec(q, s[0]) ==> indices_spec(q, s) == (0int, 0int),
        gt_spec(q, s[s.len() - 1]) ==> indices_spec(q, s) == (s.len() - 1, s.len() - 1),
{
    lemma_well_spaced_ascending(s);
    assert(value(s[0]) < value(s[s.len() - 1]));
}

/// A query strictly between two neighbouring breakpoints is interpolated
/// between those two.
pub proof fn lemma_indices_between(q: u64, s: Seq<u64>, i: int)
    requires
        valid_axis(s),
        0 <= i < s.len() - 1,
        lt_spec(s[i], q),
        lt_spec(q, s[i + 1]),
    ensures
        indices_spec(q, s) == (i, i + 1),
{
    lemma_well_spaced_ascending(s);
    assert forall|j: int| 0 <= j < i + 1 implies lt_spec(#[trigger] s[j], q) by {
        assert(value(s[j]) <= value(s[i]));
    }
    assert forall|j: int| i + 1 <= j < s.len() implies lt_spec(q, #[trigger] s[j]) by {
        assert(value(s[i + 1]) <= value(s[j]));
    }
    lemma_straddle_is_unique(q, s, i + 1);
}

/// Between two samples whose values rise, the interpolated value is a NaN or
/// lies from the lower value to the sum of the lower value and the difference
/// of the two; and it is no NaN where neither the difference of the breakpoints
/// nor that of the values overflows. Rounding may carry the result onto the
/// lower value, or past the upper value up to that sum, which lies next to it.
pub proof fn lemma_lerp_within_step(q: u64, x0: u64, x1: u64, y0: u64, y1: u64)
    requires
        is_finite_spec(x0),
        is_finite_spec(x1),
        is_finite_spec(y0),
        is_finite_spec(y1),
        lt_spec(x0, q),
        lt_spec(q, x1),
        lt_spec(y0, y1),
    ensures
        is_nan_spec(lerp_spec(q, x0, x1, y0, y1)) || value(y0) <= value(
            lerp_spec(q, x0, x1, y0, y1),
        ) <= value(add_spec(y0, sub_spec(y1, y0))),
        is_finite_spec(sub_spec(x1, x0)) && is_finite_spec(sub_spec(y1, y0)) ==> !is_nan_spec(
            lerp_spec(q, x0, x1, y0, y1),
        ),
{
    // The query lies between two numbers, so it is a number.
    crate::binary64::format::lemma_magnitude_injective(q, x0);
    crate::binary64::format::lemma_magnitude_injective(q, x1);
    assert(is_finite_spec(q));
    let n: u64 = sub_spec(q, x0);
    let d: u64 = sub_spec(x1, x0);
    let t: u64 = sub_spec(y1, y0);
    crate::binary64::monotone::lemma_difference_is_positive(q, x0);
    crate::binary64::monotone::lemma_difference_is_positive(x1, x0);
    crate::binary64::monotone::lemma_difference_is_positive(y1, y0);
    crate::binary64::rounding::lemma_nearest_monotone(
        (value(q) - value(x0)) as nat,
        1,
        (value(x1) - value(x0)) as nat,
        1,
    );
    crate::binary64::monotone::lemma_share_is_at_most_one(n, d);
    let alpha: u64 = div_spec(n, d);
    if !is_nan_spec(alpha) {
        crate::binary64::monotone::lemma_share_of_a_number(alpha, t);
        let u: u64 = mul_spec(alpha, t);
        if !is_nan_spec(u) {
            crate::binary64::monotone::lemma_sum_within_step(y0, u, t);
        }
    }
}

/// On a valid axis a query equals one breakpoint at most.
pub proof fn lemma_match_is_unique(q: u64, s: Seq<u64>, i: int)
    requires
        ascending(s),
        matches_at(q, s, i),
    ensures
        (choose|k: int| matches_at(q, s, k)) == i,
        !lt_spec(q, s[0]),
        !gt_spec(q, s[s.len() - 1]),
{
    let k: int = choose|k: int| matches_at(q, s, k);
    assert(matches_at(q, s, k));
    if k < i {
        assert(value(s[k]) < value(s[i]));
    } else if i < k {
        assert(value(s[i]) < value(s[k]));
    }
    if 0 < i {
        assert(value(s[0]) < value(s[i]));
    }
    if i < s.len() - 1 {
        assert(value(s[i]) < value(s[s.len() - 1]));
    }
}

/// A query that no breakpoint equals, and that lies within the axis, lies
/// between the two breakpoints at the position where it would be inserted.
pub proof fn lemma_straddle_is_unique(q: u64, s: Seq<u64>, i: int)
    requires
        s.len() >= 2,
        all_finite(s),
        ascending(s),
        !is_nan_spec(q),
        !lt_spec(q, s[0]),
        !gt_spec(q, s[s.len() - 1]),
        0 <= i <= s.len(),
        forall|j: int| 0 <= j < i ==> lt_spec(#[trigger] s[j], q),
        forall|j: int| i <= j < s.len() ==> lt_spec(q, #[trigger] s[j]),
    ensures
        0 < i < s.len(),
        straddled_at(q, s, i),
        !exists|k: int| matches_at(q, s, k),
        (choose|k: int| straddled_at(q, s, k)) == i,
{
    if i == 0 {
        assert(lt_spec(q, s[0]));
    }
    if i == s.len() {
        assert(lt_spec(s[s.len() - 1], q));
    }
    assert(lt_spec(s[i - 1], q));
    assert(lt_spec(q, s[i]));
    assert forall|k: int| !matches_at(q, s, k) by {
        if 0 <= k < s.len() {
            if k < i {
                assert(lt_spec(s[k], q));
            } else {
                assert(lt_spec(q, s[k]));
            }
        }
    }
    assert(straddled_at(q, s, i));
    let c: int = choose|k: int| straddled_at(q, s, k);
    assert(straddled_at(q, s, c));
    if c < i {
        assert(lt_spec(s[c], q));
    } else if c > i {
        assert(lt_spec(q, s[c - 1]));
    }
}

} // verus!
