//! Exact fixed-point arithmetic for frecency scores.
//!
//! A score is an integer count of units of `1/SCALE`. The size penalty of a
//! blob of `size` bytes is `32 * SCALE / (32 + isqrt(size))`, the scaled,
//! floored value of `1 / (1 + sqrt(size / 1024))`. A commit aged `age` whole
//! days contributes `penalty / (age + 1)^2`, the penalty times the scaled,
//! floored inverse-square decay weight. Accumulation saturates at `u64::MAX`,
//! which keeps addition associative and commutative.

use vstd::prelude::*;
use vstd::arithmetic::div_mod::{
    lemma_div_is_ordered, lemma_div_is_ordered_by_denominator, lemma_div_non_zero,
};

verus! {

/// One point of score is `1/SCALE`; a penalty of `SCALE` means 1.0.
pub const SCALE: u64 = 1_000_000_000;

/// Largest value `age_days` can return: `(2^64 - 1) / 86400`, rounded down.
pub const AGE_MAX: u64 = 213_503_982_334_601;

/// Saturating addition on the score range.
pub open spec fn sat_add_spec(a: int, b: int) -> int {
    if a + b > u64::MAX { u64::MAX as int } else { a + b }
}

pub fn sat_add(a: u64, b: u64) -> (r: u64)
    ensures
        r == sat_add_spec(a as int, b as int),
{
    if a <= u64::MAX - b {
        a + b
    } else {
        u64::MAX
    }
}

/// Score addition is commutative: the order in which partial maps are merged
/// cannot change a total.
pub proof fn lemma_sat_add_comm(a: int, b: int)
    ensures
        sat_add_spec(a, b) == sat_add_spec(b, a),
{
}

/// Score addition is associative: the grouping of contributions into workers
/// and merges cannot change a total.
pub proof fn lemma_sat_add_assoc(a: int, b: int, c: int)
    requires
        0 <= a,
        0 <= b,
        0 <= c,
    ensures
        sat_add_spec(sat_add_spec(a, b), c) == sat_add_spec(a, sat_add_spec(b, c)),
{
}

/// The integer square root: the largest `r` with `r * r <= n`.
pub open spec fn sqrt_floor(n: nat) -> nat
    decreases n,
{
    if n == 0 {
        0
    } else {
        let s = sqrt_floor((n - 1) as nat);
        if (s + 1) * (s + 1) <= n {
            (s + 1) as nat
        } else {
            s
        }
    }
}

pub proof fn lemma_sqrt_floor_bounds(n: nat)
    ensures
        sqrt_floor(n) * sqrt_floor(n) <= n,
        n < (sqrt_floor(n) + 1) * (sqrt_floor(n) + 1),
    decreases n,
{
    if n == 0 {
        assert(sqrt_floor(0) == 0);
        assert((0 + 1) * (0 + 1) == 1) by (nonlinear_arith);
    } else {
        lemma_sqrt_floor_bounds((n - 1) as nat);
        let s = sqrt_floor((n - 1) as nat);
        assert(s * s <= n - 1);
        assert(n - 1 < (s + 1) * (s + 1));
        if (s + 1) * (s + 1) <= n {
            assert(sqrt_floor(n) == s + 1);
            assert((s + 1) * (s + 1) < (s + 1 + 1) * (s + 1 + 1)) by (nonlinear_arith)
                requires
                    0 <= s,
            ;
            assert(n < (s + 1 + 1) * (s + 1 + 1));
        } else {
            assert(sqrt_floor(n) == s);
            assert(s * s <= n);
            assert(n < (s + 1) * (s + 1));
        }
    }
}

pub proof fn lemma_sqrt_floor_unique(n: nat, r: nat)
    requires
        r * r <= n,
        n < (r + 1) * (r + 1),
    ensures
        r == sqrt_floor(n),
{
    let s = sqrt_floor(n);
    lemma_sqrt_floor_bounds(n);
    if r < s {
        assert((r + 1) * (r + 1) <= s * s) by (nonlinear_arith)
            requires
                0 <= r,
                r + 1 <= s,
        ;
    }
    if s < r {
        assert((s + 1) * (s + 1) <= r * r) by (nonlinear_arith)
            requires
                0 <= s,
                s + 1 <= r,
        ;
    }
}

/// Binary search for the integer square root of a 64-bit value.
pub fn isqrt(n: u64) -> (r: u64)
    ensures
        r == sqrt_floor(n as nat),
        r < 0x1_0000_0000,
{
    let mut lo: u64 = 0;
    let mut hi: u64 = 0x1_0000_0000;
    while lo + 1 < hi
        invariant
            lo < hi,
            hi <= 0x1_0000_0000,
            (lo as int) * (lo as int) <= n as int,
            (n as int) < (hi as int) * (hi as int),
        decreases hi - lo,
    {
        let mid = lo + (hi - lo) / 2;
        proof {
            assert((mid as int) * (mid as int) <= 0x1_0000_0000 * 0x1_0000_0000) by (nonlinear_arith)
                requires
                    0 <= mid as int <= 0x1_0000_0000,
            ;
        }
        let sq: u128 = (mid as u128) * (mid as u128);
        if sq <= n as u128 {
            lo = mid;
        } else {
            hi = mid;
        }
    }
    proof {
        lemma_sqrt_floor_unique(n as nat, lo as nat);
    }
    lo
}

/// The size penalty in score units: `32 * SCALE / (32 + sqrt_floor(size))`.
///
/// Mathematically `1 / (1 + sqrt(size / 1024))` scaled by `SCALE`, since
/// `sqrt(size / 1024) == sqrt(size) / 32`.
pub open spec fn penalty_spec(size: nat) -> int {
    32 * (SCALE as int) / (32 + sqrt_floor(size) as int)
}

pub fn penalty_fp(size_bytes: u64) -> (r: u64)
    ensures
        r == penalty_spec(size_bytes as nat),
        1 <= r <= SCALE,
{
    let s = isqrt(size_bytes);
    let r = (32 * SCALE) / (32 + s);
    proof {
        let num: int = 32 * (SCALE as int);
        let d: int = 32 + s as int;
        lemma_div_non_zero(num, d);
        lemma_div_is_ordered_by_denominator(num, 32, d);
    }
    r
}

/// Whole days between two epoch-second stamps, clamped below at zero.
pub open spec fn age_of(now: int, t: int) -> int {
    if now <= t {
        0
    } else {
        (now - t) / 86400
    }
}

pub fn age_days(now: i64, t: i64) -> (r: u64)
    ensures
        r == age_of(now as int, t as int),
        r <= AGE_MAX,
{
    let diff: i128 = (now as i128) - (t as i128);
    if diff <= 0 {
        0
    } else {
        let d: u64 = diff as u64;
        proof {
            lemma_div_is_ordered(d as int, u64::MAX as int, 86400);
        }
        d / 86400
    }
}

/// One commit's contribution to one path: the cached penalty, decayed by the
/// inverse square of the age in days plus one.
pub open spec fn contrib_spec(penalty: u64, age: int) -> int {
    (penalty as int) / ((age + 1) * (age + 1))
}

pub fn contrib_amount(penalty: u64, age: u64) -> (r: u64)
    requires
        age <= AGE_MAX,
    ensures
        r == contrib_spec(penalty, age as int),
        r <= penalty,
{
    let a1: u128 = (age as u128) + 1;
    proof {
        assert(1 <= (a1 as int) * (a1 as int) <= 0x1_0000_0000_0000_0000_0000_0000) by (nonlinear_arith)
            requires
                0 < a1 as int <= 0x1_0000_0000_0000,
        ;
    }
    let d: u128 = a1 * a1;
    let q: u128 = (penalty as u128) / d;
    proof {
        lemma_div_is_ordered_by_denominator(penalty as int, 1, d as int);
    }
    q as u64
}

/// A same-day commit contributes its full penalty: the decay weight is 1.
pub proof fn lemma_contrib_fresh(penalty: u64)
    ensures
        contrib_spec(penalty, 0) == penalty,
{
    vstd::arithmetic::div_mod::lemma_div_basics(penalty as int);
}

} // verus!
