//! Rounding a ratio with a square root in it, exactly, in integers.
//!
//! Straight lines on the pixel grid step along `(dx, dy) / √d`, where
//! `d = dx² + dy²`. The pixel a step lands on is `i · dx / √d` rounded to the
//! nearest whole number, halves away from zero. Squaring both sides of
//! `k - ½ ≤ n / √d < k + ½` gives a test on integers alone, which is what
//! [`is_rounding`] states and what [`rounding`] picks.

use vstd::prelude::*;

verus! {

/// `k` is `√t / √d` rounded to the nearest integer, halves upwards (for
/// `t = 4n²` that is `n / √d` rounded).
pub open spec fn is_rounding(k: int, t: int, d: int) -> bool {
    &&& k >= 0
    &&& (k == 0 || (2 * k - 1) * (2 * k - 1) * d <= t)
    &&& t < (2 * k + 1) * (2 * k + 1) * d
}

pub proof fn lemma_odd_square_grows(k: int, d: int)
    requires
        k >= 0,
        d > 0,
    ensures
        (2 * k + 1) * (2 * k + 1) * d < (2 * k + 3) * (2 * k + 3) * d,
{
    assert((2 * k + 1) * (2 * k + 1) * d < (2 * k + 3) * (2 * k + 3) * d) by (nonlinear_arith)
        requires
            k >= 0,
            d > 0,
    ;
}

/// Counts up from `k` to the rounding of `√t / √d`.
pub open spec fn rounding_from(k: int, t: int, d: int) -> int
    decreases (if k >= 0 && d > 0 && (2 * k + 1) * (2 * k + 1) * d <= t {
        t + 1 - (2 * k + 1) * (2 * k + 1) * d
    } else {
        0
    }),
{
    if k >= 0 && d > 0 && (2 * k + 1) * (2 * k + 1) * d <= t {
        proof {
            lemma_odd_square_grows(k, d);
        }
        rounding_from(k + 1, t, d)
    } else {
        k
    }
}

/// `√t / √d` rounded to the nearest integer, halves upwards.
pub open spec fn rounding(t: int, d: int) -> int {
    rounding_from(0, t, d)
}

/// Counting up from any lower bound reaches the rounding.
pub proof fn lemma_rounding_from(k: int, t: int, d: int)
    requires
        k >= 0,
        d > 0,
        k == 0 || (2 * k - 1) * (2 * k - 1) * d <= t,
    ensures
        is_rounding(rounding_from(k, t, d), t, d),
        rounding_from(k, t, d) >= k,
    decreases (if (2 * k + 1) * (2 * k + 1) * d <= t {
        t + 1 - (2 * k + 1) * (2 * k + 1) * d
    } else {
        0
    }),
{
    if (2 * k + 1) * (2 * k + 1) * d <= t {
        lemma_odd_square_grows(k, d);
        assert((2 * (k + 1) - 1) == 2 * k + 1);
        lemma_rounding_from(k + 1, t, d);
    }
}

/// There is only one rounding.
pub proof fn lemma_rounding_unique(k1: int, k2: int, t: int, d: int)
    requires
        d > 0,
        is_rounding(k1, t, d),
        is_rounding(k2, t, d),
    ensures
        k1 == k2,
{
    if k1 < k2 {
        lemma_rounding_monotone_step(k1, k2, d);
    } else if k2 < k1 {
        lemma_rounding_monotone_step(k2, k1, d);
    }
}

pub proof fn lemma_rounding_monotone_step(lo: int, hi: int, d: int)
    requires
        0 <= lo < hi,
        d > 0,
    ensures
        (2 * lo + 1) * (2 * lo + 1) * d <= (2 * hi - 1) * (2 * hi - 1) * d,
{
    assert((2 * lo + 1) * (2 * lo + 1) * d <= (2 * hi - 1) * (2 * hi - 1) * d) by (nonlinear_arith)
        requires
            0 <= lo < hi,
            d > 0,
    ;
}

/// The rounding of the rounding spec function is a rounding.
pub proof fn lemma_rounding(t: int, d: int)
    requires
        d > 0,
    ensures
        is_rounding(rounding(t, d), t, d),
{
    lemma_rounding_from(0, t, d);
}

/// A larger `t` never rounds to less.
pub proof fn lemma_rounding_monotone(k1: int, t1: int, k2: int, t2: int, d: int)
    requires
        d > 0,
        t1 <= t2,
        is_rounding(k1, t1, d),
        is_rounding(k2, t2, d),
    ensures
        k1 <= k2,
{
    if k1 > k2 {
        lemma_rounding_monotone_step(k2, k1, d);
    }
}

} // verus!
