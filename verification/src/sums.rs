//! Finite sums and maxima over integer ranges, the mathematical model behind
//! every neighbourhood filter of the library.
use vstd::prelude::*;

verus! {

/// First index of the window of radius `r` around `k`, cut at zero.
pub open spec fn window_lo(k: int, r: int) -> int {
    if k >= r {
        k - r
    } else {
        0
    }
}

/// One past the last index of the window of radius `r` around `k`, cut at `n`.
pub open spec fn window_hi(k: int, r: int, n: int) -> int {
    if k + r < n - 1 {
        k + r + 1
    } else {
        n
    }
}

/// `f(lo) + f(lo + 1) + ... + f(hi - 1)`; zero for an empty range.
pub open spec fn range_sum(f: spec_fn(int) -> int, lo: int, hi: int) -> int
    decreases hi - lo,
{
    if hi <= lo {
        0
    } else {
        range_sum(f, lo, hi - 1) + f(hi - 1)
    }
}

/// `i` moved into `0..n` by replicating the nearest end point.
pub open spec fn clamp(i: int, n: int) -> int {
    if i < 0 {
        0
    } else if i >= n {
        n - 1
    } else {
        i
    }
}

/// Sum of `f` over `lo..hi`, where indices outside `0..n` read the nearest end.
pub open spec fn clamped_sum(f: spec_fn(int) -> int, n: int, lo: int, hi: int) -> int {
    range_sum(|i: int| f(clamp(i, n)), lo, hi)
}

/// The largest of `0, f(lo), ..., f(hi - 1)`.
pub open spec fn range_max(f: spec_fn(int) -> int, lo: int, hi: int) -> int
    decreases hi - lo,
{
    if hi <= lo {
        0
    } else {
        let m = range_max(f, lo, hi - 1);
        if f(hi - 1) > m {
            f(hi - 1)
        } else {
            m
        }
    }
}

pub proof fn lemma_range_sum_drop_first(f: spec_fn(int) -> int, lo: int, hi: int)
    requires
        lo < hi,
    ensures
        range_sum(f, lo, hi) == f(lo) + range_sum(f, lo + 1, hi),
    decreases hi - lo,
{
    reveal_with_fuel(range_sum, 2);
    if hi - 1 > lo {
        lemma_range_sum_drop_first(f, lo, hi - 1);
    }
}

/// Two functions that agree on `lo..hi` have the same sum there.
pub proof fn lemma_range_sum_congruent(f: spec_fn(int) -> int, g: spec_fn(int) -> int, lo: int, hi: int)
    requires
        forall|i: int| lo <= i < hi ==> #[trigger] f(i) == g(i),
    ensures
        range_sum(f, lo, hi) == range_sum(g, lo, hi),
    decreases hi - lo,
{
    if hi > lo {
        lemma_range_sum_congruent(f, g, lo, hi - 1);
    }
}

/// A sum of values in `0..=bound` lies in `0..=bound * count`.
pub proof fn lemma_range_sum_bounds(f: spec_fn(int) -> int, lo: int, hi: int, bound: int)
    requires
        lo <= hi,
        0 <= bound,
        forall|i: int| lo <= i < hi ==> 0 <= #[trigger] f(i) <= bound,
    ensures
        0 <= range_sum(f, lo, hi) <= bound * (hi - lo),
    decreases hi - lo,
{
    if hi > lo {
        lemma_range_sum_bounds(f, lo, hi - 1, bound);
        assert(bound * (hi - 1 - lo) + bound == bound * (hi - lo)) by (nonlinear_arith);
    }
}

/// A sum of a constant.
pub proof fn lemma_range_sum_constant(f: spec_fn(int) -> int, lo: int, hi: int, v: int)
    requires
        lo <= hi,
        forall|i: int| lo <= i < hi ==> #[trigger] f(i) == v,
    ensures
        range_sum(f, lo, hi) == v * (hi - lo),
    decreases hi - lo,
{
    if hi > lo {
        assert(f(hi - 1) == v);
        lemma_range_sum_constant(f, lo, hi - 1, v);
        assert(v * (hi - 1 - lo) + v == v * (hi - lo)) by (nonlinear_arith);
    } else {
        assert(v * (hi - lo) == 0) by (nonlinear_arith)
            requires
                hi == lo,
        ;
    }
}

/// The window sum after sliding one step to the right.
pub proof fn lemma_clamped_sum_slide(f: spec_fn(int) -> int, n: int, lo: int, hi: int)
    requires
        lo < hi,
    ensures
        clamped_sum(f, n, lo + 1, hi + 1) == clamped_sum(f, n, lo, hi) + f(clamp(hi, n)) - f(
            clamp(lo, n),
        ),
{
    let g = |i: int| f(clamp(i, n));
    lemma_range_sum_drop_first(g, lo, hi);
    lemma_range_sum_drop_first(g, lo, hi + 1);
}

/// Indices left of zero all read the first element.
pub proof fn lemma_clamped_sum_left_of_zero(f: spec_fn(int) -> int, n: int, r: int)
    requires
        0 <= r,
        0 < n,
    ensures
        clamped_sum(f, n, -r, 0) == r * f(0),
{
    let g = |i: int| f(clamp(i, n));
    assert forall|i: int| -r <= i < 0 implies #[trigger] g(i) == f(0) by {}
    lemma_range_sum_constant(g, -r, 0, f(0));
    assert(f(0) * (0 - -r) == r * f(0)) by (nonlinear_arith);
}

/// A window of values in `0..=255` sums to at most `255` per element, and to at
/// least its first element.
pub proof fn lemma_clamped_sum_bytes(f: spec_fn(int) -> int, n: int, lo: int, hi: int)
    requires
        lo < hi,
        0 < n,
        forall|i: int| 0 <= i < n ==> 0 <= #[trigger] f(i) <= 255,
    ensures
        f(clamp(lo, n)) <= clamped_sum(f, n, lo, hi) <= 255 * (hi - lo),
{
    let g = |i: int| f(clamp(i, n));
    assert forall|i: int| lo <= i < hi implies 0 <= #[trigger] g(i) <= 255 by {
        assert(0 <= clamp(i, n) < n);
    }
    lemma_range_sum_bounds(g, lo, hi, 255);
    lemma_range_sum_drop_first(g, lo, hi);
    lemma_range_sum_bounds(g, lo + 1, hi, 255);
}

/// Functions that agree on `0..n` have the same clamped sums.
pub proof fn lemma_clamped_sum_congruent(
    f: spec_fn(int) -> int,
    g: spec_fn(int) -> int,
    n: int,
    lo: int,
    hi: int,
)
    requires
        0 < n,
        forall|i: int| 0 <= i < n ==> #[trigger] f(i) == g(i),
    ensures
        clamped_sum(f, n, lo, hi) == clamped_sum(g, n, lo, hi),
{
    let ff = |i: int| f(clamp(i, n));
    let gg = |i: int| g(clamp(i, n));
    assert forall|i: int| lo <= i < hi implies #[trigger] ff(i) == gg(i) by {
        assert(0 <= clamp(i, n) < n);
    }
    lemma_range_sum_congruent(ff, gg, lo, hi);
}

pub proof fn lemma_range_max_congruent(f: spec_fn(int) -> int, g: spec_fn(int) -> int, lo: int, hi: int)
    requires
        forall|i: int| lo <= i < hi ==> #[trigger] f(i) == g(i),
    ensures
        range_max(f, lo, hi) == range_max(g, lo, hi),
    decreases hi - lo,
{
    if hi > lo {
        lemma_range_max_congruent(f, g, lo, hi - 1);
    }
}

/// The maximum is at least every element and is itself zero or an element.
pub proof fn lemma_range_max_is_max(f: spec_fn(int) -> int, lo: int, hi: int)
    ensures
        forall|i: int| lo <= i < hi ==> #[trigger] f(i) <= range_max(f, lo, hi),
        range_max(f, lo, hi) == 0 || exists|i: int| lo <= i < hi && #[trigger] f(i) == range_max(f, lo, hi),
        0 <= range_max(f, lo, hi),
    decreases hi - lo,
{
    if hi > lo {
        lemma_range_max_is_max(f, lo, hi - 1);
        if range_max(f, lo, hi - 1) != 0 && range_max(f, lo, hi) == range_max(f, lo, hi - 1) {
            let i = choose|i: int| lo <= i < hi - 1 && #[trigger] f(i) == range_max(f, lo, hi - 1);
            assert(lo <= i < hi && f(i) == range_max(f, lo, hi));
        }
    }
}

/// A pointwise larger function has a larger maximum.
pub proof fn lemma_range_max_monotone(f: spec_fn(int) -> int, g: spec_fn(int) -> int, lo: int, hi: int)
    requires
        forall|i: int| lo <= i < hi ==> #[trigger] f(i) <= g(i),
    ensures
        range_max(f, lo, hi) <= range_max(g, lo, hi),
    decreases hi - lo,
{
    if hi > lo {
        lemma_range_max_monotone(f, g, lo, hi - 1);
    }
}

} // verus!
