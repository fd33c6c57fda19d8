//! Finite sums over integer ranges and over sequences, with the few facts
//! about them that box counting needs.

use vstd::prelude::*;

verus! {

/// `f(lo) + f(lo + 1) + .. + f(hi)`, both ends included; zero for an empty
/// range.
pub open spec fn range_sum(f: spec_fn(int) -> nat, lo: int, hi: int) -> nat
    decreases hi - lo + 1,
{
    if hi < lo {
        0
    } else {
        range_sum(f, lo, hi - 1) + f(hi)
    }
}

/// The sum of all elements of `s`.
pub open spec fn seq_sum(s: Seq<u32>) -> nat
    decreases s.len(),
{
    if s.len() == 0 {
        0
    } else {
        seq_sum(s.drop_last()) + s.last() as nat
    }
}

/// `n`, held at the largest `u32`.
pub open spec fn clamp32(n: nat) -> u32 {
    if n <= u32::MAX {
        n as u32
    } else {
        u32::MAX
    }
}

/// Functions that agree on a range have the same sum over it.
pub proof fn lemma_range_sum_same(f: spec_fn(int) -> nat, g: spec_fn(int) -> nat, lo: int, hi: int)
    requires
        forall|i: int| lo <= i <= hi ==> #[trigger] f(i) == g(i),
    ensures
        range_sum(f, lo, hi) == range_sum(g, lo, hi),
    decreases hi - lo + 1,
{
    if lo <= hi {
        lemma_range_sum_same(f, g, lo, hi - 1);
        assert(f(hi) == g(hi));
    }
}

/// A range cut in two has the sum of its two parts.
pub proof fn lemma_range_sum_split(f: spec_fn(int) -> nat, lo: int, mid: int, hi: int)
    requires
        lo <= mid + 1,
        mid <= hi,
    ensures
        range_sum(f, lo, hi) == range_sum(f, lo, mid) + range_sum(f, mid + 1, hi),
    decreases hi - mid,
{
    if mid < hi {
        lemma_range_sum_split(f, lo, mid, hi - 1);
    }
}

/// The sum of a pointwise sum is the sum of the sums.
pub proof fn lemma_range_sum_plus(
    f: spec_fn(int) -> nat,
    g: spec_fn(int) -> nat,
    both: spec_fn(int) -> nat,
    lo: int,
    hi: int,
)
    requires
        forall|i: int| lo <= i <= hi ==> #[trigger] both(i) == f(i) + g(i),
    ensures
        range_sum(both, lo, hi) == range_sum(f, lo, hi) + range_sum(g, lo, hi),
    decreases hi - lo + 1,
{
    if lo <= hi {
        lemma_range_sum_plus(f, g, both, lo, hi - 1);
        assert(both(hi) == f(hi) + g(hi));
    }
}

/// A pointwise bound carries over to the sums.
pub proof fn lemma_range_sum_bound(f: spec_fn(int) -> nat, g: spec_fn(int) -> nat, lo: int, hi: int)
    requires
        forall|i: int| lo <= i <= hi ==> #[trigger] f(i) <= g(i),
    ensures
        range_sum(f, lo, hi) <= range_sum(g, lo, hi),
    decreases hi - lo + 1,
{
    if lo <= hi {
        lemma_range_sum_bound(f, g, lo, hi - 1);
        assert(f(hi) <= g(hi));
    }
}

/// A constant bound on every term bounds the sum.
pub proof fn lemma_range_sum_limit(f: spec_fn(int) -> nat, limit: nat, lo: int, hi: int)
    requires
        lo <= hi + 1,
        forall|i: int| lo <= i <= hi ==> #[trigger] f(i) <= limit,
    ensures
        range_sum(f, lo, hi) <= (hi - lo + 1) * limit,
    decreases hi - lo + 1,
{
    if lo <= hi {
        lemma_range_sum_limit(f, limit, lo, hi - 1);
        assert(f(hi) <= limit);
        assert((hi - lo + 1) * limit == (hi - lo) * limit + limit) by (nonlinear_arith);
    }
}

/// No single term exceeds the sum.
pub proof fn lemma_range_sum_term(f: spec_fn(int) -> nat, lo: int, hi: int, i: int)
    requires
        lo <= i <= hi,
    ensures
        f(i) <= range_sum(f, lo, hi),
    decreases hi - lo + 1,
{
    if i < hi {
        lemma_range_sum_term(f, lo, hi - 1, i);
    }
}

/// A sum of zeros is zero.
pub proof fn lemma_range_sum_zero(f: spec_fn(int) -> nat, lo: int, hi: int)
    requires
        forall|i: int| lo <= i <= hi ==> #[trigger] f(i) == 0,
    ensures
        range_sum(f, lo, hi) == 0,
    decreases hi - lo + 1,
{
    if lo <= hi {
        lemma_range_sum_zero(f, lo, hi - 1);
        assert(f(hi) == 0);
    }
}

/// A constant factor can be drawn out of a sum.
pub proof fn lemma_range_sum_scaled(
    f: spec_fn(int) -> nat,
    k: nat,
    scaled: spec_fn(int) -> nat,
    lo: int,
    hi: int,
)
    requires
        forall|i: int| lo <= i <= hi ==> #[trigger] scaled(i) == k * f(i),
    ensures
        range_sum(scaled, lo, hi) == k * range_sum(f, lo, hi),
    decreases hi - lo + 1,
{
    if lo <= hi {
        lemma_range_sum_scaled(f, k, scaled, lo, hi - 1);
        assert(scaled(hi) == k * f(hi));
        assert(k * (range_sum(f, lo, hi - 1) + f(hi)) == k * range_sum(f, lo, hi - 1) + k * f(hi))
            by (nonlinear_arith);
    } else {
        assert(k * 0 == 0) by (nonlinear_arith);
    }
}

/// The sum of a prefix extended by one element.
pub proof fn lemma_seq_sum_take(s: Seq<u32>, i: int)
    requires
        0 <= i < s.len(),
    ensures
        seq_sum(s.take(i + 1)) == seq_sum(s.take(i)) + s[i] as nat,
{
    assert(s.take(i + 1).drop_last() =~= s.take(i));
}

/// The elements of `s` between `lo` and `hi`, both included, add up to the
/// range sum of their indices.
pub proof fn lemma_seq_sum_range(s: Seq<u32>, f: spec_fn(int) -> nat, base: int, lo: int, hi: int)
    requires
        0 <= base + lo,
        base + hi < s.len(),
        lo <= hi + 1,
        forall|i: int| lo <= i <= hi ==> #[trigger] f(i) == s[base + i] as nat,
    ensures
        seq_sum(s.subrange(base + lo, base + hi + 1)) == range_sum(f, lo, hi),
    decreases hi - lo + 1,
{
    if lo <= hi {
        lemma_seq_sum_range(s, f, base, lo, hi - 1);
        let t = s.subrange(base + lo, base + hi + 1);
        assert(t.drop_last() =~= s.subrange(base + lo, base + (hi - 1) + 1));
        assert(f(hi) == s[base + hi] as nat);
    }
}

} // verus!
