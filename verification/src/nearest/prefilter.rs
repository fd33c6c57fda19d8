//! Searches that rank a shortlist: the closest entries by a cheap metric,
//! compared again by the dear one.

use vstd::prelude::*;

verus! {

use crate::distance::{Distance, INFINITY_BITS, Metric, answers, measured};
use crate::nearest::scan::is_nearest_seeded;

/// Length of the shortlist.
pub const PREFILTER_K: usize = 96;

/// Where `d` goes among the first `j` entries: behind the last one that is
/// not above it.
pub open spec fn spot(top: Seq<(Distance, usize)>, d: Distance, j: int) -> int
    decreases j,
{
    if j > 0 && d.below(top[j - 1].0) {
        spot(top, d, j - 1)
    } else {
        j
    }
}

/// The shortlist after entry `i` at distance `d`: unchanged where `d` is not
/// below the last distance, else with the entry in its place and the last
/// one gone.
pub open spec fn admitted(top: Seq<(Distance, usize)>, d: Distance, i: usize) -> Seq<
    (Distance, usize),
> {
    let last = top.len() - 1;
    if d.at_least(top[last].0) {
        top
    } else {
        let p = spot(top, d, last);
        top.take(p).push((d, i)) + top.subrange(p, last)
    }
}

/// The shortlist of the first `n` entries.
pub open spec fn shortlist(ds: Seq<Distance>, n: int) -> Seq<(Distance, usize)>
    decreases n,
{
    if n <= 0 {
        Seq::new(PREFILTER_K as nat, |k: int| (Distance { bits: INFINITY_BITS }, 0usize))
    } else {
        admitted(shortlist(ds, n - 1), ds[n - 1], (n - 1) as usize)
    }
}

/// Where `d` goes.
pub proof fn lemma_spot(top: Seq<(Distance, usize)>, d: Distance, j: int)
    requires
        0 <= j,
    ensures
        0 <= spot(top, d, j) <= j,
        spot(top, d, j) == 0 || !d.below(top[spot(top, d, j) - 1].0),
        forall|k: int| spot(top, d, j) <= k < j ==> d.below((#[trigger] top[k]).0),
    decreases j,
{
    if j > 0 && d.below(top[j - 1].0) {
        lemma_spot(top, d, j - 1);
    }
}

/// The shortlist always has its full length and names palette entries only.
pub proof fn lemma_shortlist_shape(ds: Seq<Distance>, n: int)
    requires
        0 <= n <= ds.len(),
        0 < ds.len() <= usize::MAX,
    ensures
        shortlist(ds, n).len() == PREFILTER_K,
        forall|k: int| 0 <= k < PREFILTER_K ==> (#[trigger] shortlist(ds, n)[k]).1 < ds.len(),
    decreases n,
{
    if n > 0 {
        lemma_shortlist_shape(ds, n - 1);
        let top = shortlist(ds, n - 1);
        lemma_spot(top, ds[n - 1], PREFILTER_K - 1);
    }
}

/// Adds entry `i` at distance `d` to the shortlist where it belongs.
fn shortlist_entry(top: &mut Vec<(Distance, usize)>, d: Distance, i: usize)
    requires
        old(top)@.len() == PREFILTER_K,
    ensures
        final(top)@ == admitted(old(top)@, d, i),
        final(top)@.len() == PREFILTER_K,
{
    let ghost given = top@;
    if d.not_less_than(top[PREFILTER_K - 1].0) {
        return;
    }
    let mut j: usize = PREFILTER_K - 1;
    while j > 0 && d.less_than(top[j - 1].0)
        invariant
            j <= PREFILTER_K - 1,
            top@.len() == given.len() == PREFILTER_K,
            forall|k: int| 0 <= k <= j ==> #[trigger] top@[k] == given[k],
            forall|k: int| j < k < PREFILTER_K ==> #[trigger] top@[k] == given[k - 1],
            spot(given, d, PREFILTER_K - 1) == spot(given, d, j as int),
        decreases j,
    {
        let moved: (Distance, usize) = top[j - 1];
        top.set(j, moved);
        j -= 1;
    }
    top.set(j, (d, i));
    proof {
        assert(j == spot(given, d, PREFILTER_K - 1));
        assert(top@ =~= admitted(given, d, i));
    }
}

/// Whether `ds` is what `dist` answered for the entries of the shortlist.
pub open spec fn measured_top<D: Fn(Metric, [u8; 3], usize) -> Distance>(
    dist: D,
    metric: Metric,
    rgb: [u8; 3],
    top: Seq<(Distance, usize)>,
    ds: Seq<Distance>,
) -> bool {
    &&& ds.len() == top.len()
    &&& forall|k: int|
        0 <= k < ds.len() ==> call_ensures(dist, (metric, rgb, top[k].1), #[trigger] ds[k])
}

/// Whether `best` is what ranking the shortlist settles on.
pub open spec fn wins_shortlist<D: Fn(Metric, [u8; 3], usize) -> Distance>(
    dist: D,
    n: nat,
    rgb: [u8; 3],
    best: usize,
) -> bool {
    exists|cheap: Seq<Distance>, dear: Seq<Distance>, k: int|
        {
            &&& cheap.len() == n
            &&& measured(dist, Metric::DeltaE76, rgb, cheap)
            &&& measured_top(dist, Metric::Ciede2000, rgb, shortlist(cheap, n as int), dear)
            &&& #[trigger] is_nearest_seeded(dear, k)
            &&& 0 <= k < PREFILTER_K
            &&& #[trigger] shortlist(cheap, n as int)[k].1 == best
        }
}

/// The nearest of the [`PREFILTER_K`] entries closest by Delta E 76, by
/// CIEDE2000.
pub fn nearest_idx_prefiltered<D: Fn(Metric, [u8; 3], usize) -> Distance>(
    rgb: [u8; 3],
    n: usize,
    dist: &D,
) -> (best: usize)
    requires
        n > 0,
        answers(*dist, n as nat),
    ensures
        best < n,
        wins_shortlist(*dist, n as nat, rgb, best),
{
    let mut top: Vec<(Distance, usize)> = Vec::new();
    let mut f: usize = 0;
    while f < PREFILTER_K
        invariant
            f <= PREFILTER_K,
            top@.len() == f,
            forall|k: int|
                0 <= k < f ==> #[trigger] top@[k] == (Distance { bits: INFINITY_BITS }, 0usize),
        decreases PREFILTER_K - f,
    {
        top.push((Distance::infinity(), 0));
        f += 1;
    }
    let ghost mut cheap: Seq<Distance> = Seq::empty();
    assert(top@ =~= shortlist(cheap, 0));
    let mut i: usize = 0;
    while i < n
        invariant
            i <= n,
            answers(*dist, n as nat),
            cheap.len() == i,
            measured(*dist, Metric::DeltaE76, rgb, cheap),
            top@ == shortlist(cheap, i as int),
            top@.len() == PREFILTER_K,
        decreases n - i,
    {
        let d: Distance = dist(Metric::DeltaE76, rgb, i);
        let ghost before = cheap;
        proof {
            cheap = cheap.push(d);
            lemma_shortlist_prefix(before, cheap, i as int);
            assert(cheap[i as int] == d);
        }
        shortlist_entry(&mut top, d, i);
        i += 1;
    }
    proof {
        lemma_shortlist_shape(cheap, n as int);
    }
    assert(top@[0].1 < n);
    let mut best_d: Distance = dist(Metric::Ciede2000, rgb, top[0].1);
    let ghost mut dear: Seq<Distance> = seq![best_d];
    let mut at: usize = 0;
    let mut k: usize = 1;
    while k < PREFILTER_K
        invariant
            1 <= k <= PREFILTER_K,
            at < k,
            answers(*dist, n as nat),
            top@.len() == PREFILTER_K,
            forall|j: int| 0 <= j < PREFILTER_K ==> (#[trigger] top@[j]).1 < n,
            dear.len() == k,
            forall|j: int|
                0 <= j < k ==> call_ensures(
                    *dist,
                    (Metric::Ciede2000, rgb, top@[j].1),
                    #[trigger] dear[j],
                ),
            best_d == dear[at as int],
            is_nearest_seeded(dear, at as int),
        decreases PREFILTER_K - k,
    {
        assert(top@[k as int].1 < n);
        let d: Distance = dist(Metric::Ciede2000, rgb, top[k].1);
        let ghost before = dear;
        proof {
            dear = dear.push(d);
            assert(forall|j: int| 0 <= j < before.len() ==> dear[j] == before[j]);
        }
        if d.less_than(best_d) {
            best_d = d;
            at = k;
        }
        k += 1;
    }
    proof {
        assert(measured_top(*dist, Metric::Ciede2000, rgb, shortlist(cheap, n as int), dear));
        assert(shortlist(cheap, n as int)[at as int].1 == top@[at as int].1);
        assert(is_nearest_seeded(dear, at as int));
    }
    top[at].1
}

proof fn lemma_shortlist_prefix(one: Seq<Distance>, other: Seq<Distance>, n: int)
    requires
        0 <= n <= one.len(),
        n <= other.len(),
        forall|i: int| 0 <= i < n ==> #[trigger] one[i] == other[i],
    ensures
        shortlist(one, n) == shortlist(other, n),
    decreases n,
{
    if n > 0 {
        lemma_shortlist_prefix(one, other, n - 1);
        assert(one[n - 1] == other[n - 1]);
    }
}

/// Whether entry `i` is on the shortlist.
pub open spec fn listed(top: Seq<(Distance, usize)>, i: int) -> bool {
    exists|k: int| 0 <= k < top.len() && (#[trigger] top[k]).1 == i
}

/// Whether entry `i` is on the shortlist with its own distance.
pub open spec fn held(top: Seq<(Distance, usize)>, ds: Seq<Distance>, i: int) -> bool {
    exists|k: int| 0 <= k < top.len() && #[trigger] top[k] == (ds[i], i as usize)
}

/// Where every distance is a number, the shortlist is in ascending order and
/// an entry left out is no closer than any listed one.
pub proof fn law_shortlist_holds_the_closest(ds: Seq<Distance>, n: int)
    requires
        0 <= n <= ds.len(),
        0 < ds.len() <= usize::MAX,
        forall|i: int| 0 <= i < ds.len() ==> !(#[trigger] ds[i]).nan(),
    ensures
        forall|j: int, k: int|
            0 <= j <= k < PREFILTER_K ==> (#[trigger] shortlist(ds, n)[k]).0.at_least(
                (#[trigger] shortlist(ds, n)[j]).0,
            ),
        forall|i: int|
            0 <= i < n ==> held(shortlist(ds, n), ds, i) || (#[trigger] ds[i]).at_least(
                shortlist(ds, n)[PREFILTER_K - 1].0,
            ),
    decreases n,
{
    lemma_shortlist_shape(ds, n);
    if n > 0 {
        law_shortlist_holds_the_closest(ds, n - 1);
        lemma_shortlist_shape(ds, n - 1);
        let top = shortlist(ds, n - 1);
        let next = shortlist(ds, n);
        let d = ds[n - 1];
        let last = PREFILTER_K - 1;
        let p = spot(top, d, last);
        lemma_spot(top, d, last);
        assert(top[last].0.at_least(top[last].0));
        if !d.at_least(top[last].0) {
            assert forall|j: int, k: int| 0 <= j <= k < PREFILTER_K implies (
            #[trigger] next[k]).0.at_least((#[trigger] next[j]).0) by {
                let a = if j < p { j } else { j - 1 };
                let b = if k < p { k } else { k - 1 };
                if j != p && k != p {
                    assert(next[j] == top[a] && next[k] == top[b]);
                    assert(top[b].0.at_least(top[a].0));
                } else if j == p && k != p {
                    assert(next[k] == top[b]);
                    assert(d.below(top[b].0));
                } else if k == p && j != p {
                    assert(next[j] == top[a]);
                    assert(top[p - 1].0.at_least(top[a].0));
                }
            }
            assert(next[last].0 == d || next[last] == top[last - 1]);
            assert(top[last].0.at_least(top[last - 1].0));
            assert forall|i: int| 0 <= i < n implies held(next, ds, i) || (
            #[trigger] ds[i]).at_least(next[last].0) by {
                if i == n - 1 {
                    assert(next[p] == (ds[i], i as usize));
                } else if held(top, ds, i) {
                    let k = choose|k: int|
                        0 <= k < top.len() && #[trigger] top[k] == (ds[i], i as usize);
                    if k < p {
                        assert(next[k] == top[k]);
                    } else if k < last {
                        assert(next[k + 1] == top[k]);
                    }
                } else {
                    assert(ds[i].at_least(top[last].0));
                }
            }
        } else {
            assert forall|i: int| 0 <= i < n implies held(next, ds, i) || (
            #[trigger] ds[i]).at_least(next[last].0) by {
            }
        }
    }
}

/// Ranking the shortlist settles on the entry that a full search settles on
/// whenever that entry is listed and strictly closer than every other listed
/// one (and the first listed distance is a number).
pub proof fn law_prefilter_is_exact_when_listed(
    dear: Seq<Distance>,
    top: Seq<(Distance, usize)>,
    w: int,
    k: int,
)
    requires
        top.len() > 0,
        forall|j: int| 0 <= j < top.len() ==> (#[trigger] top[j]).1 < dear.len(),
        0 <= w < dear.len(),
        listed(top, w),
        forall|j: int|
            0 <= j < top.len() && (#[trigger] top[j]).1 != w ==> !dear[top[j].1 as int].nan()
                ==> dear[w].below(dear[top[j].1 as int]),
        !dear[w].nan(),
        !dear[top[0].1 as int].nan(),
        0 <= k < top.len(),
        is_nearest_seeded(Seq::new(top.len(), |j: int| dear[top[j].1 as int]), k),
    ensures
        top[k].1 == w,
{
    let cs = Seq::new(top.len(), |j: int| dear[top[j].1 as int]);
    let at = choose|at: int| 0 <= at < top.len() && (#[trigger] top[at]).1 == w;
    assert(!cs[0].nan());
    assert(!cs[at].below(cs[k]));
    if top[k].1 != w {
        assert(dear[w].below(dear[top[k].1 as int]));
    }
}

} // verus!
