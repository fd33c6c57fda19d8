//! Searches that look at every entry.

use vstd::prelude::*;

verus! {

use crate::distance::{Distance, INFINITY_BITS, Metric, answers, measured};

/// Whether `i` is the entry a full search settles on: the first of the
/// smallest distances below infinity, or the first entry if there is none.
pub open spec fn is_nearest(ds: Seq<Distance>, i: int) -> bool {
    if exists|k: int| 0 <= k < ds.len() && (#[trigger] ds[k]).bounded() {
        &&& 0 <= i < ds.len()
        &&& ds[i].bounded()
        &&& forall|k: int| 0 <= k < ds.len() ==> !(#[trigger] ds[k]).below(ds[i])
        &&& forall|k: int| 0 <= k < i ==> !(#[trigger] ds[k]).nan() ==> ds[i].below(ds[k])
    } else {
        i == 0
    }
}

/// Whether `i` is the entry a search settles on that starts from the first
/// one: the first of the smallest distances, or the first entry if its own
/// distance is not a number.
pub open spec fn is_nearest_seeded(ds: Seq<Distance>, i: int) -> bool {
    if ds[0].nan() {
        i == 0
    } else {
        &&& 0 <= i < ds.len()
        &&& !ds[i].nan()
        &&& forall|k: int| 0 <= k < ds.len() ==> !(#[trigger] ds[k]).below(ds[i])
        &&& forall|k: int| 0 <= k < i ==> !(#[trigger] ds[k]).nan() ==> ds[i].below(ds[k])
    }
}

/// A full search settles on one entry only.
pub proof fn law_nearest_unique(ds: Seq<Distance>, i: int, j: int)
    requires
        is_nearest(ds, i),
        is_nearest(ds, j),
    ensures
        i == j,
{
    if i < j && exists|k: int| 0 <= k < ds.len() && (#[trigger] ds[k]).bounded() {
        assert(ds[j].below(ds[i]));
    }
    if j < i && exists|k: int| 0 <= k < ds.len() && (#[trigger] ds[k]).bounded() {
        assert(ds[i].below(ds[j]));
    }
}

/// A seeded search settles on one entry only.
pub proof fn law_nearest_seeded_unique(ds: Seq<Distance>, i: int, j: int)
    requires
        is_nearest_seeded(ds, i),
        is_nearest_seeded(ds, j),
    ensures
        i == j,
{
    if i < j && !ds[0].nan() {
        assert(ds[j].below(ds[i]));
    }
    if j < i && !ds[0].nan() {
        assert(ds[i].below(ds[j]));
    }
}

/// An entry at distance zero from the query is found, or an entry before it
/// at the same distance, where no distance is negative.
pub proof fn law_exact_match_found(ds: Seq<Distance>, i: int, at: int)
    requires
        is_nearest(ds, i),
        0 <= at < ds.len(),
        !ds[at].nan(),
        ds[at].level() == 0,
        forall|k: int| 0 <= k < ds.len() ==> !(#[trigger] ds[k]).nan() ==> ds[k].level() >= 0,
    ensures
        0 <= i <= at,
        ds[i].level() == 0,
{
    assert(ds[at].bounded());
    assert(!ds[at].below(ds[i]));
    if at < i {
        assert(ds[i].below(ds[at]));
    }
}

/// A search under way: the entry it would settle on now and its distance,
/// infinity before any entry below it was seen.
pub(crate) struct Search {
    pub(crate) best: usize,
    pub(crate) best_d: Distance,
}

impl Search {
    /// Whether the search has seen the distances `ds` so far.
    pub(crate) open spec fn tracks(self, ds: Seq<Distance>) -> bool {
        &&& is_nearest(ds, self.best as int)
        &&& self.best_d.bits == INFINITY_BITS || (self.best < ds.len() && self.best_d
            == ds[self.best as int] && self.best_d.bounded())
        &&& self.best_d.bits == INFINITY_BITS <==> !exists|k: int|
            0 <= k < ds.len() && (#[trigger] ds[k]).bounded()
    }

    /// A search that has seen nothing.
    pub(crate) fn start() -> (search: Search)
        ensures
            search.tracks(Seq::empty()),
            search.best == 0,
    {
        Search { best: 0, best_d: Distance::infinity() }
    }

    /// Shows entry `i` at distance `d` to the search.
    pub(crate) fn offer(&mut self, i: usize, d: Distance, Ghost(ds): Ghost<Seq<Distance>>)
        requires
            old(self).tracks(ds),
            i == ds.len(),
        ensures
            final(self).tracks(ds.push(d)),
            final(self).best == old(self).best || final(self).best == i,
    {
        let ghost next = ds.push(d);
        proof {
            assert(forall|k: int| 0 <= k < ds.len() ==> next[k] == ds[k]);
            assert(next[i as int] == d);
        }
        if d.less_than(self.best_d) {
            proof {
                assert(next[i as int].bounded());
            }
            self.best_d = d;
            self.best = i;
        } else {
            proof {
                if self.best_d.bits != INFINITY_BITS {
                    assert(next[self.best as int].bounded());
                } else {
                    assert(!d.bounded());
                    assert forall|k: int| 0 <= k < next.len() implies !(
                    #[trigger] next[k]).bounded() by {
                        if k < ds.len() {
                            assert(!ds[k].bounded());
                        }
                    }
                }
            }
        }
    }
}

/// Searches all `n` entries: the index of the first of the smallest
/// distances.
pub fn nearest_idx<D: Fn(Metric, [u8; 3], usize) -> Distance>(
    metric: Metric,
    rgb: [u8; 3],
    n: usize,
    dist: &D,
) -> (best: usize)
    requires
        n > 0,
        answers(*dist, n as nat),
    ensures
        best < n,
        exists|ds: Seq<Distance>|
            ds.len() == n && measured(*dist, metric, rgb, ds) && #[trigger] is_nearest(
                ds,
                best as int,
            ),
{
    let mut search: Search = Search::start();
    let ghost mut ds: Seq<Distance> = Seq::empty();
    let mut i: usize = 0;
    while i < n
        invariant
            i <= n,
            n > 0,
            search.best < n,
            answers(*dist, n as nat),
            ds.len() == i,
            measured(*dist, metric, rgb, ds),
            search.tracks(ds),
        decreases n - i,
    {
        let d: Distance = dist(metric, rgb, i);
        search.offer(i, d, Ghost(ds));
        proof {
            ds = ds.push(d);
        }
        i += 1;
    }
    search.best
}

} // verus!
