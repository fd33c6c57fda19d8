//! A full search that measures several entries at a time.

use vstd::prelude::*;

verus! {

use crate::distance::{Distance, Metric, answers, measured};
use crate::nearest::scan::{Search, is_nearest};

/// The distances of `LANES` entries from `start` on.
fn measure_chunk<const LANES: usize, D: Fn(Metric, [u8; 3], usize) -> Distance>(
    metric: Metric,
    rgb: [u8; 3],
    start: usize,
    n: usize,
    dist: &D,
) -> (chunk: Vec<Distance>)
    requires
        start + LANES <= n,
        answers(*dist, n as nat),
    ensures
        chunk@.len() == LANES,
        forall|k: usize|
            k < LANES ==> call_ensures(
                *dist,
                (metric, rgb, (start + k) as usize),
                #[trigger] chunk@[k as int],
            ),
{
    let mut chunk: Vec<Distance> = Vec::new();
    let mut lane: usize = 0;
    while lane < LANES
        invariant
            lane <= LANES,
            start + LANES <= n,
            answers(*dist, n as nat),
            chunk@.len() == lane,
            forall|k: usize|
                k < lane ==> call_ensures(
                    *dist,
                    (metric, rgb, (start + k) as usize),
                    #[trigger] chunk@[k as int],
                ),
        decreases LANES - lane,
    {
        chunk.push(dist(metric, rgb, start + lane));
        lane += 1;
    }
    chunk
}

/// Searches all `n` entries, `LANES` at a time and the rest one by one: the
/// index of the first of the smallest distances, as
/// [`crate::nearest::scan::nearest_idx`] finds it.
pub fn nearest_idx_lanes<const LANES: usize, D: Fn(Metric, [u8; 3], usize) -> Distance>(
    metric: Metric,
    rgb: [u8; 3],
    n: usize,
    dist: &D,
) -> (best: usize)
    requires
        LANES > 0,
        n > 0,
        answers(*dist, n as nat),
    ensures
        best < n,
        exists|ds: Seq<Distance>|
            ds.len() == n && measured(*dist, metric, rgb, ds) && #[trigger] is_nearest(
                ds,
                best as int,
            ),
{
    let mut search: Search = Search::start();
    let ghost mut ds: Seq<Distance> = Seq::empty();
    let mut i: usize = 0;
    while n - i >= LANES
        invariant
            LANES > 0,
            i <= n,
            n > 0,
            search.best < n,
            answers(*dist, n as nat),
            ds.len() == i,
            measured(*dist, metric, rgb, ds),
            search.tracks(ds),
        decreases n - i,
    {
        let chunk: Vec<Distance> = measure_chunk::<LANES, D>(metric, rgb, i, n, dist);
        let mut lane: usize = 0;
        while lane < LANES
            invariant
                lane <= LANES,
                i + LANES <= n,
                search.best < n,
                chunk@.len() == LANES,
                forall|k: usize|
                    k < LANES ==> call_ensures(
                        *dist,
                        (metric, rgb, (i + k) as usize),
                        #[trigger] chunk@[k as int],
                    ),
                ds.len() == i + lane,
                measured(*dist, metric, rgb, ds),
                search.tracks(ds),
            decreases LANES - lane,
        {
            let d: Distance = chunk[lane];
            search.offer(i + lane, d, Ghost(ds));
            proof {
                ds = ds.push(d);
            }
            lane += 1;
        }
        i += LANES;
    }
    while i < n
        invariant
            i <= n,
            n > 0,
            search.best < n,
            answers(*dist, n as nat),
            ds.len() == i,
            measured(*dist, metric, rgb, ds),
            search.tracks(ds),
        decreases n - i,
    {
        let d: Distance = dist(metric, rgb, i);
        search.offer(i, d, Ghost(ds));
        proof {
            ds = ds.push(d);
        }
        i += 1;
    }
    search.best
}

} // verus!
