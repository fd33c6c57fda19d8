//! Ordering boxes by a rank, equals in their given order.

use vstd::prelude::*;

verus! {

use crate::mmcq::space::{Region, counted};
use crate::mmcq::vbox::VBox;
use crate::sorting::{lemma_insert_at, sort_by};

/// What boxes are ordered by.
#[derive(Clone, Copy, Debug, PartialEq, Eq, Structural)]
pub enum Rank {
    /// Pixels in the box.
    Population,
    /// Pixels in the box times its cells.
    PopulationVolume,
    /// Fewest pixels, so that the most populous box comes first.
    Scarcity,
}

impl Rank {
    /// The rank of a box.
    pub open spec fn key(self, h: Seq<u32>, region: Region) -> int {
        match self {
            Rank::Population => counted(h, region) as int,
            Rank::PopulationVolume => counted(h, region) * region.volume(),
            Rank::Scarcity => u32::MAX - counted(h, region),
        }
    }

    /// The rank of a box.
    pub fn of(self, vbox: &VBox, histo: &[u32]) -> (k: u64)
        requires
            vbox.valid(histo@),
        ensures
            k == self.key(histo@, vbox@),
    {
        let mut probe: VBox = *vbox;
        let n: u32 = probe.count(histo);
        match self {
            Rank::Population => n as u64,
            Rank::PopulationVolume => {
                let v: u32 = vbox.volume();
                assert(n * v <= u32::MAX * 32768) by (nonlinear_arith)
                    requires
                        n <= u32::MAX,
                        v <= 32768,
                ;
                n as u64 * v as u64
            },
            Rank::Scarcity => (u32::MAX - n) as u64,
        }
    }
}

/// The regions of a run of boxes.
pub open spec fn regions(boxes: Seq<VBox>) -> Seq<Region> {
    boxes.map_values(|v: VBox| v@)
}

/// Whether every box is valid for histogram `h`.
pub open spec fn all_valid(h: Seq<u32>, boxes: Seq<VBox>) -> bool {
    forall|i: int| 0 <= i < boxes.len() ==> (#[trigger] boxes[i]).valid(h)
}

/// The boxes in ascending rank.
pub open spec fn ranked(h: Seq<u32>, rank: Rank, boxes: Seq<Region>) -> Seq<Region> {
    sort_by(|r: Region| rank.key(h, r), boxes)
}

/// Orders boxes by `rank`, ascending.
pub fn sort_boxes(boxes: &mut [VBox], histo: &[u32], rank: Rank)
    requires
        all_valid(histo@, old(boxes)@),
    ensures
        all_valid(histo@, final(boxes)@),
        regions(final(boxes)@) == ranked(histo@, rank, regions(old(boxes)@)),
        final(boxes)@.len() == old(boxes)@.len(),
{
    let ghost given = boxes@;
    let ghost h = histo@;
    let ghost key = |r: Region| rank.key(h, r);
    let n: usize = boxes.len();
    let mut i: usize = 0;
    while i < n
        invariant
            h == histo@,
            key == (|r: Region| rank.key(h, r)),
            n == given.len() == boxes@.len(),
            i <= n,
            all_valid(h, boxes@),
            regions(boxes@).take(i as int) == sort_by(key, regions(given).take(i as int)),
            boxes@.skip(i as int) == given.skip(i as int),
        decreases n - i,
    {
        let ghost pre = boxes@;
        let x: VBox = boxes[i];
        let kx: u64 = rank.of(&x, histo);
        let mut j: usize = i;
        while j > 0 && rank.of(&boxes[j - 1], histo) > kx
            invariant
                h == histo@,
                key == (|r: Region| rank.key(h, r)),
                n == pre.len() == boxes@.len(),
                j <= i < n,
                all_valid(h, pre),
                all_valid(h, boxes@),
                kx == key(x@),
                x == pre[i as int],
                forall|k: int| 0 <= k < j ==> #[trigger] boxes@[k] == pre[k],
                forall|k: int| j < k <= i ==> #[trigger] boxes@[k] == pre[k - 1],
                forall|k: int| i < k < n ==> #[trigger] boxes@[k] == pre[k],
                forall|k: int| j <= k < i ==> key((#[trigger] pre[k])@) > kx,
            decreases j,
        {
            boxes[j] = boxes[j - 1];
            j -= 1;
        }
        boxes[j] = x;
        proof {
            let sorted = regions(pre).take(i as int);
            assert(forall|k: int| 0 <= k < i ==> #[trigger] sorted[k] == pre[k]@);
            lemma_insert_at(key, sorted, x@, j as int);
            assert(regions(boxes@).take(i + 1) =~= sorted.take(j as int).push(x@) + sorted.skip(
                j as int,
            ));
            let prefix = regions(given).take(i + 1);
            assert(prefix.drop_last() =~= regions(given).take(i as int));
            assert(pre.skip(i as int)[0] == given.skip(i as int)[0]);
            assert(prefix.last() == x@);
            assert(boxes@.skip(i + 1) =~= pre.skip(i as int).skip(1));
            assert(given.skip(i + 1) =~= given.skip(i as int).skip(1));
        }
        i += 1;
    }
    assert(regions(boxes@).take(n as int) =~= regions(boxes@));
    assert(regions(given).take(n as int) =~= regions(given));
}

} // verus!
