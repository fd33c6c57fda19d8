//! Splitting boxes until there are enough of them.

use vstd::prelude::*;

verus! {

use crate::mmcq::arena::{BoxArena, MAX_BOXES, room};
use crate::mmcq::box_sums::lemma_box_sum_split;
use crate::mmcq::cut::{cut, lemma_cut_point, lemma_longest_axis, longest_axis, median_cut};
use crate::mmcq::order::{Rank, all_valid, ranked, regions, sort_boxes};
use crate::mmcq::space::{Region, cell_pop, counted, population};
use crate::mmcq::vbox::VBox;
use crate::sorting::law_sort_by;

/// Rounds after which splitting stops.
pub const MAX_ITERATIONS: usize = 1000;

/// The halves that hold pixels.
pub open spec fn populated(h: Seq<u32>, left: Region, right: Region) -> Seq<Region> {
    if counted(h, left) == 0 {
        seq![right]
    } else if counted(h, right) == 0 {
        seq![left]
    } else {
        seq![left, right]
    }
}

/// Splits the highest-ranked box, over and over, until `target` boxes exist,
/// none is left to split, or `rounds` rounds have passed. A box that cannot
/// be split is set aside; of two halves only those with pixels are kept.
/// Returns the boxes that could still be split and those set aside.
pub open spec fn split_rounds(
    h: Seq<u32>,
    target: nat,
    rank: Rank,
    boxes: Seq<Region>,
    aside: Seq<Region>,
    rounds: nat,
) -> (Seq<Region>, Seq<Region>)
    decreases rounds,
{
    let queue = ranked(h, rank, boxes);
    if boxes.len() + aside.len() >= target || rounds == 0 {
        (boxes, aside)
    } else if queue.len() == 0 {
        (queue, aside)
    } else {
        let top = queue.last();
        let rest = queue.drop_last();
        if counted(h, top) == 0 {
            (rest, aside)
        } else {
            match cut(h, top) {
                Some((left, Some(right))) => split_rounds(
                    h,
                    target,
                    rank,
                    rest + populated(h, left, right),
                    aside,
                    (rounds - 1) as nat,
                ),
                _ => split_rounds(h, target, rank, rest, aside.push(top), (rounds - 1) as nat),
            }
        }
    }
}

/// The boxes after splitting: those that could still be split, then those
/// set aside, latest first.
pub open spec fn split_until(h: Seq<u32>, target: nat, rank: Rank, boxes: Seq<Region>) -> Seq<
    Region,
> {
    let (open, aside) = split_rounds(
        h,
        target,
        rank,
        boxes,
        Seq::empty(),
        MAX_ITERATIONS as nat,
    );
    open + aside.reverse()
}

/// A box with pixels has a half with pixels.
proof fn lemma_half_populated(h: Seq<u32>, region: Region)
    requires
        region.fits(),
    ensures
        cut(h, region) matches Some((left, Some(right))) ==> {
            &&& left.fits()
            &&& right.fits()
            &&& population(h, region) == population(h, left) + population(h, right)
            &&& counted(h, left) > 0 || counted(h, right) > 0
        },
{
    if counted(h, region) > 1 && region.volume() != 1 {
        let axis = longest_axis(region);
        lemma_longest_axis(region);
        lemma_cut_point(h, region, axis);
        lemma_box_sum_split(
            cell_pop(h),
            region,
            axis,
            crate::mmcq::cut::cut_point(h, region, axis),
        );
    }
}

/// Splits the boxes of `boxes`, highest rank first, until `target` of them
/// exist or no split is left to make. Where so many exist already, they are
/// left as they are.
pub fn iterate_split(boxes: &mut BoxArena, target: usize, histo: &[u32], rank: Rank)
    requires
        target <= MAX_BOXES,
        old(boxes)@.len() <= MAX_BOXES,
        all_valid(histo@, old(boxes)@),
    ensures
        all_valid(histo@, final(boxes)@),
        final(boxes)@.len() <= MAX_BOXES,
        regions(final(boxes)@) == split_until(
            histo@,
            target as nat,
            rank,
            regions(old(boxes)@),
        ),
        old(boxes)@.len() >= target ==> final(boxes)@ == old(boxes)@,
{
    let ghost h = histo@;
    let ghost entry = boxes@;
    let ghost given = regions(boxes@);
    let ghost goal = split_rounds(
        h,
        target as nat,
        rank,
        given,
        Seq::empty(),
        MAX_ITERATIONS as nat,
    );
    let mut iters: usize = 0;
    let mut aside: BoxArena = BoxArena::new();
    assert(regions(aside@) =~= Seq::<Region>::empty());
    while boxes.len() + aside.len() < target && iters < MAX_ITERATIONS
        invariant_except_break
            iters <= MAX_ITERATIONS,
            goal == split_rounds(
                h,
                target as nat,
                rank,
                regions(boxes@),
                regions(aside@),
                (MAX_ITERATIONS - iters) as nat,
            ),
        invariant
            h == histo@,
            target <= MAX_BOXES,
            boxes@.len() + aside@.len() <= MAX_BOXES,
            all_valid(h, boxes@),
            all_valid(h, aside@),
            entry.len() >= target ==> boxes@ == entry && aside@.len() == 0,
        ensures
            goal == (regions(boxes@), regions(aside@)),
        decreases MAX_ITERATIONS - iters,
    {
        let ghost before = regions(boxes@);
        let ghost spent = regions(aside@);
        iters += 1;
        sort_boxes(boxes.as_mut_slice(), histo, rank);
        let ghost queue = regions(boxes@);
        let ghost sorted = boxes@;
        proof {
            law_sort_by(|r: Region| rank.key(h, r), before);
        }
        let mut top: VBox = match boxes.pop() {
            Some(b) => b,
            None => {
                break;
            },
        };
        let ghost rest = boxes@;
        assert(regions(rest) =~= queue.drop_last());
        assert(top@ == queue.last());
        if top.count(histo) == 0 {
            break;
        }
        proof {
            lemma_half_populated(h, top@);
        }
        match median_cut(&top, histo) {
            Some((mut left, Some(mut right))) => {
                let l_pop: u32 = left.count(histo);
                let r_pop: u32 = right.count(histo);
                if l_pop == 0 {
                    let _ = boxes.push(right);
                } else if r_pop == 0 {
                    let _ = boxes.push(left);
                } else {
                    let _ = boxes.push(left);
                    let _ = boxes.push(right);
                }
                assert(regions(boxes@) =~= queue.drop_last() + populated(h, left@, right@));
            },
            Some((only, None)) => {
                let _ = aside.push(only);
                assert(regions(aside@) =~= spent.push(top@));
            },
            None => {
                let _ = aside.push(top);
            },
        }
    }
    let ghost open = boxes@;
    let ghost kept = aside@;
    aside.drain_into(boxes);
    proof {
        assert(kept.reverse().take(room(open.len(), kept.len()) as int) =~= kept.reverse());
        assert(regions(boxes@) =~= regions(open) + regions(kept).reverse());
        if entry.len() >= target {
            assert(boxes@ =~= entry);
        }
    }
}

} // verus!
