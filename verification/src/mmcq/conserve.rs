//! What splitting keeps: every weight that sits on populated cells only.

use vstd::prelude::*;

verus! {

use crate::mmcq::box_sums::{lemma_box_sum_split, lemma_box_sum_term, lemma_box_sum_zero};
use crate::mmcq::cut::{cut, cut_point, lemma_cut_point, lemma_longest_axis, longest_axis};
use crate::mmcq::order::{Rank, ranked};
use crate::mmcq::space::{Axis, Region, bin, box_sum, cell_pop, counted, in_space};
use crate::mmcq::split::{MAX_ITERATIONS, populated, split_rounds, split_until};
use crate::sorting::{insert_by, law_sort_by, lemma_sort_keeps, sort_by};

/// The weight of all boxes together.
pub open spec fn total_weight(w: spec_fn(int, int, int) -> nat, boxes: Seq<Region>) -> nat
    decreases boxes.len(),
{
    if boxes.len() == 0 {
        0
    } else {
        total_weight(w, boxes.drop_last()) + box_sum(w, boxes.last())
    }
}

/// Whether `w` weighs nothing outside the populated cells of the space.
pub open spec fn on_populated(w: spec_fn(int, int, int) -> nat, h: Seq<u32>) -> bool {
    forall|r: int, g: int, b: int|
        (!in_space(r, g, b) || h[bin(r, g, b)] == 0) ==> #[trigger] w(r, g, b) == 0
}

/// Whether every box lies in the quantized space.
pub open spec fn all_fit(boxes: Seq<Region>) -> bool {
    forall|i: int| 0 <= i < boxes.len() ==> (#[trigger] boxes[i]).fits()
}

proof fn lemma_total_push(w: spec_fn(int, int, int) -> nat, boxes: Seq<Region>, x: Region)
    ensures
        total_weight(w, boxes.push(x)) == total_weight(w, boxes) + box_sum(w, x),
{
    assert(boxes.push(x).drop_last() =~= boxes);
}

/// Weights add up over two runs of boxes.
pub proof fn lemma_total_add(
    w: spec_fn(int, int, int) -> nat,
    one: Seq<Region>,
    other: Seq<Region>,
)
    ensures
        total_weight(w, one + other) == total_weight(w, one) + total_weight(w, other),
    decreases other.len(),
{
    if other.len() == 0 {
        assert(one + other =~= one);
    } else {
        assert((one + other).drop_last() =~= one + other.drop_last());
        lemma_total_add(w, one, other.drop_last());
    }
}

/// The order of boxes does not change their weight.
pub proof fn lemma_total_reverse(w: spec_fn(int, int, int) -> nat, boxes: Seq<Region>)
    ensures
        total_weight(w, boxes.reverse()) == total_weight(w, boxes),
    decreases boxes.len(),
{
    if boxes.len() > 0 {
        lemma_total_reverse(w, boxes.drop_last());
        assert(boxes.reverse() =~= seq![boxes.last()] + boxes.drop_last().reverse());
        lemma_total_add(w, seq![boxes.last()], boxes.drop_last().reverse());
        lemma_total_push(w, Seq::empty(), boxes.last());
        assert(Seq::<Region>::empty().push(boxes.last()) =~= seq![boxes.last()]);
    }
}

proof fn lemma_total_insert(
    w: spec_fn(int, int, int) -> nat,
    key: spec_fn(Region) -> int,
    boxes: Seq<Region>,
    x: Region,
)
    ensures
        total_weight(w, insert_by(key, boxes, x)) == total_weight(w, boxes) + box_sum(w, x),
    decreases boxes.len(),
{
    if boxes.len() == 0 || key(boxes.last()) <= key(x) {
        lemma_total_push(w, boxes, x);
    } else {
        lemma_total_insert(w, key, boxes.drop_last(), x);
        lemma_total_push(w, insert_by(key, boxes.drop_last(), x), boxes.last());
    }
}

/// Ordering boxes does not change their weight.
pub proof fn lemma_total_sort(
    w: spec_fn(int, int, int) -> nat,
    key: spec_fn(Region) -> int,
    boxes: Seq<Region>,
)
    ensures
        total_weight(w, sort_by(key, boxes)) == total_weight(w, boxes),
    decreases boxes.len(),
{
    if boxes.len() > 0 {
        lemma_total_sort(w, key, boxes.drop_last());
        lemma_total_insert(w, key, sort_by(key, boxes.drop_last()), boxes.last());
    }
}

/// A box without pixels has no weight.
pub proof fn lemma_no_pixels_no_weight(
    w: spec_fn(int, int, int) -> nat,
    h: Seq<u32>,
    region: Region,
)
    requires
        on_populated(w, h),
        counted(h, region) == 0,
    ensures
        box_sum(w, region) == 0,
{
    assert forall|r: int, g: int, b: int| region.has(r, g, b) implies #[trigger] w(r, g, b) == 0 by {
        if in_space(r, g, b) {
            lemma_box_sum_term(cell_pop(h), region, r, g, b);
            assert(cell_pop(h)(r, g, b) == h[bin(r, g, b)] as nat);
        }
    }
    lemma_box_sum_zero(w, region);
}

/// The two halves of a box lie in the space and carry its weight.
pub proof fn lemma_cut_keeps_weight(w: spec_fn(int, int, int) -> nat, h: Seq<u32>, region: Region)
    requires
        region.fits(),
    ensures
        cut(h, region) matches Some((left, Some(right))) ==> {
            &&& left.fits()
            &&& right.fits()
            &&& box_sum(w, region) == box_sum(w, left) + box_sum(w, right)
            &&& left.volume() >= 1
            &&& right.volume() >= 1
            &&& left.volume() + right.volume() == region.volume()
        },
{
    if counted(h, region) > 1 && region.volume() != 1 {
        let axis = longest_axis(region);
        lemma_longest_axis(region);
        lemma_cut_point(h, region, axis);
        let d = cut_point(h, region, axis);
        lemma_box_sum_split(w, region, axis, d);
        let left = region.slab(axis, region.lo(axis), d);
        let right = region.slab(axis, d + 1, region.hi(axis));
        let (x, y, z) = (region.width(Axis::R), region.width(Axis::G), region.width(Axis::B));
        let a = d - region.lo(axis) + 1;
        lemma_volume_positive(left);
        lemma_volume_positive(right);
        match axis {
            Axis::R => {
                assert(a * y * z + (x - a) * y * z == x * y * z) by (nonlinear_arith);
            },
            Axis::G => {
                assert(x * a * z + x * (y - a) * z == x * y * z) by (nonlinear_arith);
            },
            Axis::B => {
                assert(x * y * a + x * y * (z - a) == x * y * z) by (nonlinear_arith);
            },
        }
    }
}

/// A box of the space has a cell.
pub proof fn lemma_volume_positive(region: Region)
    requires
        region.fits(),
    ensures
        region.volume() >= 1,
{
    let (x, y, z) = (region.width(Axis::R), region.width(Axis::G), region.width(Axis::B));
    assert(x * y * z >= 1) by (nonlinear_arith)
        requires
            x >= 1,
            y >= 1,
            z >= 1,
    ;
}

/// The kept halves carry the weight of the box.
proof fn lemma_populated_keeps_weight(
    w: spec_fn(int, int, int) -> nat,
    h: Seq<u32>,
    left: Region,
    right: Region,
)
    requires
        on_populated(w, h),
    ensures
        total_weight(w, populated(h, left, right)) == box_sum(w, left) + box_sum(w, right),
{
    let kept = populated(h, left, right);
    reveal_with_fuel(total_weight, 3);
    assert(seq![left, right].drop_last() =~= seq![left]);
    assert(seq![left].drop_last() =~= Seq::empty());
    assert(seq![right].drop_last() =~= Seq::empty());
    if counted(h, left) == 0 {
        lemma_no_pixels_no_weight(w, h, left);
    } else if counted(h, right) == 0 {
        lemma_no_pixels_no_weight(w, h, right);
    }
}

/// Splitting keeps the weight of the boxes, the space they lie in, and grows
/// their number to no more than the target.
pub proof fn lemma_rounds_keep_weight(
    w: spec_fn(int, int, int) -> nat,
    h: Seq<u32>,
    target: nat,
    rank: Rank,
    boxes: Seq<Region>,
    aside: Seq<Region>,
    rounds: nat,
)
    requires
        on_populated(w, h),
        all_fit(boxes),
        all_fit(aside),
    ensures
        ({
            let (b, a) = split_rounds(h, target, rank, boxes, aside, rounds);
            &&& all_fit(b)
            &&& all_fit(a)
            &&& total_weight(w, b) + total_weight(w, a) == total_weight(w, boxes) + total_weight(
                w,
                aside,
            )
            &&& b.len() + a.len() <= boxes.len() + aside.len() || b.len() + a.len() <= target
        }),
    decreases rounds,
{
    let key = |r: Region| rank.key(h, r);
    let queue = ranked(h, rank, boxes);
    lemma_total_sort(w, key, boxes);
    law_sort_by(key, boxes);
    lemma_sort_keeps(|r: Region| r.fits(), key, boxes);
    assert(all_fit(queue));
    if !(boxes.len() + aside.len() >= target || rounds == 0) && queue.len() > 0 {
        let top = queue.last();
        let rest = queue.drop_last();
        assert(all_fit(rest));
        assert(top.fits()) by {
            assert(queue[queue.len() - 1].fits());
        }
        if counted(h, top) == 0 {
            lemma_no_pixels_no_weight(w, h, top);
        } else {
            lemma_cut_keeps_weight(w, h, top);
            match cut(h, top) {
                Some((left, Some(right))) => {
                    let kept = populated(h, left, right);
                    lemma_populated_keeps_weight(w, h, left, right);
                    lemma_total_add(w, rest, kept);
                    assert(all_fit(rest + kept));
                    lemma_rounds_keep_weight(
                        w,
                        h,
                        target,
                        rank,
                        rest + kept,
                        aside,
                        (rounds - 1) as nat,
                    );
                },
                _ => {
                    lemma_total_push(w, aside, top);
                    lemma_rounds_keep_weight(
                        w,
                        h,
                        target,
                        rank,
                        rest,
                        aside.push(top),
                        (rounds - 1) as nat,
                    );
                },
            }
        }
    }
}

/// Splitting keeps the weight of the boxes, the space they lie in, and grows
/// their number to no more than the target.
pub proof fn law_split_conserves(
    w: spec_fn(int, int, int) -> nat,
    h: Seq<u32>,
    target: nat,
    rank: Rank,
    boxes: Seq<Region>,
)
    requires
        on_populated(w, h),
        all_fit(boxes),
    ensures
        total_weight(w, split_until(h, target, rank, boxes)) == total_weight(w, boxes),
        all_fit(split_until(h, target, rank, boxes)),
        split_until(h, target, rank, boxes).len() <= boxes.len() || split_until(
            h,
            target,
            rank,
            boxes,
        ).len() <= target,
{
    let none = Seq::<Region>::empty();
    lemma_rounds_keep_weight(w, h, target, rank, boxes, none, MAX_ITERATIONS as nat);
    let (open, aside) = split_rounds(h, target, rank, boxes, none, MAX_ITERATIONS as nat);
    lemma_total_add(w, open, aside.reverse());
    lemma_total_reverse(w, aside);
    assert forall|i: int| 0 <= i < (open + aside.reverse()).len() implies (#[trigger] (open
        + aside.reverse())[i]).fits() by {
        if i >= open.len() {
            assert((open + aside.reverse())[i] == aside[aside.len() - 1 - (i - open.len())]);
        }
    }
}

} // verus!
