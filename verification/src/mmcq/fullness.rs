//! When as many colours come back as were asked for.

use vstd::prelude::*;

verus! {

use crate::mmcq::box_sums::{lemma_box_sum_bound, lemma_box_sum_term};
use crate::mmcq::conserve::{
    all_fit, law_split_conserves, lemma_cut_keeps_weight, lemma_no_pixels_no_weight,
    lemma_total_add, lemma_total_reverse, lemma_total_sort, total_weight,
};
use crate::mmcq::cut::{cut, lemma_longest_axis};
use crate::mmcq::histogram::{bounding, histogram};
use crate::mmcq::laws::{
    law_quantized_conserves, lemma_any_populated, lemma_bounding, lemma_bounding_holds_all,
    lemma_emitted, lemma_occupied_box, lemma_total_at_least, occupied, occupied_cells, whole,
};
use crate::mmcq::order::{Rank, ranked};
use crate::mmcq::space::{
    Axis, Region, bin, box_sum, cell_pop, counted, in_space, plane_sum, row_sum,
};
use crate::mmcq::split::{MAX_ITERATIONS, populated, split_rounds, split_until};
use crate::mmcq::sums::{lemma_range_sum_limit, range_sum};
use crate::mmcq::workspace::{box_target, quantized, swatches, with_pixels};
use crate::sorting::{law_sort_by, lemma_filter_all, lemma_sort_keeps};

/// Whether splitting stops for want of rounds, with boxes left to split and
/// the target not reached.
pub open spec fn runs_out(
    h: Seq<u32>,
    target: nat,
    rank: Rank,
    boxes: Seq<Region>,
    aside: Seq<Region>,
    rounds: nat,
) -> bool
    decreases rounds,
{
    let queue = ranked(h, rank, boxes);
    if boxes.len() + aside.len() >= target {
        false
    } else if rounds == 0 {
        boxes.len() > 0
    } else if queue.len() == 0 {
        false
    } else {
        let top = queue.last();
        let rest = queue.drop_last();
        if counted(h, top) == 0 {
            false
        } else {
            match cut(h, top) {
                Some((left, Some(right))) => runs_out(
                    h,
                    target,
                    rank,
                    rest + populated(h, left, right),
                    aside,
                    (rounds - 1) as nat,
                ),
                _ => runs_out(h, target, rank, rest, aside.push(top), (rounds - 1) as nat),
            }
        }
    }
}

/// Whether every box holds pixels.
pub open spec fn all_hold(h: Seq<u32>, boxes: Seq<Region>) -> bool {
    forall|i: int| 0 <= i < boxes.len() ==> counted(h, #[trigger] boxes[i]) > 0
}

/// Whether no box can be split.
pub open spec fn all_whole(h: Seq<u32>, boxes: Seq<Region>) -> bool {
    forall|i: int|
        0 <= i < boxes.len() ==> counted(h, #[trigger] boxes[i]) == 1 || boxes[i].volume() == 1
}

/// Splitting that does not run out of rounds reaches its target, or is left
/// with nothing that can be split.
pub proof fn lemma_rounds_complete(
    h: Seq<u32>,
    target: nat,
    rank: Rank,
    boxes: Seq<Region>,
    aside: Seq<Region>,
    rounds: nat,
)
    requires
        all_fit(boxes),
        all_hold(h, boxes),
        all_hold(h, aside),
        all_whole(h, aside),
    ensures
        ({
            let (b, a) = split_rounds(h, target, rank, boxes, aside, rounds);
            &&& all_hold(h, b)
            &&& all_hold(h, a)
            &&& all_whole(h, a)
            &&& !runs_out(h, target, rank, boxes, aside, rounds) ==> b.len() + a.len() >= target
                || b.len() == 0
        }),
    decreases rounds,
{
    let key = |r: Region| rank.key(h, r);
    let queue = ranked(h, rank, boxes);
    law_sort_by(key, boxes);
    lemma_sort_keeps(|r: Region| r.fits() && counted(h, r) > 0, key, boxes);
    if !(boxes.len() + aside.len() >= target || rounds == 0) && queue.len() > 0 {
        let top = queue.last();
        let rest = queue.drop_last();
        assert(top == queue[queue.len() - 1]);
        assert(top.fits() && counted(h, top) > 0);
        assert(all_fit(rest) && all_hold(h, rest)) by {
            assert(forall|i: int| 0 <= i < rest.len() ==> #[trigger] rest[i] == queue[i]);
        }
        lemma_cut_keeps_weight(cell_pop(h), h, top);
        match cut(h, top) {
            Some((left, Some(right))) => {
                let kept = populated(h, left, right);
                assert(all_fit(rest + kept));
                assert(all_hold(h, rest + kept));
                lemma_rounds_complete(h, target, rank, rest + kept, aside, (rounds - 1) as nat);
            },
            _ => {
                assert(all_hold(h, aside.push(top)));
                assert(all_whole(h, aside.push(top)));
                lemma_rounds_complete(
                    h,
                    target,
                    rank,
                    rest,
                    aside.push(top),
                    (rounds - 1) as nat,
                );
            },
        }
    }
}

/// A box with pixels that cannot be split has one populated cell.
proof fn lemma_whole_box(h: Seq<u32>, region: Region)
    requires
        region.fits(),
        counted(h, region) > 0,
        counted(h, region) == 1 || region.volume() == 1,
    ensures
        box_sum(occupied(h), region) == 1,
{
    let w = occupied(h);
    lemma_occupied_box(h, region);
    if counted(h, region) == 1 {
        assert forall|r: int, g: int, b: int| region.has(r, g, b) implies #[trigger] w(r, g, b)
            <= cell_pop(h)(r, g, b) by {
        }
        lemma_box_sum_bound(w, cell_pop(h), region);
    } else {
        lemma_longest_axis(region);
        assert(region.r1 == region.r2 && region.g1 == region.g2 && region.b1 == region.b2);
        reveal_with_fuel(range_sum, 2);
        assert(row_sum(w, region.r1, region.g1, region) <= 1);
        assert(plane_sum(w, region.r1, region) <= 1);
    }
}

proof fn lemma_total_ones(w: spec_fn(int, int, int) -> nat, boxes: Seq<Region>)
    requires
        forall|i: int| 0 <= i < boxes.len() ==> box_sum(w, #[trigger] boxes[i]) == 1,
    ensures
        total_weight(w, boxes) == boxes.len(),
    decreases boxes.len(),
{
    if boxes.len() > 0 {
        let rest = boxes.drop_last();
        assert forall|i: int| 0 <= i < rest.len() implies box_sum(w, #[trigger] rest[i]) == 1 by {
            assert(rest[i] == boxes[i]);
        }
        lemma_total_ones(w, rest);
        assert(box_sum(w, boxes[boxes.len() - 1]) == 1);
    }
}

/// Boxes after the first, coarse phase.
pub open spec fn coarse_boxes(h: Seq<u32>, count: u8) -> Seq<Region> {
    split_until(
        h,
        ((3 * box_target(count) + 3) / 4) as nat,
        Rank::Population,
        seq![bounding(h)],
    )
}

/// Whether the second, fine phase stops for want of rounds.
pub open spec fn fine_phase_runs_out(h: Seq<u32>, count: u8) -> bool {
    runs_out(
        h,
        box_target(count),
        Rank::PopulationVolume,
        coarse_boxes(h, count),
        Seq::empty(),
        MAX_ITERATIONS as nat,
    )
}

/// As many colours come back as were asked for, or as many as the frame has
/// populated cells if they are fewer; unless the second phase of splitting
/// stops for want of rounds. It never does for counts up to 125
/// ([`crate::mmcq::rounds::law_small_counts_have_rounds_enough`]), nor on
/// frames of few cells ([`law_narrow_frames_have_rounds_enough`]).
pub proof fn law_full_count(pixels: Seq<[u8; 3]>, count: u8)
    requires
        pixels.len() > 0,
        !fine_phase_runs_out(histogram(pixels), count),
    ensures
        swatches(pixels, count).len() == (if occupied_cells(histogram(pixels)) < count {
            occupied_cells(histogram(pixels))
        } else {
            count as nat
        }),
{
    let h = histogram(pixels);
    let w = occupied(h);
    let none = Seq::<Region>::empty();
    let target = box_target(count);
    let rounds = MAX_ITERATIONS as nat;
    lemma_any_populated(pixels);
    lemma_bounding(h);
    lemma_emitted(pixels, count);
    law_quantized_conserves(w, h, count);
    let start = seq![bounding(h)];
    // The bounding box holds pixels.
    assert(counted(h, bounding(h)) > 0) by {
        if counted(h, bounding(h)) == 0 {
            lemma_no_pixels_no_weight(w, h, bounding(h));
            lemma_bounding_holds_all(w, h);
            let (r, g, b) = choose|r: int, g: int, b: int|
                in_space(r, g, b) && h[#[trigger] bin(r, g, b)] > 0;
            lemma_box_sum_term(w, whole(), r, g, b);
        }
    }
    let most = ((3 * target + 3) / 4) as nat;
    lemma_rounds_complete(h, most, Rank::Population, start, none, rounds);
    law_split_conserves(w, h, most, Rank::Population, start);
    let (b1, a1) = split_rounds(h, most, Rank::Population, start, none, rounds);
    let coarse = coarse_boxes(h, count);
    assert(coarse == b1 + a1.reverse());
    lemma_joined_hold(h, b1, a1);
    lemma_rounds_complete(h, target, Rank::PopulationVolume, coarse, none, rounds);
    law_split_conserves(w, h, target, Rank::PopulationVolume, coarse);
    let (b2, a2) = split_rounds(h, target, Rank::PopulationVolume, coarse, none, rounds);
    let fine = split_until(h, target, Rank::PopulationVolume, coarse);
    assert(fine == b2 + a2.reverse());
    lemma_joined_hold(h, b2, a2);
    let key = |r: Region| Rank::Scarcity.key(h, r);
    law_sort_by(key, fine);
    lemma_sort_keeps(|r: Region| counted(h, r) > 0, key, fine);
    let all = quantized(h, count);
    lemma_filter_all(|r: Region| counted(h, r) > 0, all);
    assert(with_pixels(h, all) == all);
    lemma_total_sort(w, key, fine);
    if b2.len() + a2.len() < target {
        assert forall|i: int| 0 <= i < fine.len() implies box_sum(w, #[trigger] fine[i]) == 1 by {
            assert(fine[i] == a2[a2.len() - 1 - i]);
            assert(fine[i].fits());
            lemma_whole_box(h, fine[i]);
        }
        lemma_total_ones(w, fine);
        assert(fine.len() == occupied_cells(h));
    } else {
        lemma_no_more_boxes_than_cells(h, fine);
        assert(fine.len() <= total_weight(w, fine));
    }
}

proof fn lemma_no_more_boxes_than_cells(h: Seq<u32>, boxes: Seq<Region>)
    requires
        all_fit(boxes),
        all_hold(h, boxes),
    ensures
        boxes.len() <= total_weight(occupied(h), boxes),
{
    assert forall|i: int| 0 <= i < boxes.len() implies box_sum(occupied(h), #[trigger] boxes[i])
        >= 1 by {
        lemma_occupied_box(h, boxes[i]);
    }
    lemma_total_at_least(occupied(h), boxes);
}

proof fn lemma_joined_hold(h: Seq<u32>, open: Seq<Region>, aside: Seq<Region>)
    requires
        all_hold(h, open),
        all_hold(h, aside),
    ensures
        all_hold(h, open + aside.reverse()),
{
    let joined = open + aside.reverse();
    assert forall|i: int| 0 <= i < joined.len() implies counted(h, #[trigger] joined[i]) > 0 by {
        if i >= open.len() {
            assert(joined[i] == aside[aside.len() - 1 - (i - open.len())]);
        }
    }
}

/// One per cell.
spec fn ones() -> spec_fn(int, int, int) -> nat {
    |r: int, g: int, b: int| 1nat
}

proof fn lemma_ones(region: Region)
    requires
        region.fits(),
    ensures
        1 <= box_sum(ones(), region) <= region.volume(),
{
    let w = ones();
    let (x, y, z) = (region.width(Axis::R), region.width(Axis::G), region.width(Axis::B));
    lemma_box_sum_term(w, region, region.r1, region.g1, region.b1);
    assert(y * z >= 0) by (nonlinear_arith)
        requires
            y >= 0,
            z >= 0,
    ;
    assert forall|r: int, g: int| #[trigger] row_sum(w, r, g, region) <= z by {
        lemma_range_sum_limit(|b: int| w(r, g, b), 1, region.b1, region.b2);
    }
    assert forall|r: int| #[trigger] plane_sum(w, r, region) <= y * z by {
        let f = |g: int| row_sum(w, r, g, region);
        assert forall|g: int| region.g1 <= g <= region.g2 implies #[trigger] f(g) <= z by {
            assert(row_sum(w, r, g, region) <= z);
        }
        lemma_range_sum_limit(f, z as nat, region.g1, region.g2);
    }
    let f = |r: int| plane_sum(w, r, region);
    assert forall|r: int| region.r1 <= r <= region.r2 implies #[trigger] f(r) <= y * z by {
        assert(plane_sum(w, r, region) <= y * z);
    }
    lemma_range_sum_limit(f, (y * z) as nat, region.r1, region.r2);
    assert(x * (y * z) == x * y * z) by (nonlinear_arith);
}

/// The kept halves of a box have at most its cells, fewer if one is gone.
proof fn lemma_kept_cells(h: Seq<u32>, top: Region)
    requires
        top.fits(),
    ensures
        cut(h, top) matches Some((left, Some(right))) ==> {
            let kept = populated(h, left, right);
            2 * total_weight(ones(), kept) - kept.len() < 2 * box_sum(ones(), top) - 1
        },
        cut(h, top) matches Some((left, Some(right))) ==> total_weight(
            ones(),
            populated(h, left, right),
        ) <= box_sum(ones(), top),
{
    lemma_cut_keeps_weight(ones(), h, top);
    if let Some((left, Some(right))) = cut(h, top) {
        lemma_ones(left);
        lemma_ones(right);
        reveal_with_fuel(total_weight, 3);
        assert(seq![left, right].drop_last() =~= seq![left]);
        assert(seq![left].drop_last() =~= Seq::empty());
        assert(seq![right].drop_last() =~= Seq::empty());
    }
}

proof fn lemma_cells_at_least(boxes: Seq<Region>)
    requires
        all_fit(boxes),
    ensures
        boxes.len() <= total_weight(ones(), boxes),
{
    assert forall|i: int| 0 <= i < boxes.len() implies box_sum(ones(), #[trigger] boxes[i])
        >= 1 by {
        lemma_ones(boxes[i]);
    }
    lemma_total_at_least(ones(), boxes);
}

/// Twice the cells, less one per box, are rounds enough.
proof fn lemma_rounds_suffice(
    h: Seq<u32>,
    target: nat,
    rank: Rank,
    boxes: Seq<Region>,
    aside: Seq<Region>,
    rounds: nat,
)
    requires
        all_fit(boxes),
        rounds >= 2 * total_weight(ones(), boxes) - boxes.len(),
    ensures
        !runs_out(h, target, rank, boxes, aside, rounds),
    decreases rounds,
{
    let key = |r: Region| rank.key(h, r);
    let queue = ranked(h, rank, boxes);
    law_sort_by(key, boxes);
    lemma_sort_keeps(|r: Region| r.fits(), key, boxes);
    lemma_total_sort(ones(), key, boxes);
    lemma_cells_at_least(boxes);
    if boxes.len() + aside.len() < target && rounds > 0 && queue.len() > 0 {
        let top = queue.last();
        let rest = queue.drop_last();
        assert(top == queue[queue.len() - 1]);
        assert(top.fits());
        assert(all_fit(rest)) by {
            assert(forall|i: int| 0 <= i < rest.len() ==> #[trigger] rest[i] == queue[i]);
        }
        lemma_cut_keeps_weight(ones(), h, top);
        lemma_kept_cells(h, top);
        lemma_ones(top);
        match cut(h, top) {
            Some((left, Some(right))) => {
                let kept = populated(h, left, right);
                lemma_total_add(ones(), rest, kept);
                assert(all_fit(rest + kept));
                lemma_rounds_suffice(h, target, rank, rest + kept, aside, (rounds - 1) as nat);
            },
            _ => {
                lemma_rounds_suffice(
                    h,
                    target,
                    rank,
                    rest,
                    aside.push(top),
                    (rounds - 1) as nat,
                );
            },
        }
    }
}

/// Splitting never adds cells.
proof fn lemma_rounds_add_no_cells(
    h: Seq<u32>,
    target: nat,
    rank: Rank,
    boxes: Seq<Region>,
    aside: Seq<Region>,
    rounds: nat,
)
    requires
        all_fit(boxes),
    ensures
        ({
            let (b, a) = split_rounds(h, target, rank, boxes, aside, rounds);
            total_weight(ones(), b + a.reverse()) <= total_weight(ones(), boxes) + total_weight(
                ones(),
                aside,
            )
        }),
    decreases rounds,
{
    let key = |r: Region| rank.key(h, r);
    let queue = ranked(h, rank, boxes);
    law_sort_by(key, boxes);
    lemma_sort_keeps(|r: Region| r.fits(), key, boxes);
    lemma_total_sort(ones(), key, boxes);
    lemma_total_add(ones(), boxes, aside.reverse());
    lemma_total_reverse(ones(), aside);
    if !(boxes.len() + aside.len() >= target || rounds == 0) {
        if queue.len() == 0 {
            lemma_total_add(ones(), queue, aside.reverse());
        } else {
            let top = queue.last();
            let rest = queue.drop_last();
            assert(top == queue[queue.len() - 1]);
            assert(top.fits());
            assert(all_fit(rest)) by {
                assert(forall|i: int| 0 <= i < rest.len() ==> #[trigger] rest[i] == queue[i]);
            }
            lemma_total_add(ones(), rest, aside.reverse());
            if counted(h, top) > 0 {
                lemma_cut_keeps_weight(ones(), h, top);
                lemma_kept_cells(h, top);
                match cut(h, top) {
                    Some((left, Some(right))) => {
                        let kept = populated(h, left, right);
                        lemma_total_add(ones(), rest, kept);
                        assert(all_fit(rest + kept));
                        lemma_rounds_add_no_cells(
                            h,
                            target,
                            rank,
                            rest + kept,
                            aside,
                            (rounds - 1) as nat,
                        );
                    },
                    _ => {
                        assert(aside.push(top).drop_last() =~= aside);
                        lemma_rounds_add_no_cells(
                            h,
                            target,
                            rank,
                            rest,
                            aside.push(top),
                            (rounds - 1) as nat,
                        );
                    },
                }
            }
        }
    }
}

/// A frame whose colours span no more than 500 cells is never short of
/// rounds.
pub proof fn law_narrow_frames_have_rounds_enough(pixels: Seq<[u8; 3]>, count: u8)
    requires
        pixels.len() > 0,
        bounding(histogram(pixels)).volume() <= 500,
    ensures
        !fine_phase_runs_out(histogram(pixels), count),
{
    let h = histogram(pixels);
    let w = occupied(h);
    let none = Seq::<Region>::empty();
    let target = box_target(count);
    lemma_any_populated(pixels);
    lemma_bounding(h);
    lemma_ones(bounding(h));
    let start = seq![bounding(h)];
    reveal_with_fuel(total_weight, 2);
    assert(start.drop_last() =~= none);
    let most = ((3 * target + 3) / 4) as nat;
    law_split_conserves(w, h, most, Rank::Population, start);
    lemma_rounds_add_no_cells(h, most, Rank::Population, start, none, MAX_ITERATIONS as nat);
    let coarse = coarse_boxes(h, count);
    // The populated cells are still there, so a box is.
    assert(coarse.len() > 0) by {
        lemma_bounding_holds_all(w, h);
        let (r, g, b) = choose|r: int, g: int, b: int|
            in_space(r, g, b) && h[#[trigger] bin(r, g, b)] > 0;
        lemma_box_sum_term(w, whole(), r, g, b);
    }
    lemma_rounds_suffice(
        h,
        target,
        Rank::PopulationVolume,
        coarse,
        none,
        MAX_ITERATIONS as nat,
    );
}

} // verus!
