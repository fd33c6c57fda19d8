//! How many rounds splitting takes.
//!
//! A round either sets a box aside, splits it into two boxes with pixels, or
//! trims it: one half holds no pixel and the other takes the box's place.
//! Trims are few, because each uses up slack that a box has along an axis.

use vstd::prelude::*;

verus! {

use crate::mmcq::box_sums::{lemma_box_sum_split, lemma_box_sum_zero};
use crate::mmcq::conserve::{all_fit, law_split_conserves, lemma_cut_keeps_weight};
use crate::mmcq::cut::{
    cut, cut_point, cut_start, lemma_cut_point, lemma_longest_axis, longest_axis, median_from,
    retreat, running, skip_hole,
};
use crate::mmcq::fullness::{coarse_boxes, fine_phase_runs_out, law_full_count, runs_out};
use crate::mmcq::histogram::{any_populated, bounding, histogram};
use crate::mmcq::laws::{lemma_any_populated, lemma_bounding, occupied, occupied_cells, whole};
use crate::mmcq::order::{Rank, ranked};
use crate::mmcq::space::{Axis, Region, bin, cell_pop, counted, in_space, population};
use crate::mmcq::split::{MAX_ITERATIONS, populated};
use crate::mmcq::workspace::{box_target, swatches};
use crate::sorting::{insert_by, law_sort_by, lemma_sort_keeps, sort_by};

/// How often a box can be trimmed along `axis`: not at all if it is one cell
/// wide, once if its pixels all lie in its last slice, else at most twice.
spec fn slack(h: Seq<u32>, region: Region, axis: Axis) -> int {
    if region.width(axis) <= 1 {
        0
    } else if population(h, region.slab(axis, region.lo(axis), region.hi(axis) - 1)) == 0 {
        1
    } else {
        2
    }
}

/// The rounds a box can take without being split: one for each trim, and one
/// to be set aside.
spec fn effort(h: Seq<u32>, region: Region) -> int {
    slack(h, region, Axis::R) + slack(h, region, Axis::G) + slack(h, region, Axis::B) + 1
}

/// The effort of all boxes together.
spec fn total_effort(h: Seq<u32>, boxes: Seq<Region>) -> int
    decreases boxes.len(),
{
    if boxes.len() == 0 {
        0
    } else {
        total_effort(h, boxes.drop_last()) + effort(h, boxes.last())
    }
}

proof fn lemma_effort_push(h: Seq<u32>, boxes: Seq<Region>, x: Region)
    ensures
        total_effort(h, boxes.push(x)) == total_effort(h, boxes) + effort(h, x),
{
    assert(boxes.push(x).drop_last() =~= boxes);
}

proof fn lemma_effort_insert(
    h: Seq<u32>,
    key: spec_fn(Region) -> int,
    boxes: Seq<Region>,
    x: Region,
)
    ensures
        total_effort(h, insert_by(key, boxes, x)) == total_effort(h, boxes) + effort(h, x),
    decreases boxes.len(),
{
    if boxes.len() == 0 || key(boxes.last()) <= key(x) {
        lemma_effort_push(h, boxes, x);
    } else {
        lemma_effort_insert(h, key, boxes.drop_last(), x);
        lemma_effort_push(h, insert_by(key, boxes.drop_last(), x), boxes.last());
    }
}

proof fn lemma_effort_sort(h: Seq<u32>, key: spec_fn(Region) -> int, boxes: Seq<Region>)
    ensures
        total_effort(h, sort_by(key, boxes)) == total_effort(h, boxes),
    decreases boxes.len(),
{
    if boxes.len() > 0 {
        lemma_effort_sort(h, key, boxes.drop_last());
        lemma_effort_insert(h, key, sort_by(key, boxes.drop_last()), boxes.last());
    }
}

proof fn lemma_effort_limit(h: Seq<u32>, boxes: Seq<Region>)
    ensures
        0 <= total_effort(h, boxes) <= 7 * boxes.len(),
    decreases boxes.len(),
{
    if boxes.len() > 0 {
        lemma_effort_limit(h, boxes.drop_last());
    }
}

/// A part of a box, cut off across one axis, has no more slack than the box
/// along the others.
proof fn lemma_slack_across(h: Seq<u32>, region: Region, axis: Axis, lo: int, hi: int, other: Axis)
    requires
        region.lo(axis) <= lo <= hi <= region.hi(axis),
        axis != other,
    ensures
        slack(h, region.slab(axis, lo, hi), other) <= slack(h, region, other),
{
    let w = cell_pop(h);
    let part = region.slab(axis, lo, hi);
    let body = region.slab(other, region.lo(other), region.hi(other) - 1);
    lemma_box_sum_split(w, body, axis, hi);
    let upto = body.slab(axis, body.lo(axis), hi);
    lemma_box_sum_split(w, upto, axis, lo - 1);
    assert(upto.slab(axis, lo, upto.hi(axis)) == part.slab(
        other,
        part.lo(other),
        part.hi(other) - 1,
    ));
}

/// The pixels passed grow along an axis.
proof fn lemma_running_grows(h: Seq<u32>, region: Region, axis: Axis, i: int, j: int)
    requires
        region.lo(axis) - 1 <= i <= j <= region.hi(axis),
    ensures
        population(h, region.slab(axis, region.lo(axis), i)) <= population(
            h,
            region.slab(axis, region.lo(axis), j),
        ),
{
    let upto = region.slab(axis, region.lo(axis), j);
    lemma_box_sum_split(cell_pop(h), upto, axis, i);
    assert(upto.slab(axis, upto.lo(axis), i) == region.slab(axis, region.lo(axis), i));
}

/// Past a hole, a pixel has been passed or the edge is reached.
proof fn lemma_hole_skipped(h: Seq<u32>, region: Region, axis: Axis, d: int)
    requires
        d <= region.hi(axis),
    ensures
        d <= skip_hole(h, region, axis, d) <= region.hi(axis),
        skip_hole(h, region, axis, d) == region.hi(axis) || running(
            h,
            region,
            axis,
            skip_hole(h, region, axis, d),
        ) != 0,
    decreases region.hi(axis) - d,
{
    if d < region.hi(axis) && running(h, region, axis, d) == 0 {
        lemma_hole_skipped(h, region, axis, d + 1);
    }
}

/// Where retreating stops.
proof fn lemma_retreated(h: Seq<u32>, region: Region, axis: Axis, d: int)
    requires
        region.lo(axis) <= d,
        running(h, region, axis, d) != 0,
    ensures
        ({
            let t = retreat(h, region, axis, d);
            &&& region.lo(axis) <= t <= d
            &&& running(h, region, axis, t) != 0
            &&& t == region.lo(axis) || running(h, region, axis, t) != counted(h, region)
                || running(h, region, axis, t - 1) == 0
        }),
    decreases d - region.lo(axis),
{
    if d > region.lo(axis) && running(h, region, axis, d) == counted(h, region) && running(
        h,
        region,
        axis,
        d - 1,
    ) != 0 {
        lemma_retreated(h, region, axis, d - 1);
    }
}

/// What a cut does to the slack along its axis: a half that takes the place
/// of the box has less than the box, and a box that is split had all.
proof fn lemma_slack_along(h: Seq<u32>, region: Region, axis: Axis)
    requires
        region.lo(axis) < region.hi(axis),
        counted(h, region) > 0,
    ensures
        ({
            let d = cut_point(h, region, axis);
            let left = region.slab(axis, region.lo(axis), d);
            let right = region.slab(axis, d + 1, region.hi(axis));
            &&& counted(h, left) == 0 ==> slack(h, right, axis) < slack(h, region, axis)
            &&& counted(h, left) != 0 ==> slack(h, region, axis) == 2
            &&& counted(h, right) == 0 ==> slack(h, left, axis) < slack(h, region, axis)
        }),
{
    let (lo, hi) = (region.lo(axis), region.hi(axis));
    let d = cut_point(h, region, axis);
    let left = region.slab(axis, lo, d);
    let right = region.slab(axis, d + 1, hi);
    lemma_cut_point(h, region, axis);
    lemma_box_sum_split(cell_pop(h), region, axis, d);
    assert(region.slab(axis, lo, hi) == region);
    let i = median_from(h, region, axis, lo);
    let start = cut_start(lo, hi, i);
    lemma_median_within(h, region, axis, lo);
    lemma_hole_skipped(h, region, axis, start);
    let s = skip_hole(h, region, axis, start);
    lemma_retreated(h, region, axis, s);
    lemma_running_grows(h, region, axis, d, hi - 1);
    assert(left.slab(axis, left.lo(axis), left.hi(axis) - 1) == region.slab(axis, lo, d - 1));
}

proof fn lemma_median_within(h: Seq<u32>, region: Region, axis: Axis, i: int)
    requires
        i <= region.hi(axis),
    ensures
        i <= median_from(h, region, axis, i) <= region.hi(axis),
    decreases region.hi(axis) - i,
{
    if !(i >= region.hi(axis) || running(h, region, axis, i) > counted(h, region) / 2) {
        lemma_median_within(h, region, axis, i + 1);
    }
}

/// What a cut does to the effort: trimming lowers it, and splitting adds no
/// more than one box's.
proof fn lemma_cut_effort(h: Seq<u32>, top: Region)
    requires
        top.fits(),
    ensures
        cut(h, top) matches Some((left, Some(right))) ==> {
            let kept = populated(h, left, right);
            &&& kept.len() == 1 ==> total_effort(h, kept) < effort(h, top)
            &&& kept.len() == 2 ==> total_effort(h, kept) <= effort(h, top) + 7
            &&& 1 <= kept.len() <= 2
        },
{
    if let Some((left, Some(right))) = cut(h, top) {
        let axis = longest_axis(top);
        lemma_longest_axis(top);
        lemma_slack_along(h, top, axis);
        lemma_cut_point(h, top, axis);
        let d = cut_point(h, top, axis);
        assert forall|other: Axis| other != axis implies #[trigger] slack(h, left, other) <= slack(
            h,
            top,
            other,
        ) && slack(h, right, other) <= slack(h, top, other) by {
            lemma_slack_across(h, top, axis, top.lo(axis), d, other);
            lemma_slack_across(h, top, axis, d + 1, top.hi(axis), other);
        }
        lemma_cut_keeps_weight(cell_pop(h), h, top);
        assert(axis == Axis::R || slack(h, left, Axis::R) <= slack(h, top, Axis::R));
        assert(axis == Axis::G || slack(h, left, Axis::G) <= slack(h, top, Axis::G));
        assert(axis == Axis::B || slack(h, left, Axis::B) <= slack(h, top, Axis::B));
        reveal_with_fuel(total_effort, 3);
        assert(seq![left, right].drop_last() =~= seq![left]);
        assert(seq![left].drop_last() =~= Seq::empty());
        assert(seq![right].drop_last() =~= Seq::empty());
    }
}

/// The effort of the boxes, and eight for each box that is still missing, are
/// rounds enough.
proof fn lemma_effort_suffices(
    h: Seq<u32>,
    target: nat,
    rank: Rank,
    boxes: Seq<Region>,
    aside: Seq<Region>,
    rounds: nat,
)
    requires
        all_fit(boxes),
        rounds >= total_effort(h, boxes) + 8 * (target - boxes.len() - aside.len()),
    ensures
        !runs_out(h, target, rank, boxes, aside, rounds),
    decreases rounds,
{
    let key = |r: Region| rank.key(h, r);
    let queue = ranked(h, rank, boxes);
    law_sort_by(key, boxes);
    lemma_sort_keeps(|r: Region| r.fits(), key, boxes);
    lemma_effort_sort(h, key, boxes);
    lemma_effort_limit(h, boxes);
    if boxes.len() + aside.len() < target && rounds > 0 && queue.len() > 0 {
        let top = queue.last();
        let rest = queue.drop_last();
        assert(top == queue[queue.len() - 1]);
        assert(top.fits());
        assert(all_fit(rest)) by {
            assert(forall|i: int| 0 <= i < rest.len() ==> #[trigger] rest[i] == queue[i]);
        }
        lemma_cut_effort(h, top);
        lemma_cut_keeps_weight(cell_pop(h), h, top);
        match cut(h, top) {
            Some((left, Some(right))) => {
                let kept = populated(h, left, right);
                lemma_effort_add(h, rest, kept);
                assert(all_fit(rest + kept));
                lemma_effort_suffices(h, target, rank, rest + kept, aside, (rounds - 1) as nat);
            },
            _ => {
                lemma_effort_suffices(
                    h,
                    target,
                    rank,
                    rest,
                    aside.push(top),
                    (rounds - 1) as nat,
                );
            },
        }
    }
}

proof fn lemma_effort_add(h: Seq<u32>, one: Seq<Region>, other: Seq<Region>)
    ensures
        total_effort(h, one + other) == total_effort(h, one) + total_effort(h, other),
    decreases other.len(),
{
    if other.len() == 0 {
        assert(one + other =~= one);
    } else {
        assert((one + other).drop_last() =~= one + other.drop_last());
        lemma_effort_add(h, one, other.drop_last());
    }
}

/// Counts up to 125 are never short of rounds, on any frame.
pub proof fn law_small_counts_have_rounds_enough(pixels: Seq<[u8; 3]>, count: u8)
    requires
        pixels.len() > 0,
        count <= 125,
    ensures
        !fine_phase_runs_out(histogram(pixels), count),
{
    let h = histogram(pixels);
    let target = box_target(count);
    lemma_any_populated(pixels);
    lemma_bounding(h);
    let start = seq![bounding(h)];
    let most = ((3 * target + 3) / 4) as nat;
    law_split_conserves(occupied(h), h, most, Rank::Population, start);
    let coarse = coarse_boxes(h, count);
    lemma_effort_limit(h, coarse);
    lemma_effort_suffices(
        h,
        target,
        Rank::PopulationVolume,
        coarse,
        Seq::empty(),
        MAX_ITERATIONS as nat,
    );
}

/// For counts up to 125 every frame gives as many colours as were asked for,
/// or as many as it has populated cells if they are fewer.
pub proof fn law_small_counts_are_met(pixels: Seq<[u8; 3]>, count: u8)
    requires
        count <= 125,
    ensures
        swatches(pixels, count).len() == (if occupied_cells(histogram(pixels)) < count {
            occupied_cells(histogram(pixels))
        } else {
            count as nat
        }),
{
    if pixels.len() > 0 {
        law_small_counts_have_rounds_enough(pixels, count);
        law_full_count(pixels, count);
    } else {
        let h = histogram(pixels);
        lemma_any_populated(pixels);
        assert forall|r: int, g: int, b: int| whole().has(r, g, b) implies #[trigger] occupied(h)(
            r,
            g,
            b,
        ) == 0 by {
            if in_space(r, g, b) && h[bin(r, g, b)] > 0 {
                assert(any_populated(h));
            }
        }
        lemma_box_sum_zero(occupied(h), whole());
    }
}

} // verus!
