//! Where a box is cut, and in what order boxes are.

use vstd::prelude::*;

verus! {

use crate::mmcq::cut::{
    cut, cut_point, cut_start, longest_axis, median_cut, median_from, retreat, running, skip_hole,
};
use crate::mmcq::histogram::{any_populated, bounding, histogram};
use crate::mmcq::laws::lemma_any_populated;
use crate::mmcq::order::{Rank, ranked};
use crate::mmcq::space::{Axis, Region, counted, mean_rgb};
use crate::mmcq::split::{split_rounds, split_until};
use crate::mmcq::vbox::VBox;
use crate::mmcq::workspace::{frame_total, swatches};

/// The part of the box with red, green or blue coordinates up to `i`.
pub open spec fn part_upto(region: Region, axis: Axis, i: int) -> Region {
    match axis {
        Axis::R => Region { r2: i, ..region },
        Axis::G => Region { g2: i, ..region },
        Axis::B => Region { b2: i, ..region },
    }
}

/// The part of the box with red, green or blue coordinates from `i` on.
pub open spec fn part_from(region: Region, axis: Axis, i: int) -> Region {
    match axis {
        Axis::R => Region { r1: i, ..region },
        Axis::G => Region { g1: i, ..region },
        Axis::B => Region { b1: i, ..region },
    }
}

/// Whether `axis` is the one that a box with the given sides is cut across:
/// the longest side, red before green before blue among equals.
pub open spec fn is_cut_axis(axis: Axis, red: int, green: int, blue: int) -> bool {
    match axis {
        Axis::R => red >= green && red >= blue,
        Axis::G => green > red && green >= blue,
        Axis::B => blue > red && blue > green,
    }
}

/// What comes of cutting a box: nothing if it has no pixel, itself if it has
/// one pixel or one cell, else two parts.
pub proof fn law_cut_or_whole(vbox: VBox, histo: &[u32], parts: Option<(VBox, Option<VBox>)>)
    requires
        vbox.valid(histo@),
        call_ensures(median_cut, (&vbox, histo), parts),
    ensures
        parts is None <==> counted(histo@, vbox@) == 0,
        (parts matches Some((left, None))) <==> counted(histo@, vbox@) == 1 || (counted(
            histo@,
            vbox@,
        ) > 1 && vbox.r1 == vbox.r2 && vbox.g1 == vbox.g2 && vbox.b1 == vbox.b2),
        parts matches Some((left, None)) ==> left == vbox,
{
    crate::mmcq::cut::lemma_longest_axis(vbox@);
}

/// Where a box is cut. `median` is the first coordinate along the longest
/// side by which more than half of the pixels have been passed. From it the
/// cut moves half way to the farther end (`start`), on past cells without
/// pixels (`filled`), and back while all pixels lie at or before it and some
/// before it (`last`). The lower part ends there, or one short of the end of
/// the side.
pub proof fn law_cut_place(
    vbox: VBox,
    histo: &[u32],
    parts: Option<(VBox, Option<VBox>)>,
    axis: Axis,
    lo: int,
    hi: int,
    median: int,
    start: int,
    filled: int,
    last: int,
)
    requires
        vbox.valid(histo@),
        call_ensures(median_cut, (&vbox, histo), parts),
        counted(histo@, vbox@) > 1,
        is_cut_axis(
            axis,
            vbox.r2 - vbox.r1,
            vbox.g2 - vbox.g1,
            vbox.b2 - vbox.b1,
        ),
        lo == (match axis {
            Axis::R => vbox.r1 as int,
            Axis::G => vbox.g1 as int,
            Axis::B => vbox.b1 as int,
        }),
        hi == (match axis {
            Axis::R => vbox.r2 as int,
            Axis::G => vbox.g2 as int,
            Axis::B => vbox.b2 as int,
        }),
        lo < hi,
        lo <= median <= hi,
        median < hi ==> 2 * counted(histo@, part_upto(vbox@, axis, median)) > counted(
            histo@,
            vbox@,
        ),
        forall|i: int|
            lo <= i < median ==> 2 * counted(histo@, #[trigger] part_upto(vbox@, axis, i))
                <= counted(histo@, vbox@),
        start == (if median - lo <= hi - median {
            if median + (hi - median) / 2 >= hi {
                hi - 1
            } else {
                median + (hi - median) / 2
            }
        } else {
            if median - 1 - (median - lo) / 2 <= lo {
                lo
            } else {
                median - 1 - (median - lo) / 2
            }
        }),
        start <= filled <= hi,
        filled < hi ==> counted(histo@, part_upto(vbox@, axis, filled)) > 0,
        forall|i: int|
            start <= i < filled ==> counted(histo@, #[trigger] part_upto(vbox@, axis, i)) == 0,
        lo <= last <= filled,
        forall|i: int|
            last < i <= filled ==> counted(histo@, #[trigger] part_upto(vbox@, axis, i)) == counted(
                histo@,
                vbox@,
            ),
        forall|i: int|
            last <= i < filled ==> counted(histo@, #[trigger] part_upto(vbox@, axis, i)) > 0,
        last == lo || counted(histo@, part_upto(vbox@, axis, last)) != counted(histo@, vbox@)
            || counted(histo@, part_upto(vbox@, axis, last - 1)) == 0,
    ensures
        parts matches Some((left, Some(right))) && {
            let d = if last == hi {
                hi - 1
            } else {
                last
            };
            &&& left@ == part_upto(vbox@, axis, d)
            &&& right@ == part_from(vbox@, axis, d + 1)
        },
{
    let h = histo@;
    let region = vbox@;
    assert(longest_axis(region) == axis);
    assert(region.lo(axis) == lo && region.hi(axis) == hi);
    assert forall|i: int| #[trigger] running(h, region, axis, i) == counted(
        h,
        part_upto(region, axis, i),
    ) by {
        assert(region.slab(axis, lo, i) == part_upto(region, axis, i));
    }
    lemma_median(h, region, axis, lo, median);
    assert(cut_start(lo, hi, median) == start);
    lemma_filled(h, region, axis, start, filled);
    lemma_last(h, region, axis, filled, last);
    crate::mmcq::cut::lemma_longest_axis(region);
    let d = cut_point(h, region, axis);
    assert(region.slab(axis, lo, d) == part_upto(region, axis, d));
    assert(region.slab(axis, d + 1, hi) == part_from(region, axis, d + 1));
}

proof fn lemma_median(h: Seq<u32>, region: Region, axis: Axis, from: int, m: int)
    requires
        from <= m <= region.hi(axis),
        m < region.hi(axis) ==> 2 * running(h, region, axis, m) > counted(h, region),
        forall|i: int|
            from <= i < m ==> 2 * #[trigger] running(h, region, axis, i) <= counted(h, region),
    ensures
        median_from(h, region, axis, from) == m,
    decreases m - from,
{
    if from < m {
        assert(2 * running(h, region, axis, from) <= counted(h, region));
        lemma_median(h, region, axis, from + 1, m);
    }
}

proof fn lemma_filled(h: Seq<u32>, region: Region, axis: Axis, from: int, t: int)
    requires
        from <= t <= region.hi(axis),
        t < region.hi(axis) ==> running(h, region, axis, t) > 0,
        forall|i: int| from <= i < t ==> #[trigger] running(h, region, axis, i) == 0,
    ensures
        skip_hole(h, region, axis, from) == t,
    decreases t - from,
{
    if from < t {
        assert(running(h, region, axis, from) == 0);
        lemma_filled(h, region, axis, from + 1, t);
    }
}

proof fn lemma_last(h: Seq<u32>, region: Region, axis: Axis, from: int, t: int)
    requires
        region.lo(axis) <= t <= from,
        forall|i: int|
            t < i <= from ==> #[trigger] running(h, region, axis, i) == counted(h, region),
        forall|i: int| t <= i < from ==> #[trigger] running(h, region, axis, i) > 0,
        t == region.lo(axis) || running(h, region, axis, t) != counted(h, region) || running(
            h,
            region,
            axis,
            t - 1,
        ) == 0,
    ensures
        retreat(h, region, axis, from) == t,
    decreases from - t,
{
    if t < from {
        assert(running(h, region, axis, from) == counted(h, region));
        assert(running(h, region, axis, from - 1) > 0);
        lemma_last(h, region, axis, from - 1, t);
    }
}

/// The two parts of a cut make up the box: they meet at one coordinate along
/// one axis, and share the pixels out.
pub proof fn law_parts_make_up_the_box(
    vbox: VBox,
    histo: &[u32],
    left: VBox,
    right: VBox,
)
    requires
        vbox.valid(histo@),
        call_ensures(median_cut, (&vbox, histo), Some((left, Some(right)))),
    ensures
        exists|axis: Axis, d: int|
            {
                &&& #[trigger] part_upto(vbox@, axis, d) == left@
                &&& part_from(vbox@, axis, d + 1) == right@
                &&& is_cut_axis(
                    axis,
                    vbox.r2 - vbox.r1,
                    vbox.g2 - vbox.g1,
                    vbox.b2 - vbox.b1,
                )
            },
        left@.fits(),
        right@.fits(),
        crate::mmcq::space::population(histo@, vbox@) == crate::mmcq::space::population(
            histo@,
            left@,
        ) + crate::mmcq::space::population(histo@, right@),
{
    let h = histo@;
    let region = vbox@;
    let axis = longest_axis(region);
    crate::mmcq::conserve::lemma_cut_keeps_weight(
        crate::mmcq::space::cell_pop(h),
        h,
        region,
    );
    let d = cut_point(h, region, axis);
    assert(part_upto(region, axis, d) == left@);
    assert(part_from(region, axis, d + 1) == right@);
}

/// One round of splitting. Nothing is done where there are boxes enough, no
/// rounds are left, or no box can be split. Else the box of the highest rank
/// is taken: splitting stops if it has no pixel; it is set aside if it cannot
/// be cut; else its parts with pixels take its place.
pub proof fn law_one_round(
    h: Seq<u32>,
    target: nat,
    rank: Rank,
    boxes: Seq<Region>,
    aside: Seq<Region>,
    rounds: nat,
    rest: Seq<Region>,
    top: Region,
)
    ensures
        boxes.len() + aside.len() >= target ==> split_rounds(
            h,
            target,
            rank,
            boxes,
            aside,
            rounds,
        ) == (boxes, aside),
        split_rounds(h, target, rank, boxes, aside, 0) == (boxes, aside),
        boxes.len() == 0 ==> split_rounds(h, target, rank, boxes, aside, rounds) == (
            boxes,
            aside,
        ),
        boxes.len() + aside.len() < target && rounds > 0 && ranked(h, rank, boxes) == rest.push(top)
            ==> split_rounds(h, target, rank, boxes, aside, rounds) == (if counted(h, top) == 0 {
            (rest, aside)
        } else {
            match cut(h, top) {
                Some((left, Some(right))) => split_rounds(
                    h,
                    target,
                    rank,
                    rest + (if counted(h, left) == 0 {
                        seq![right]
                    } else if counted(h, right) == 0 {
                        seq![left]
                    } else {
                        seq![left, right]
                    }),
                    aside,
                    (rounds - 1) as nat,
                ),
                _ => split_rounds(h, target, rank, rest, aside.push(top), (rounds - 1) as nat),
            }
        }),
{
    if ranked(h, rank, boxes) == rest.push(top) {
        assert(rest.push(top).drop_last() =~= rest);
    }
    if boxes.len() == 0 {
        crate::sorting::law_sort_by(|r: Region| rank.key(h, r), boxes);
        assert(ranked(h, rank, boxes) =~= boxes);
    }
}

/// A phase of splitting takes up to a thousand rounds, and ends with the
/// boxes that could still be split before those set aside, the latest first.
pub proof fn law_a_phase(h: Seq<u32>, target: nat, rank: Rank, boxes: Seq<Region>, i: int)
    ensures
        ({
            let (open, aside) = split_rounds(h, target, rank, boxes, Seq::empty(), 1000);
            let out = split_until(h, target, rank, boxes);
            &&& out.len() == open.len() + aside.len()
            &&& 0 <= i < open.len() ==> out[i] == open[i]
            &&& 0 <= i < aside.len() ==> out[open.len() + i] == aside[aside.len() - 1 - i]
        }),
{
}

/// The dominant colours of a frame come out of two phases: the smallest box
/// around its cells is split by population to three quarters of the target,
/// rounded up, then by population times volume to the target, which is the
/// count but at least two. The boxes with pixels, the most populous first,
/// give the colours, and no more than asked for.
pub proof fn law_extraction_in_two_phases(pixels: Seq<[u8; 3]>, count: u8, most: nat)
    requires
        pixels.len() > 0,
        count > 0,
        4 * most >= 3 * (if count == 1 {
            2
        } else {
            count as int
        }),
        4 * most < 3 * (if count == 1 {
            2
        } else {
            count as int
        }) + 4,
    ensures
        ({
            let h = histogram(pixels);
            let target: nat = if count == 1 {
                2
            } else {
                count as nat
            };
            let coarse = split_until(h, most, Rank::Population, seq![bounding(h)]);
            let fine = split_until(h, target, Rank::PopulationVolume, coarse);
            let held = ranked(h, Rank::Scarcity, fine).filter(|r: Region| counted(h, r) > 0);
            &&& swatches(pixels, count).len() == (if held.len() < count {
                held.len()
            } else {
                count as nat
            })
            &&& forall|i: int|
                0 <= i < swatches(pixels, count).len() ==> (#[trigger] swatches(
                    pixels,
                    count,
                )[i]).rgb == mean_rgb(h, held[i]) && swatches(pixels, count)[i].population
                    == counted(h, held[i])
        }),
{
    lemma_any_populated(pixels);
    assert(any_populated(histogram(pixels)));
}

/// Nothing comes of a count of zero or a frame without pixels.
pub proof fn law_nothing_of_nothing(pixels: Seq<[u8; 3]>, count: u8)
    requires
        pixels.len() == 0 || count == 0,
    ensures
        swatches(pixels, count).len() == 0,
{
    lemma_any_populated(pixels);
}

/// A frame's pixels are all its bins added up, held at the largest `u32`.
pub proof fn law_frame_total_saturates(pixels: Seq<[u8; 3]>)
    ensures
        crate::mmcq::box_laws::added_up(histogram(pixels)) <= u32::MAX ==> frame_total(pixels)
            == crate::mmcq::box_laws::added_up(histogram(pixels)),
        crate::mmcq::box_laws::added_up(histogram(pixels)) > u32::MAX ==> frame_total(pixels)
            == u32::MAX,
{
    crate::mmcq::box_laws::lemma_added_up(histogram(pixels));
}

} // verus!
