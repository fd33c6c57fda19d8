//! Frames of no more distinct cells than colours asked for.

use vstd::prelude::*;

verus! {

use crate::dominant::Swatch;
use crate::mmcq::box_sums::{lemma_box_sum_split, lemma_box_sum_term, lemma_box_sum_zero};
use crate::mmcq::conserve::{all_fit, total_weight};
use crate::mmcq::fullness::{fine_phase_runs_out, law_full_count};
use crate::mmcq::histogram::{any_populated, histogram};
use crate::mmcq::laws::{
    emitted, law_quantized_conserves, lemma_any_populated, lemma_emitted, lemma_emitted_weight,
    lemma_mark, lemma_occupied_box, lemma_total_at_least, lemma_total_pair, lemma_total_source,
    mark, occupied, occupied_cells, whole,
};
use crate::mmcq::rounds::law_small_counts_have_rounds_enough;
use crate::mmcq::shares::lemma_total_with_pixels;
use crate::mmcq::solid::lemma_solid_mean;
use crate::mmcq::space::{Axis, Region, bin, box_sum, counted, in_space, mean_rgb};
use crate::mmcq::workspace::{quantized, swatch_of, swatches, with_pixels};

/// The colour of one cell: its centre, with its pixels.
pub open spec fn cell_swatch(h: Seq<u32>, r: int, g: int, b: int) -> Swatch {
    Swatch {
        rgb: [(8 * r + 4) as u8, (8 * g + 4) as u8, (8 * b + 4) as u8],
        population: h[bin(r, g, b)],
    }
}

/// Whether the box holds the populated cell and no other.
spec fn holds_only(h: Seq<u32>, region: Region, x: int, y: int, z: int) -> bool {
    &&& region.has(x, y, z)
    &&& h[bin(x, y, z)] > 0
    &&& forall|r: int, g: int, b: int|
        region.has(r, g, b) && !(r == x && g == y && b == z) ==> h[#[trigger] bin(r, g, b)] == 0
}

/// Two populated cells of a box count twice.
proof fn lemma_two_cells(
    h: Seq<u32>,
    region: Region,
    x: int,
    y: int,
    z: int,
    r: int,
    g: int,
    b: int,
)
    requires
        region.fits(),
        region.has(x, y, z),
        region.has(r, g, b),
        h[bin(x, y, z)] > 0,
        h[bin(r, g, b)] > 0,
        !(r == x && g == y && b == z),
    ensures
        box_sum(occupied(h), region) >= 2,
{
    let w = occupied(h);
    let (axis, i, j) = if r != x {
        (Axis::R, x, r)
    } else if g != y {
        (Axis::G, y, g)
    } else {
        (Axis::B, z, b)
    };
    let d = if i < j {
        i
    } else {
        j
    };
    lemma_box_sum_split(w, region, axis, d);
    let low = region.slab(axis, region.lo(axis), d);
    let high = region.slab(axis, d + 1, region.hi(axis));
    if i < j {
        lemma_box_sum_term(w, low, x, y, z);
        lemma_box_sum_term(w, high, r, g, b);
    } else {
        lemma_box_sum_term(w, high, x, y, z);
        lemma_box_sum_term(w, low, r, g, b);
    }
}

/// A box with one populated cell has the colour and the pixels of that cell.
proof fn lemma_single_cell(h: Seq<u32>, region: Region) -> (cell: (int, int, int))
    requires
        region.fits(),
        box_sum(occupied(h), region) == 1,
    ensures
        holds_only(h, region, cell.0, cell.1, cell.2),
        swatch_of(h, region) == cell_swatch(h, cell.0, cell.1, cell.2),
{
    let w = occupied(h);
    if forall|r: int, g: int, b: int| region.has(r, g, b) ==> #[trigger] w(r, g, b) == 0 {
        lemma_box_sum_zero(w, region);
    }
    let (x, y, z) = choose|r: int, g: int, b: int|
        region.has(r, g, b) && #[trigger] w(r, g, b) != 0;
    assert forall|r: int, g: int, b: int|
        region.has(r, g, b) && !(r == x && g == y && b == z) implies h[#[trigger] bin(r, g, b)]
        == 0 by {
        if h[bin(r, g, b)] > 0 {
            lemma_two_cells(h, region, x, y, z, r, g, b);
        }
    }
    lemma_solid_mean(h, region, x, y, z);
    assert(mean_rgb(h, region) =~= cell_swatch(h, x, y, z).rgb);
    (x, y, z)
}

/// Where boxes number as many as the cells they hold, each holds one.
proof fn lemma_one_each(w: spec_fn(int, int, int) -> nat, boxes: Seq<Region>, k: int)
    requires
        forall|i: int| 0 <= i < boxes.len() ==> box_sum(w, #[trigger] boxes[i]) >= 1,
        total_weight(w, boxes) <= boxes.len(),
        0 <= k < boxes.len(),
    ensures
        box_sum(w, boxes[k]) == 1,
    decreases boxes.len(),
{
    let rest = boxes.drop_last();
    assert forall|i: int| 0 <= i < rest.len() implies box_sum(w, #[trigger] rest[i]) >= 1 by {
        assert(rest[i] == boxes[i]);
    }
    assert(box_sum(w, boxes[boxes.len() - 1]) >= 1);
    lemma_total_at_least(w, rest);
    if k < rest.len() {
        lemma_one_each(w, rest, k);
        assert(rest[k] == boxes[k]);
    }
}

/// Where the cells do not outnumber the colours asked for, no box with
/// pixels is left out.
proof fn lemma_all_emitted(pixels: Seq<[u8; 3]>, count: u8)
    requires
        pixels.len() > 0,
        occupied_cells(histogram(pixels)) <= count,
        count > 0,
    ensures
        emitted(pixels, count) == with_pixels(
            histogram(pixels),
            quantized(histogram(pixels), count),
        ),
        all_fit(emitted(pixels, count)),
{
    let h = histogram(pixels);
    let w = occupied(h);
    lemma_any_populated(pixels);
    lemma_emitted_weight(w, pixels, count);
    law_quantized_conserves(w, h, count);
    let all = quantized(h, count);
    let f = |r: Region| counted(h, r) > 0;
    let full = with_pixels(h, all);
    lemma_total_with_pixels(w, h, all);
    assert forall|i: int| 0 <= i < full.len() implies box_sum(w, #[trigger] full[i]) >= 1 by {
        all.lemma_filter_pred(f, i);
        all.lemma_filter_contains_rev(f, full[i]);
        lemma_occupied_box(h, full[i]);
    }
    lemma_total_at_least(w, full);
}

/// A frame whose pixels fall into no more cells than colours were asked for
/// has one dominant colour for each of its cells: the cell's centre, with the
/// cell's pixels behind it. (Unless, for counts above 125, the second phase
/// of splitting stops for want of rounds.)
pub proof fn law_one_colour_per_cell(pixels: Seq<[u8; 3]>, count: u8)
    requires
        occupied_cells(histogram(pixels)) <= count,
        pixels.len() > 0,
        count <= 125 || !fine_phase_runs_out(histogram(pixels), count),
    ensures
        swatches(pixels, count).len() == occupied_cells(histogram(pixels)),
        forall|i: int|
            0 <= i < swatches(pixels, count).len() ==> exists|r: int, g: int, b: int|
                in_space(r, g, b) && histogram(pixels)[bin(r, g, b)] > 0 && #[trigger] swatches(
                    pixels,
                    count,
                )[i] == #[trigger] cell_swatch(histogram(pixels), r, g, b),
        forall|r: int, g: int, b: int|
            in_space(r, g, b) && histogram(pixels)[#[trigger] bin(r, g, b)] > 0 ==> swatches(
                pixels,
                count,
            ).contains(cell_swatch(histogram(pixels), r, g, b)),
        forall|i: int, j: int|
            0 <= i < j < swatches(pixels, count).len() ==> (#[trigger] swatches(
                pixels,
                count,
            )[i]).rgb != (#[trigger] swatches(pixels, count)[j]).rgb,
{
    let h = histogram(pixels);
    let w = occupied(h);
    let found = swatches(pixels, count);
    let boxes = emitted(pixels, count);
    lemma_any_populated(pixels);
    assert(any_populated(h));
    let (x, y, z) = choose|r: int, g: int, b: int|
        in_space(r, g, b) && h[#[trigger] bin(r, g, b)] > 0;
    lemma_box_sum_term(w, whole(), x, y, z);
    if count <= 125 {
        law_small_counts_have_rounds_enough(pixels, count);
    }
    law_full_count(pixels, count);
    lemma_all_emitted(pixels, count);
    lemma_emitted(pixels, count);
    lemma_emitted_weight(w, pixels, count);
    assert forall|i: int| 0 <= i < boxes.len() implies box_sum(w, #[trigger] boxes[i]) >= 1 by {
        lemma_occupied_box(h, boxes[i]);
    }
    assert forall|i: int| 0 <= i < found.len() implies exists|r: int, g: int, b: int|
        in_space(r, g, b) && h[bin(r, g, b)] > 0 && #[trigger] found[i] == #[trigger] cell_swatch(
            h,
            r,
            g,
            b,
        ) by {
        lemma_one_each(w, boxes, i);
        let (r, g, b) = lemma_single_cell(h, boxes[i]);
        assert(boxes[i].fits());
        assert(found[i] == cell_swatch(h, r, g, b));
    }
    assert forall|r: int, g: int, b: int|
        in_space(r, g, b) && h[#[trigger] bin(r, g, b)] > 0 implies found.contains(
        cell_swatch(h, r, g, b),
    ) by {
        let m = mark(r, g, b);
        law_quantized_conserves(m, h, count);
        lemma_total_with_pixels(m, h, quantized(h, count));
        lemma_mark(whole(), r, g, b);
        lemma_total_source(m, boxes);
        let i = choose|i: int| 0 <= i < boxes.len() && box_sum(m, #[trigger] boxes[i]) > 0;
        lemma_mark(boxes[i], r, g, b);
        lemma_one_each(w, boxes, i);
        let c = lemma_single_cell(h, boxes[i]);
        assert(r == c.0 && g == c.1 && b == c.2);
        assert(found[i] == cell_swatch(h, r, g, b));
    }
    assert forall|i: int, j: int| 0 <= i < j < found.len() implies (#[trigger] found[i]).rgb != (
    #[trigger] found[j]).rgb by {
        lemma_apart(pixels, count, i, j);
    }
}

/// Boxes of one cell each have colours of their own.
proof fn lemma_apart(pixels: Seq<[u8; 3]>, count: u8, i: int, j: int)
    requires
        0 <= i < j < emitted(pixels, count).len(),
        all_fit(emitted(pixels, count)),
        forall|k: int|
            0 <= k < emitted(pixels, count).len() ==> box_sum(
                occupied(histogram(pixels)),
                #[trigger] emitted(pixels, count)[k],
            ) >= 1,
        total_weight(occupied(histogram(pixels)), emitted(pixels, count)) <= emitted(
            pixels,
            count,
        ).len(),
    ensures
        swatches(pixels, count)[i].rgb != swatches(pixels, count)[j].rgb,
{
    let h = histogram(pixels);
    let boxes = emitted(pixels, count);
    lemma_emitted(pixels, count);
    lemma_one_each(occupied(h), boxes, i);
    lemma_one_each(occupied(h), boxes, j);
    let (r, g, b) = lemma_single_cell(h, boxes[i]);
    let (x, y, z) = lemma_single_cell(h, boxes[j]);
    if r == x && g == y && b == z {
        let m = mark(r, g, b);
        lemma_emitted_weight(m, pixels, count);
        lemma_total_pair(m, boxes, i, j);
        lemma_mark(whole(), r, g, b);
        lemma_mark(boxes[i], r, g, b);
        lemma_mark(boxes[j], r, g, b);
    }
    assert(cell_swatch(h, r, g, b).rgb[0] == 8 * r + 4);
    assert(cell_swatch(h, r, g, b).rgb[1] == 8 * g + 4);
    assert(cell_swatch(h, r, g, b).rgb[2] == 8 * b + 4);
    assert(cell_swatch(h, x, y, z).rgb[0] == 8 * x + 4);
    assert(cell_swatch(h, x, y, z).rgb[1] == 8 * y + 4);
    assert(cell_swatch(h, x, y, z).rgb[2] == 8 * z + 4);
}

} // verus!
