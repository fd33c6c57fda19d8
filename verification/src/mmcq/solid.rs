//! Frames of a single colour.

use vstd::prelude::*;

verus! {

use crate::mmcq::box_sums::lemma_box_sum_zero;
use crate::mmcq::fullness::{law_full_count, law_narrow_frames_have_rounds_enough};
use crate::mmcq::histogram::{bounding, histogram, pixel_bin, tally};
use crate::mmcq::laws::{
    emitted, lemma_any_populated, lemma_bounding, lemma_emitted, lemma_emitted_weight, lemma_within,
    occupied, occupied_cells, whole,
};
use crate::mmcq::space::{
    Axis, Region, bin, box_sum, cell_mass, cell_pop, counted, in_space, mean_channel, mean_rgb,
    plane_sum, population, row_sum,
};
use crate::mmcq::sums::{clamp32, range_sum};
use crate::mmcq::workspace::{swatch_of, swatches};

/// The centre of the cell a channel value falls into: 4 past the multiple of
/// 8 below it.
pub open spec fn cell_centre(v: u8) -> u8 {
    (8 * (v as int / 8) + 4) as u8
}

proof fn lemma_tally_solid(pixels: Seq<[u8; 3]>, at: int, i: int)
    requires
        forall|k: int| 0 <= k < pixels.len() ==> pixel_bin(#[trigger] pixels[k]) == at,
    ensures
        tally(pixels, i) == (if i == at {
            pixels.len()
        } else {
            0
        }),
    decreases pixels.len(),
{
    reveal(Seq::filter);
    if pixels.len() > 0 {
        let rest = pixels.drop_last();
        assert forall|k: int| 0 <= k < rest.len() implies pixel_bin(#[trigger] rest[k]) == at by {
            assert(rest[k] == pixels[k]);
        }
        lemma_tally_solid(rest, at, i);
        assert(pixel_bin(pixels[pixels.len() - 1]) == at);
    }
}

/// The sum over a box of a weight that sits on one of its cells.
proof fn lemma_one_cell(
    w: spec_fn(int, int, int) -> nat,
    region: Region,
    x: int,
    y: int,
    z: int,
)
    requires
        region.has(x, y, z),
        forall|r: int, g: int, b: int|
            region.has(r, g, b) && !(r == x && g == y && b == z) ==> #[trigger] w(r, g, b) == 0,
    ensures
        box_sum(w, region) == w(x, y, z),
{
    let cell = Region { r1: x, r2: x, g1: y, g2: y, b1: z, b2: z };
    lemma_within(w, region, cell);
    reveal_with_fuel(range_sum, 2);
    assert(row_sum(w, x, y, cell) == w(x, y, z));
    assert(plane_sum(w, x, cell) == w(x, y, z));
}

/// A frame whose pixels all fall into one cell has one dominant colour: the
/// centre of that cell, with every pixel behind it.
pub proof fn law_solid_frame(pixels: Seq<[u8; 3]>, count: u8)
    requires
        pixels.len() > 0,
        count > 0,
        forall|k: int|
            0 <= k < pixels.len() ==> pixel_bin(#[trigger] pixels[k]) == pixel_bin(pixels[0]),
    ensures
        swatches(pixels, count).len() == 1,
        swatches(pixels, count)[0].population == clamp32(pixels.len()),
        swatches(pixels, count)[0].rgb == [
            cell_centre(pixels[0][0]),
            cell_centre(pixels[0][1]),
            cell_centre(pixels[0][2]),
        ],
{
    let h = histogram(pixels);
    let p = pixels[0];
    let (x, y, z) = (p[0] as int / 8, p[1] as int / 8, p[2] as int / 8);
    let at = bin(x, y, z);
    let n = clamp32(pixels.len());
    assert(in_space(x, y, z));
    lemma_tally_solid(pixels, at, at);
    assert(h[at] == n);
    assert forall|r: int, g: int, b: int|
        in_space(r, g, b) && !(r == x && g == y && b == z) implies h[#[trigger] bin(r, g, b)]
        == 0 by {
        lemma_tally_solid(pixels, at, bin(r, g, b));
        assert(bin(r, g, b) != at);
    }
    lemma_any_populated(pixels);
    lemma_bounding(h);
    let start = bounding(h);
    assert(start.r1 == x && start.r2 == x && start.g1 == y && start.g2 == y && start.b1 == z
        && start.b2 == z);
    assert(start.volume() == 1) by {
        assert(1int * 1int * 1int == 1) by (nonlinear_arith);
    }
    law_narrow_frames_have_rounds_enough(pixels, count);
    law_full_count(pixels, count);
    lemma_one_cell(occupied(h), whole(), x, y, z);
    assert(occupied_cells(h) == 1);
    lemma_emitted(pixels, count);
    lemma_emitted_weight(occupied(h), pixels, count);
    let region = emitted(pixels, count)[0];
    assert(counted(h, region) > 0);
    assert(region.fits());
    if !region.has(x, y, z) {
        assert forall|r: int, g: int, b: int| region.has(r, g, b) implies #[trigger] cell_pop(h)(
            r,
            g,
            b,
        ) == 0 by {
            assert(h[bin(r, g, b)] == 0);
        }
        lemma_box_sum_zero(cell_pop(h), region);
    }
    lemma_solid_mean(h, region, x, y, z);
    assert(swatches(pixels, count)[0] == swatch_of(h, region));
    assert(mean_rgb(h, region) =~= [cell_centre(p[0]), cell_centre(p[1]), cell_centre(p[2])]);
}

/// The colour of a box with a single populated cell is that cell's centre.
pub proof fn lemma_solid_mean(h: Seq<u32>, region: Region, x: int, y: int, z: int)
    requires
        region.fits(),
        region.has(x, y, z),
        h[bin(x, y, z)] > 0,
        forall|r: int, g: int, b: int|
            region.has(r, g, b) && !(r == x && g == y && b == z) ==> h[#[trigger] bin(r, g, b)]
                == 0,
    ensures
        population(h, region) == h[bin(x, y, z)],
        mean_channel(h, region, Axis::R) == 8 * x + 4,
        mean_channel(h, region, Axis::G) == 8 * y + 4,
        mean_channel(h, region, Axis::B) == 8 * z + 4,
{
    let n = h[bin(x, y, z)] as int;
    assert forall|r: int, g: int, b: int|
        region.has(r, g, b) && !(r == x && g == y && b == z) implies #[trigger] cell_pop(h)(
        r,
        g,
        b,
    ) == 0 by {
        assert(h[bin(r, g, b)] == 0);
    }
    lemma_one_cell(cell_pop(h), region, x, y, z);
    assert forall|axis: Axis, r: int, g: int, b: int|
        region.has(r, g, b) && !(r == x && g == y && b == z) implies #[trigger] cell_mass(h, axis)(
        r,
        g,
        b,
    ) == 0 by {
        assert(h[bin(r, g, b)] == 0);
        assert(0 * (8 * r + 4) == 0 && 0 * (8 * g + 4) == 0 && 0 * (8 * b + 4) == 0);
    }
    lemma_one_cell(cell_mass(h, Axis::R), region, x, y, z);
    lemma_one_cell(cell_mass(h, Axis::G), region, x, y, z);
    lemma_one_cell(cell_mass(h, Axis::B), region, x, y, z);
    lemma_quotient(n, 8 * x + 4);
    lemma_quotient(n, 8 * y + 4);
    lemma_quotient(n, 8 * z + 4);
}

proof fn lemma_quotient(n: int, c: int)
    requires
        n > 0,
        c >= 0,
    ensures
        n * c >= 0,
        (n * c) / n == c,
{
    assert(n * c >= 0) by (nonlinear_arith)
        requires
            n > 0,
            c >= 0,
    ;
    vstd::arithmetic::div_mod::lemma_div_multiples_vanish(c, n);
}

} // verus!
