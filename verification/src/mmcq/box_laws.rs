//! What the numbers of a box say of the pixels in it.

use vstd::prelude::*;

verus! {

use crate::mmcq::box_sums::{lemma_box_sum_same, lemma_box_sum_split};
use crate::mmcq::histogram::{
    any_populated, bounds, histogram, initial_vbox, pixel_bin, pixel_cell, tally,
};
use crate::mmcq::laws::{emitted, lemma_emitted, lemma_emitted_weight, pixels_at};
use crate::mmcq::order::{Rank, ranked};
use crate::mmcq::simd;
use crate::mmcq::space::{
    Axis, HISTO_LEVELS, HISTO_SIZE, RSHIFT, Region, SIGBITS, bin, box_sum, cell_mass, cell_pop,
    counted, in_space, mean_channel, mean_rgb, plane_sum, population, row_sum,
};
use crate::mmcq::sums::{range_sum, seq_sum};
use crate::mmcq::vbox::{VBox, histo_index, lemma_mean_is_byte};
use crate::mmcq::workspace::swatches;
use crate::sorting::{law_equals_keep_their_order, law_sort_by};

/// The box of one cell.
pub open spec fn one_cell(r: int, g: int, b: int) -> Region {
    Region { r1: r, r2: r, g1: g, g2: g, b1: b, b2: b }
}

/// A sum over a box is what the word says: over one cell it is the weight of
/// that cell, and over a box cut in two, along any axis, it is the sum over
/// both parts.
pub proof fn law_box_sums_add_up(w: spec_fn(int, int, int) -> nat, region: Region, d: int)
    ensures
        forall|r: int, g: int, b: int|
            box_sum(w, #[trigger] one_cell(r, g, b)) == w(r, g, b),
        region.r1 <= d + 1 && d <= region.r2 ==> box_sum(w, region) == box_sum(
            w,
            (Region { r2: d, ..region }),
        ) + box_sum(w, (Region { r1: d + 1, ..region })),
        region.g1 <= d + 1 && d <= region.g2 ==> box_sum(w, region) == box_sum(
            w,
            (Region { g2: d, ..region }),
        ) + box_sum(w, (Region { g1: d + 1, ..region })),
        region.b1 <= d + 1 && d <= region.b2 ==> box_sum(w, region) == box_sum(
            w,
            (Region { b2: d, ..region }),
        ) + box_sum(w, (Region { b1: d + 1, ..region })),
        region.r1 > region.r2 ==> box_sum(w, region) == 0,
{
    assert forall|r: int, g: int, b: int| box_sum(w, #[trigger] one_cell(r, g, b)) == w(r, g, b) by {
        reveal_with_fuel(range_sum, 2);
        let cell = one_cell(r, g, b);
        assert(row_sum(w, r, g, cell) == w(r, g, b));
        assert(plane_sum(w, r, cell) == w(r, g, b));
    }
    if region.r1 <= d + 1 && d <= region.r2 {
        lemma_box_sum_split(w, region, Axis::R, d);
    }
    if region.g1 <= d + 1 && d <= region.g2 {
        lemma_box_sum_split(w, region, Axis::G, d);
    }
    if region.b1 <= d + 1 && d <= region.b2 {
        lemma_box_sum_split(w, region, Axis::B, d);
    }
}

/// Pixels at a cell, from the histogram.
pub open spec fn at_cell(h: Seq<u32>, r: int, g: int, b: int) -> int {
    h[1024 * r + 32 * g + b] as int
}

/// The pixels of a box are those of its cells, and a box is counted by them,
/// up to the largest `u32`.
pub proof fn law_boxes_count_their_pixels(h: Seq<u32>, region: Region)
    ensures
        population(h, region) == box_sum(
            |r: int, g: int, b: int| at_cell(h, r, g, b) as nat,
            region,
        ),
        population(h, region) <= u32::MAX ==> counted(h, region) == population(h, region),
        population(h, region) > u32::MAX ==> counted(h, region) == u32::MAX,
{
    lemma_box_sum_same(
        cell_pop(h),
        |r: int, g: int, b: int| at_cell(h, r, g, b) as nat,
        region,
    );
}

/// The centres of a box's pixels added up along one channel: a pixel in the
/// cell with coordinate `k` counts as `8 * k + 4`.
pub open spec fn centre_sum(h: Seq<u32>, region: Region, channel: int) -> nat {
    box_sum(
        |r: int, g: int, b: int|
            (at_cell(h, r, g, b) * (8 * (if channel == 0 {
                r
            } else if channel == 1 {
                g
            } else {
                b
            }) + 4)) as nat,
        region,
    )
}

proof fn lemma_mean_between(h: Seq<u32>, region: Region, axis: Axis, channel: int)
    requires
        region.fits(),
        population(h, region) > 0,
        channel == (match axis {
            Axis::R => 0int,
            Axis::G => 1int,
            Axis::B => 2int,
        }),
    ensures
        mean_rgb(h, region)[channel] == mean_channel(h, region, axis),
        mean_rgb(h, region)[channel] * population(h, region) <= centre_sum(h, region, channel)
            < (mean_rgb(h, region)[channel] + 1) * population(h, region),
{
    lemma_box_sum_same(
        cell_mass(h, axis),
        |r: int, g: int, b: int|
            (at_cell(h, r, g, b) * (8 * (if channel == 0 {
                r
            } else if channel == 1 {
                g
            } else {
                b
            }) + 4)) as nat,
        region,
    );
    lemma_mean_is_byte(h, region, axis);
    let mass = centre_sum(h, region, channel) as int;
    let pop = population(h, region) as int;
    let c = mean_channel(h, region, axis);
    assert(c == mass / pop);
    assert(c * pop <= mass < (c + 1) * pop) by (nonlinear_arith)
        requires
            pop > 0,
            c == mass / pop,
    ;
    assert(mean_rgb(h, region)[channel] == c as u8);
}

/// The colour of a box with pixels is their mean, rounded down, in each
/// channel: it moves with the number of pixels in each cell.
pub proof fn law_colour_is_the_mean(h: Seq<u32>, region: Region, channel: int)
    requires
        region.fits(),
        population(h, region) > 0,
        0 <= channel < 3,
    ensures
        mean_rgb(h, region)[channel] * population(h, region) <= centre_sum(h, region, channel)
            < (mean_rgb(h, region)[channel] + 1) * population(h, region),
{
    if channel == 0 {
        lemma_mean_between(h, region, Axis::R, 0);
    } else if channel == 1 {
        lemma_mean_between(h, region, Axis::G, 1);
    } else {
        lemma_mean_between(h, region, Axis::B, 2);
    }
}

/// The colour of a box without pixels is the middle of the box, in eight-bit
/// units.
pub proof fn law_empty_box_has_its_middle(h: Seq<u32>, region: Region)
    requires
        region.fits(),
        population(h, region) == 0,
    ensures
        mean_rgb(h, region)[0] == 4 * (region.r1 + region.r2 + 1),
        mean_rgb(h, region)[1] == 4 * (region.g1 + region.g2 + 1),
        mean_rgb(h, region)[2] == 4 * (region.b1 + region.b2 + 1),
{
}

/// Every dominant colour is the mean of the pixels of a box, and stands for
/// them.
pub proof fn law_dominants_are_means(pixels: Seq<[u8; 3]>, count: u8, i: int) -> (region: Region)
    requires
        0 <= i < swatches(pixels, count).len(),
    ensures
        region.fits(),
        population(histogram(pixels), region) > 0,
        swatches(pixels, count)[i].population == (if population(histogram(pixels), region)
            > u32::MAX {
            u32::MAX as nat
        } else {
            population(histogram(pixels), region)
        }),
        forall|channel: int|
            0 <= channel < 3 ==> {
                &&& #[trigger] swatches(pixels, count)[i].rgb[channel] * population(
                    histogram(pixels),
                    region,
                ) <= centre_sum(histogram(pixels), region, channel)
                &&& centre_sum(histogram(pixels), region, channel) < (swatches(
                    pixels,
                    count,
                )[i].rgb[channel] + 1) * population(histogram(pixels), region)
            },
{
    let h = histogram(pixels);
    lemma_emitted(pixels, count);
    lemma_emitted_weight(pixels_at(h), pixels, count);
    let region = emitted(pixels, count)[i];
    assert(counted(h, region) > 0);
    assert(swatches(pixels, count)[i].rgb == mean_rgb(h, region));
    assert forall|channel: int| 0 <= channel < 3 implies {
        &&& #[trigger] swatches(pixels, count)[i].rgb[channel] * population(h, region)
            <= centre_sum(h, region, channel)
        &&& centre_sum(h, region, channel) < (swatches(pixels, count)[i].rgb[channel] + 1)
            * population(h, region)
    } by {
        law_colour_is_the_mean(h, region, channel);
    }
    region
}

/// A box's cells are counted along its three sides.
pub proof fn law_volume_is_the_product_of_the_sides(vbox: VBox, v: u32)
    requires
        call_ensures(VBox::volume, (&vbox,), v),
    ensures
        v == (vbox.r2 - vbox.r1 + 1) * (vbox.g2 - vbox.g1 + 1) * (vbox.b2 - vbox.b1 + 1),
{
}

/// Boxes rank by their pixels, by their pixels times their cells, or by how
/// few pixels they have.
pub proof fn law_ranks(rank: Rank, vbox: VBox, histo: &[u32], k: u64)
    requires
        call_ensures(Rank::of, (rank, &vbox, histo), k),
    ensures
        rank is Population ==> k == counted(histo@, vbox@),
        rank is PopulationVolume ==> k == counted(histo@, vbox@) * ((vbox.r2 - vbox.r1 + 1) * (
        vbox.g2 - vbox.g1 + 1) * (vbox.b2 - vbox.b1 + 1)),
        rank is Scarcity ==> k + counted(histo@, vbox@) == u32::MAX,
{
}

/// Boxes are ordered by rank, lowest first: none is lost or added, and boxes
/// of equal rank keep their order.
pub proof fn law_ranked(h: Seq<u32>, boxes: Seq<Region>, k: int)
    ensures
        forall|rank: Rank| #[trigger]
            ranked(h, rank, boxes).to_multiset() == boxes.to_multiset(),
        forall|i: int, j: int|
            0 <= i <= j < boxes.len() ==> counted(
                h,
                #[trigger] ranked(h, Rank::Population, boxes)[i],
            ) <= counted(h, #[trigger] ranked(h, Rank::Population, boxes)[j]),
        forall|i: int, j: int|
            0 <= i <= j < boxes.len() ==> counted(
                h,
                #[trigger] ranked(h, Rank::Scarcity, boxes)[i],
            ) >= counted(h, #[trigger] ranked(h, Rank::Scarcity, boxes)[j]),
        forall|i: int, j: int|
            0 <= i <= j < boxes.len() ==> counted(
                h,
                #[trigger] ranked(h, Rank::PopulationVolume, boxes)[i],
            ) * ranked(h, Rank::PopulationVolume, boxes)[i].volume() <= counted(
                h,
                #[trigger] ranked(h, Rank::PopulationVolume, boxes)[j],
            ) * ranked(h, Rank::PopulationVolume, boxes)[j].volume(),
        ranked(h, Rank::Population, boxes).filter(|r: Region| counted(h, r) == k) == boxes.filter(
            |r: Region| counted(h, r) == k,
        ),
        ranked(h, Rank::Scarcity, boxes).filter(|r: Region| counted(h, r) == k) == boxes.filter(
            |r: Region| counted(h, r) == k,
        ),
        ranked(h, Rank::PopulationVolume, boxes).filter(
            |r: Region| counted(h, r) * r.volume() == k,
        ) == boxes.filter(|r: Region| counted(h, r) * r.volume() == k),
{
    assert forall|rank: Rank| #[trigger]
        ranked(h, rank, boxes).to_multiset() == boxes.to_multiset() by {
        law_sort_by(|r: Region| rank.key(h, r), boxes);
    }
    let one = |r: Region| Rank::Population.key(h, r);
    let two = |r: Region| Rank::PopulationVolume.key(h, r);
    let three = |r: Region| Rank::Scarcity.key(h, r);
    law_sort_by(one, boxes);
    law_sort_by(two, boxes);
    law_sort_by(three, boxes);
    law_equals_keep_their_order(one, boxes, k);
    law_equals_keep_their_order(two, boxes, k);
    law_equals_keep_their_order(three, boxes, u32::MAX - k);
    assert((|r: Region| one(r) == k) =~= (|r: Region| counted(h, r) == k));
    assert((|r: Region| two(r) == k) =~= (|r: Region| counted(h, r) * r.volume() == k));
    assert((|r: Region| three(r) == u32::MAX - k) =~= (|r: Region| counted(h, r) == k));
}

/// A pixel falls into the cell of the top five bits of its channels.
pub proof fn law_cell_of_a_pixel(p: [u8; 3], i: usize)
    requires
        call_ensures(pixel_cell, (p,), i),
    ensures
        i == 1024 * (p[0] as int / 8) + 32 * (p[1] as int / 8) + p[2] as int / 8,
{
}

/// The histogram counts pixel by pixel: one more pixel is one more in its
/// cell, up to the largest `u32`, and no change anywhere else; no pixels are
/// zero everywhere.
pub proof fn law_histogram_counts_each_pixel(pixels: Seq<[u8; 3]>, p: [u8; 3], i: int)
    requires
        0 <= i < 32768,
    ensures
        histogram(pixels).len() == 32768,
        histogram(Seq::empty())[i] == 0,
        i != 1024 * (p[0] as int / 8) + 32 * (p[1] as int / 8) + p[2] as int / 8 ==> histogram(
            pixels.push(p),
        )[i] == histogram(pixels)[i],
        i == 1024 * (p[0] as int / 8) + 32 * (p[1] as int / 8) + p[2] as int / 8 ==> histogram(
            pixels.push(p),
        )[i] == (if histogram(pixels)[i] == u32::MAX {
            u32::MAX as int
        } else {
            histogram(pixels)[i] + 1
        }),
{
    reveal(Seq::filter);
    let f = |q: [u8; 3]| pixel_bin(q) == i;
    let next = pixels.push(p);
    assert(next.drop_last() =~= pixels);
    assert(next.filter(f) == if f(p) {
        pixels.filter(f).push(p)
    } else {
        pixels.filter(f)
    });
    assert(tally(next, i) == tally(pixels, i) + (if pixel_bin(p) == i {
        1nat
    } else {
        0
    }));
    assert(Seq::<[u8; 3]>::empty().filter(f).len() == 0);
    assert(tally(Seq::empty(), i) == 0);
}

/// The first box is the smallest around all populated cells: it holds each of
/// them, and moving any of its six faces inward would leave one out. There is
/// none exactly if no cell is populated.
pub proof fn law_first_box_is_the_smallest(histo: &[u32], vbox: Option<VBox>)
    requires
        histo@.len() == 32768,
        call_ensures(initial_vbox, (histo,), vbox),
    ensures
        vbox is None <==> forall|i: int| 0 <= i < 32768 ==> #[trigger] histo@[i] == 0,
        vbox matches Some(v) ==> {
            &&& v.r2 < 32 && v.g2 < 32 && v.b2 < 32
            &&& forall|r: int, g: int, b: int|
                0 <= r < 32 && 0 <= g < 32 && 0 <= b < 32 && #[trigger] at_cell(
                    histo@,
                    r,
                    g,
                    b,
                ) > 0 ==> v.r1 <= r <= v.r2 && v.g1 <= g <= v.g2 && v.b1 <= b <= v.b2
            &&& exists|g: int, b: int|
                0 <= g < 32 && 0 <= b < 32 && #[trigger] at_cell(histo@, v.r1 as int, g, b) > 0
            &&& exists|g: int, b: int|
                0 <= g < 32 && 0 <= b < 32 && #[trigger] at_cell(histo@, v.r2 as int, g, b) > 0
            &&& exists|r: int, b: int|
                0 <= r < 32 && 0 <= b < 32 && #[trigger] at_cell(histo@, r, v.g1 as int, b) > 0
            &&& exists|r: int, b: int|
                0 <= r < 32 && 0 <= b < 32 && #[trigger] at_cell(histo@, r, v.g2 as int, b) > 0
            &&& exists|r: int, g: int|
                0 <= r < 32 && 0 <= g < 32 && #[trigger] at_cell(histo@, r, g, v.b1 as int) > 0
            &&& exists|r: int, g: int|
                0 <= r < 32 && 0 <= g < 32 && #[trigger] at_cell(histo@, r, g, v.b2 as int) > 0
        },
{
    let h = histo@;
    assert forall|r: int, g: int, b: int| #[trigger] at_cell(h, r, g, b) == h[bin(r, g, b)] by {}
    if any_populated(h) {
        let (r, g, b) = choose|r: int, g: int, b: int|
            in_space(r, g, b) && h[#[trigger] bin(r, g, b)] > 0;
        assert(0 <= bin(r, g, b) < HISTO_SIZE);
        let v = vbox->0;
        assert(bounds(h, v@));
        let (g, b) = choose|g: int, b: int|
            in_space(v.r1 as int, g, b) && h[#[trigger] bin(v.r1 as int, g, b)] > 0;
        assert(at_cell(h, v.r1 as int, g, b) > 0);
        let (g, b) = choose|g: int, b: int|
            in_space(v.r2 as int, g, b) && h[#[trigger] bin(v.r2 as int, g, b)] > 0;
        assert(at_cell(h, v.r2 as int, g, b) > 0);
        let (r, b) = choose|r: int, b: int|
            in_space(r, v.g1 as int, b) && h[#[trigger] bin(r, v.g1 as int, b)] > 0;
        assert(at_cell(h, r, v.g1 as int, b) > 0);
        let (r, b) = choose|r: int, b: int|
            in_space(r, v.g2 as int, b) && h[#[trigger] bin(r, v.g2 as int, b)] > 0;
        assert(at_cell(h, r, v.g2 as int, b) > 0);
        let (r, g) = choose|r: int, g: int|
            in_space(r, g, v.b1 as int) && h[#[trigger] bin(r, g, v.b1 as int)] > 0;
        assert(at_cell(h, r, g, v.b1 as int) > 0);
        let (r, g) = choose|r: int, g: int|
            in_space(r, g, v.b2 as int) && h[#[trigger] bin(r, g, v.b2 as int)] > 0;
        assert(at_cell(h, r, g, v.b2 as int) > 0);
    } else {
        assert forall|i: int| 0 <= i < 32768 implies #[trigger] h[i] == 0 by {
            let (r, g, b) = (i / 1024, i / 32 % 32, i % 32);
            assert(in_space(r, g, b));
            assert(bin(r, g, b) == i);
        }
    }
}

/// The elements of `s` added up.
pub open spec fn added_up(s: Seq<u32>) -> int {
    s.fold_left(0int, |sum: int, x: u32| sum + x)
}

pub proof fn lemma_added_up(s: Seq<u32>)
    ensures
        seq_sum(s) == added_up(s),
    decreases s.len(),
{
    if s.len() > 0 {
        lemma_added_up(s.drop_last());
    }
}

/// Each way of summing gives the elements added up, held at the largest
/// `u32`.
pub proof fn law_sums_saturate(slice: &[u32], n: u32)
    requires
        call_ensures(simd::sum_u32_slice, (slice,), n) || call_ensures(
            simd::scalar::sum_u32_slice,
            (slice,),
            n,
        ) || call_ensures(simd::lanes4::sum_u32_slice, (slice,), n) || call_ensures(
            simd::lanes8::sum_u32_slice,
            (slice,),
            n,
        ),
    ensures
        added_up(slice@) <= u32::MAX ==> n == added_up(slice@),
        added_up(slice@) > u32::MAX ==> n == u32::MAX,
{
    lemma_added_up(slice@);
}

/// A cell's bin: 32 blues to a green, 32 greens to a red.
pub proof fn law_bin_of_a_cell(r: u32, g: u32, b: u32, i: usize)
    requires
        call_ensures(histo_index, (r, g, b), i),
    ensures
        i == 1024 * r + 32 * g + b,
{
}

/// A part of a box has new ends along its axis and the box's along the
/// others.
pub proof fn law_parts_of_a_box(vbox: VBox, axis: Axis, lo: u32, hi: u32, part: VBox)
    requires
        call_ensures(VBox::slab, (&vbox, axis, lo, hi), part),
    ensures
        axis is R ==> part.r1 == lo && part.r2 == hi && part.g1 == vbox.g1 && part.g2 == vbox.g2
            && part.b1 == vbox.b1 && part.b2 == vbox.b2,
        axis is G ==> part.g1 == lo && part.g2 == hi && part.r1 == vbox.r1 && part.r2 == vbox.r2
            && part.b1 == vbox.b1 && part.b2 == vbox.b2,
        axis is B ==> part.b1 == lo && part.b2 == hi && part.g1 == vbox.g1 && part.g2 == vbox.g2
            && part.r1 == vbox.r1 && part.r2 == vbox.r2,
{
    assert(part@.r1 == part.r1 && part@.r2 == part.r2);
}

/// Five of a channel's eight bits are kept, so that there are 32 cells to a
/// channel and 32768 in all.
pub proof fn law_bits_kept()
    ensures
        SIGBITS == 5,
        SIGBITS + RSHIFT == 8,
        HISTO_LEVELS == 32,
        HISTO_SIZE == 32 * 32 * 32,
{
}

} // verus!
