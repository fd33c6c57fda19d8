//! What holds of every extraction.

use vstd::prelude::*;

verus! {

use crate::dominant::Swatch;
use crate::mmcq::box_sums::{
    lemma_box_sum_same, lemma_box_sum_split, lemma_box_sum_term, lemma_box_sum_zero,
};
use crate::mmcq::conserve::{
    all_fit, law_split_conserves, lemma_total_add, lemma_total_sort,
    on_populated, total_weight,
};
use crate::mmcq::histogram::{
    any_populated, bounding, bounds, histogram, lemma_bounds_fit, pixel_bin, tally,
};
use crate::mmcq::order::Rank;
use crate::mmcq::space::{
    Axis, HISTO_SIZE, Region, bin, box_sum, cell_pop, counted, in_space, plane_sum, population,
    row_sum,
};
use crate::mmcq::split::split_until;
use crate::mmcq::sums::{lemma_seq_sum_range, range_sum, seq_sum};
use crate::mmcq::workspace::{
    at_most, box_target, frame_total, quantized, swatch_of, swatches, with_pixels,
};
use crate::sorting::{ascending, law_sort_by, lemma_sort_keeps};

/// The whole quantized space.
pub open spec fn whole() -> Region {
    Region { r1: 0, r2: 31, g1: 0, g2: 31, b1: 0, b2: 31 }
}

/// One for each populated cell.
pub open spec fn occupied(h: Seq<u32>) -> spec_fn(int, int, int) -> nat {
    |r: int, g: int, b: int|
        if in_space(r, g, b) && h[bin(r, g, b)] > 0 {
            1
        } else {
            0
        }
}

/// Populated cells.
pub open spec fn occupied_cells(h: Seq<u32>) -> nat {
    box_sum(occupied(h), whole())
}

/// One at a single cell.
pub open spec fn mark(x: int, y: int, z: int) -> spec_fn(int, int, int) -> nat {
    |r: int, g: int, b: int|
        if r == x && g == y && b == z {
            1
        } else {
            0
        }
}

/// Pixels per populated cell of the space.
pub open spec fn pixels_at(h: Seq<u32>) -> spec_fn(int, int, int) -> nat {
    |r: int, g: int, b: int|
        if in_space(r, g, b) {
            h[bin(r, g, b)] as nat
        } else {
            0
        }
}

/// A frame with a pixel has a smallest box around its cells.
pub proof fn lemma_bounding(h: Seq<u32>)
    requires
        any_populated(h),
    ensures
        bounds(h, bounding(h)),
        bounding(h).fits(),
{
    lemma_bounding_exists(h);
    lemma_bounds_fit(h, bounding(h));
}

/// The populated coordinates along one axis have a lowest and a highest.
proof fn lemma_lowest(p: spec_fn(int) -> bool, n: int, at: int)
    requires
        0 <= at < n,
        p(at),
    ensures
        exists|lo: int| 0 <= lo < n && #[trigger] p(lo) && forall|i: int| 0 <= i < lo ==> !#[trigger] p(i),
    decreases at,
{
    if exists|i: int| 0 <= i < at && #[trigger] p(i) {
        let i = choose|i: int| 0 <= i < at && #[trigger] p(i);
        lemma_lowest(p, n, i);
    }
}

proof fn lemma_highest(p: spec_fn(int) -> bool, n: int, at: int)
    requires
        0 <= at < n,
        p(at),
    ensures
        exists|hi: int| 0 <= hi < n && #[trigger] p(hi) && forall|i: int| hi < i < n ==> !#[trigger] p(i),
    decreases n - at,
{
    if exists|i: int| at < i < n && #[trigger] p(i) {
        let i = choose|i: int| at < i < n && #[trigger] p(i);
        lemma_highest(p, n, i);
    }
}

spec fn red_used(h: Seq<u32>) -> spec_fn(int) -> bool {
    |r: int| exists|g: int, b: int| in_space(r, g, b) && h[#[trigger] bin(r, g, b)] > 0
}

spec fn green_used(h: Seq<u32>) -> spec_fn(int) -> bool {
    |g: int| exists|r: int, b: int| in_space(r, g, b) && h[#[trigger] bin(r, g, b)] > 0
}

spec fn blue_used(h: Seq<u32>) -> spec_fn(int) -> bool {
    |b: int| exists|r: int, g: int| in_space(r, g, b) && h[#[trigger] bin(r, g, b)] > 0
}

proof fn lemma_bounding_exists(h: Seq<u32>)
    requires
        any_populated(h),
    ensures
        bounds(h, bounding(h)),
{
    let (r, g, b) = choose|r: int, g: int, b: int|
        in_space(r, g, b) && h[#[trigger] bin(r, g, b)] > 0;
    let (pr, pg, pb) = (red_used(h), green_used(h), blue_used(h));
    assert(pr(r));
    assert(pg(g));
    assert(pb(b));
    lemma_lowest(pr, 32, r);
    lemma_highest(pr, 32, r);
    lemma_lowest(pg, 32, g);
    lemma_highest(pg, 32, g);
    lemma_lowest(pb, 32, b);
    lemma_highest(pb, 32, b);
    let r1 = choose|lo: int| 0 <= lo < 32 && #[trigger] pr(lo) && forall|i: int| 0 <= i < lo ==> !#[trigger] pr(i);
    let r2 = choose|hi: int| 0 <= hi < 32 && #[trigger] pr(hi) && forall|i: int| hi < i < 32 ==> !#[trigger] pr(i);
    let g1 = choose|lo: int| 0 <= lo < 32 && #[trigger] pg(lo) && forall|i: int| 0 <= i < lo ==> !#[trigger] pg(i);
    let g2 = choose|hi: int| 0 <= hi < 32 && #[trigger] pg(hi) && forall|i: int| hi < i < 32 ==> !#[trigger] pg(i);
    let b1 = choose|lo: int| 0 <= lo < 32 && #[trigger] pb(lo) && forall|i: int| 0 <= i < lo ==> !#[trigger] pb(i);
    let b2 = choose|hi: int| 0 <= hi < 32 && #[trigger] pb(hi) && forall|i: int| hi < i < 32 ==> !#[trigger] pb(i);
    let region = Region { r1, r2, g1, g2, b1, b2 };
    assert forall|x: int, y: int, z: int|
        in_space(x, y, z) && h[#[trigger] bin(x, y, z)] > 0 implies region.has(x, y, z) by {
        assert(pr(x));
        assert(pg(y));
        assert(pb(z));
    }
    assert(bounds(h, region));
}

/// Cutting away parts without weight leaves the sum.
proof fn lemma_trim(
    w: spec_fn(int, int, int) -> nat,
    region: Region,
    axis: Axis,
    lo: int,
    hi: int,
)
    requires
        region.lo(axis) <= lo <= hi <= region.hi(axis),
        forall|r: int, g: int, b: int|
            region.has(r, g, b) && !region.slab(axis, lo, hi).has(r, g, b) ==> #[trigger] w(r, g, b)
                == 0,
    ensures
        box_sum(w, region) == box_sum(w, region.slab(axis, lo, hi)),
{
    lemma_box_sum_split(w, region, axis, hi);
    let upto = region.slab(axis, region.lo(axis), hi);
    let beyond = region.slab(axis, hi + 1, region.hi(axis));
    assert forall|r: int, g: int, b: int| beyond.has(r, g, b) implies #[trigger] w(r, g, b) == 0 by {
        assert(region.has(r, g, b) && !region.slab(axis, lo, hi).has(r, g, b));
    }
    lemma_box_sum_zero(w, beyond);
    lemma_box_sum_split(w, upto, axis, lo - 1);
    let before = upto.slab(axis, upto.lo(axis), lo - 1);
    assert forall|r: int, g: int, b: int| before.has(r, g, b) implies #[trigger] w(r, g, b) == 0 by {
        assert(region.has(r, g, b) && !region.slab(axis, lo, hi).has(r, g, b));
    }
    lemma_box_sum_zero(w, before);
    assert(upto.slab(axis, lo, upto.hi(axis)) == region.slab(axis, lo, hi));
}

/// A weight that lies within `inner` sums over any box around it as over
/// `inner`.
pub proof fn lemma_within(w: spec_fn(int, int, int) -> nat, outer: Region, inner: Region)
    requires
        outer.r1 <= inner.r1 <= inner.r2 <= outer.r2,
        outer.g1 <= inner.g1 <= inner.g2 <= outer.g2,
        outer.b1 <= inner.b1 <= inner.b2 <= outer.b2,
        forall|r: int, g: int, b: int|
            outer.has(r, g, b) && !inner.has(r, g, b) ==> #[trigger] w(r, g, b) == 0,
    ensures
        box_sum(w, outer) == box_sum(w, inner),
{
    lemma_trim(w, outer, Axis::R, inner.r1, inner.r2);
    let a = outer.slab(Axis::R, inner.r1, inner.r2);
    lemma_trim(w, a, Axis::G, inner.g1, inner.g2);
    let b = a.slab(Axis::G, inner.g1, inner.g2);
    lemma_trim(w, b, Axis::B, inner.b1, inner.b2);
    assert(b.slab(Axis::B, inner.b1, inner.b2) == inner);
}

/// The smallest box around the populated cells carries all that is on them.
pub proof fn lemma_bounding_holds_all(w: spec_fn(int, int, int) -> nat, h: Seq<u32>)
    requires
        any_populated(h),
        on_populated(w, h),
    ensures
        box_sum(w, bounding(h)) == box_sum(w, whole()),
{
    lemma_bounding(h);
    let inner = bounding(h);
    assert forall|r: int, g: int, b: int|
        whole().has(r, g, b) && !inner.has(r, g, b) implies #[trigger] w(r, g, b) == 0 by {
        assert(in_space(r, g, b));
        if h[bin(r, g, b)] > 0 {
            assert(inner.has(r, g, b));
        }
    }
    lemma_within(w, whole(), inner);
}

/// A single mark counts once in the boxes around it.
pub proof fn lemma_mark(region: Region, x: int, y: int, z: int)
    requires
        region.fits(),
    ensures
        box_sum(mark(x, y, z), region) == (if region.has(x, y, z) {
            1nat
        } else {
            0nat
        }),
{
    let w = mark(x, y, z);
    if region.has(x, y, z) {
        let cell = Region { r1: x, r2: x, g1: y, g2: y, b1: z, b2: z };
        lemma_within(w, region, cell);
        reveal_with_fuel(range_sum, 2);
        assert(row_sum(w, x, y, cell) == 1);
        assert(plane_sum(w, x, cell) == 1);
    } else {
        lemma_box_sum_zero(w, region);
    }
}

proof fn lemma_total_member(w: spec_fn(int, int, int) -> nat, boxes: Seq<Region>, i: int)
    requires
        0 <= i < boxes.len(),
    ensures
        box_sum(w, boxes[i]) <= total_weight(w, boxes),
    decreases boxes.len(),
{
    if i < boxes.len() - 1 {
        lemma_total_member(w, boxes.drop_last(), i);
    }
}

/// Two boxes weigh no more than all.
pub proof fn lemma_total_pair(w: spec_fn(int, int, int) -> nat, boxes: Seq<Region>, i: int, j: int)
    requires
        0 <= i < j < boxes.len(),
    ensures
        box_sum(w, boxes[i]) + box_sum(w, boxes[j]) <= total_weight(w, boxes),
    decreases boxes.len(),
{
    if j < boxes.len() - 1 {
        lemma_total_pair(w, boxes.drop_last(), i, j);
    } else {
        lemma_total_member(w, boxes.drop_last(), i);
    }
}

/// A weight on the boxes lies in one of them.
pub proof fn lemma_total_source(w: spec_fn(int, int, int) -> nat, boxes: Seq<Region>)
    requires
        total_weight(w, boxes) > 0,
    ensures
        exists|i: int| 0 <= i < boxes.len() && box_sum(w, #[trigger] boxes[i]) > 0,
    decreases boxes.len(),
{
    let last = boxes.len() - 1;
    if box_sum(w, boxes.last()) > 0 {
        assert(box_sum(w, boxes[last]) > 0);
    } else {
        lemma_total_source(w, boxes.drop_last());
        let i = choose|i: int|
            0 <= i < boxes.drop_last().len() && box_sum(w, #[trigger] boxes.drop_last()[i]) > 0;
        assert(box_sum(w, boxes[i]) > 0);
    }
}

/// The boxes of a frame carry everything on its populated cells, lie in the
/// space, and are no more than aimed for.
pub proof fn law_quantized_conserves(
    w: spec_fn(int, int, int) -> nat,
    h: Seq<u32>,
    count: u8,
)
    requires
        any_populated(h),
        on_populated(w, h),
    ensures
        total_weight(w, quantized(h, count)) == box_sum(w, whole()),
        all_fit(quantized(h, count)),
        quantized(h, count).len() <= box_target(count),
{
    lemma_bounding(h);
    lemma_bounding_holds_all(w, h);
    let target = box_target(count);
    let start = seq![bounding(h)];
    assert(total_weight(w, start) == box_sum(w, bounding(h))) by {
        reveal_with_fuel(total_weight, 2);
        assert(start.drop_last() =~= Seq::empty());
    }
    let most = ((3 * target + 3) / 4) as nat;
    law_split_conserves(w, h, most, Rank::Population, start);
    let coarse = split_until(h, most, Rank::Population, start);
    law_split_conserves(w, h, target, Rank::PopulationVolume, coarse);
    let fine = split_until(h, target, Rank::PopulationVolume, coarse);
    let key = |r: Region| Rank::Scarcity.key(h, r);
    lemma_total_sort(w, key, fine);
    lemma_sort_keeps(|r: Region| r.fits(), key, fine);
    law_sort_by(key, fine);
}

/// Every populated cell lies in exactly one of a frame's boxes.
pub proof fn law_boxes_share_out_the_cells(h: Seq<u32>, count: u8, r: int, g: int, b: int)
    requires
        in_space(r, g, b),
        h[bin(r, g, b)] > 0,
    ensures
        exists|i: int|
            0 <= i < quantized(h, count).len() && (#[trigger] quantized(h, count)[i]).has(r, g, b),
        forall|i: int, j: int|
            0 <= i < j < quantized(h, count).len() && (#[trigger] quantized(h, count)[i]).has(
                r,
                g,
                b,
            ) ==> !(#[trigger] quantized(h, count)[j]).has(r, g, b),
{
    let w = mark(r, g, b);
    let boxes = quantized(h, count);
    law_quantized_conserves(w, h, count);
    lemma_mark(whole(), r, g, b);
    lemma_total_source(w, boxes);
    let i = choose|i: int| 0 <= i < boxes.len() && box_sum(w, #[trigger] boxes[i]) > 0;
    lemma_mark(boxes[i], r, g, b);
    assert(boxes[i].has(r, g, b));
    assert forall|i: int, j: int|
        0 <= i < j < boxes.len() && (#[trigger] boxes[i]).has(r, g, b) implies !(
    #[trigger] boxes[j]).has(r, g, b) by {
        lemma_total_pair(w, boxes, i, j);
        lemma_mark(boxes[i], r, g, b);
        lemma_mark(boxes[j], r, g, b);
    }
}

/// The sum of a run cut in two.
proof fn lemma_seq_sum_cut(s: Seq<u32>, a: int, b: int, c: int)
    requires
        0 <= a <= b <= c <= s.len(),
    ensures
        seq_sum(s.subrange(a, c)) == seq_sum(s.subrange(a, b)) + seq_sum(s.subrange(b, c)),
    decreases c - b,
{
    if b == c {
        assert(s.subrange(b, c) =~= Seq::empty());
    } else {
        lemma_seq_sum_cut(s, a, b, c - 1);
        assert(s.subrange(a, c).drop_last() =~= s.subrange(a, c - 1));
        assert(s.subrange(b, c).drop_last() =~= s.subrange(b, c - 1));
    }
}

proof fn lemma_row_total(h: Seq<u32>, r: int, g: int)
    requires
        h.len() == HISTO_SIZE,
        0 <= r < 32,
        0 <= g < 32,
    ensures
        row_sum(cell_pop(h), r, g, whole()) == seq_sum(
            h.subrange(bin(r, g, 0), bin(r, g, 0) + 32),
        ),
{
    let f = |b: int| cell_pop(h)(r, g, b);
    let base = bin(r, g, 0);
    lemma_seq_sum_range(h, f, base, 0, 31);
    assert(h.subrange(base + 0, base + 31 + 1) =~= h.subrange(base, base + 32));
}

proof fn lemma_plane_total(h: Seq<u32>, r: int, g: int)
    requires
        h.len() == HISTO_SIZE,
        0 <= r < 32,
        -1 <= g < 32,
    ensures
        range_sum(|k: int| row_sum(cell_pop(h), r, k, whole()), 0, g) == seq_sum(
            h.subrange(bin(r, 0, 0), bin(r, g + 1, 0)),
        ),
    decreases g + 1,
{
    if g >= 0 {
        lemma_plane_total(h, r, g - 1);
        lemma_row_total(h, r, g);
        lemma_seq_sum_cut(h, bin(r, 0, 0), bin(r, g, 0), bin(r, g + 1, 0));
        assert(h.subrange(bin(r, g, 0), bin(r, g, 0) + 32) =~= h.subrange(
            bin(r, g, 0),
            bin(r, g + 1, 0),
        ));
    } else {
        assert(h.subrange(bin(r, 0, 0), bin(r, 0, 0)) =~= Seq::empty());
    }
}

proof fn lemma_space_total(h: Seq<u32>, r: int)
    requires
        h.len() == HISTO_SIZE,
        -1 <= r < 32,
    ensures
        range_sum(|k: int| plane_sum(cell_pop(h), k, whole()), 0, r) == seq_sum(
            h.subrange(0, bin(r + 1, 0, 0)),
        ),
    decreases r + 1,
{
    if r >= 0 {
        lemma_space_total(h, r - 1);
        lemma_plane_total(h, r, 31);
        lemma_seq_sum_cut(h, 0, bin(r, 0, 0), bin(r + 1, 0, 0));
        assert(bin(r, 32, 0) == bin(r + 1, 0, 0));
    } else {
        assert(h.subrange(0, 0) =~= Seq::empty());
    }
}

/// The pixels of the whole space are those of all bins.
pub proof fn lemma_whole_population(h: Seq<u32>)
    requires
        h.len() == HISTO_SIZE,
    ensures
        population(h, whole()) == seq_sum(h),
{
    lemma_space_total(h, 31);
    assert(h.subrange(0, bin(32, 0, 0)) =~= h);
}

proof fn lemma_seq_sum_update(s: Seq<u32>, i: int, v: u32)
    requires
        0 <= i < s.len(),
    ensures
        seq_sum(s.update(i, v)) + s[i] == seq_sum(s) + v,
    decreases s.len(),
{
    if i < s.len() - 1 {
        lemma_seq_sum_update(s.drop_last(), i, v);
        assert(s.update(i, v).drop_last() =~= s.drop_last().update(i, v));
    } else {
        assert(s.update(i, v).drop_last() =~= s.drop_last());
    }
}

proof fn lemma_seq_sum_zero(s: Seq<u32>)
    requires
        forall|i: int| 0 <= i < s.len() ==> #[trigger] s[i] == 0,
    ensures
        seq_sum(s) == 0,
    decreases s.len(),
{
    if s.len() > 0 {
        lemma_seq_sum_zero(s.drop_last());
    }
}

/// A bin of the space holds every pixel.
proof fn lemma_pixel_bin_range(p: [u8; 3])
    ensures
        0 <= pixel_bin(p) < HISTO_SIZE,
        in_space(p[0] as int / 8, p[1] as int / 8, p[2] as int / 8),
{
}

proof fn lemma_tally_bound(pixels: Seq<[u8; 3]>, i: int)
    ensures
        tally(pixels, i) <= pixels.len(),
{
    pixels.lemma_filter_len(|p: [u8; 3]| pixel_bin(p) == i);
}

/// A frame of no more pixels than a `u32` counts is counted exactly.
pub proof fn law_frame_total(pixels: Seq<[u8; 3]>)
    requires
        pixels.len() <= u32::MAX,
    ensures
        seq_sum(histogram(pixels)) == pixels.len(),
        frame_total(pixels) == pixels.len(),
    decreases pixels.len(),
{
    reveal(Seq::filter);
    let h = histogram(pixels);
    if pixels.len() == 0 {
        assert forall|i: int| 0 <= i < h.len() implies #[trigger] h[i] == 0 by {
            lemma_tally_bound(pixels, i);
        }
        lemma_seq_sum_zero(h);
    } else {
        let rest = pixels.drop_last();
        let at = pixel_bin(pixels.last());
        let g = histogram(rest);
        law_frame_total(rest);
        lemma_pixel_bin_range(pixels.last());
        assert forall|i: int| 0 <= i < h.len() implies #[trigger] h[i] == g.update(
            at,
            (g[at] + 1) as u32,
        )[i] by {
            lemma_tally_bound(rest, i);
            lemma_tally_bound(pixels, i);
            let f = |p: [u8; 3]| pixel_bin(p) == i;
            assert(pixels.filter(f) == if f(pixels.last()) {
                rest.filter(f).push(pixels.last())
            } else {
                rest.filter(f)
            });
        }
        lemma_tally_bound(rest, at);
        assert(h =~= g.update(at, (g[at] + 1) as u32));
        lemma_seq_sum_update(g, at, (g[at] + 1) as u32);
    }
}

/// A frame with a pixel has a populated bin, and a frame without has none.
pub proof fn lemma_any_populated(pixels: Seq<[u8; 3]>)
    ensures
        any_populated(histogram(pixels)) <==> pixels.len() > 0,
{
    let h = histogram(pixels);
    if pixels.len() > 0 {
        let p = pixels[0];
        lemma_pixel_bin_range(p);
        let at = pixel_bin(p);
        let f = |q: [u8; 3]| pixel_bin(q) == at;
        pixels.lemma_filter_contains(f, 0);
        assert(tally(pixels, at) > 0);
        assert(h[bin(p[0] as int / 8, p[1] as int / 8, p[2] as int / 8)] > 0);
    } else if any_populated(h) {
        let (r, g, b) = choose|r: int, g: int, b: int|
            in_space(r, g, b) && h[#[trigger] bin(r, g, b)] > 0;
        lemma_tally_bound(pixels, bin(r, g, b));
    }
}

/// The pixels behind all of `s`.
pub open spec fn swatch_pixels(s: Seq<Swatch>) -> nat
    decreases s.len(),
{
    if s.len() == 0 {
        0
    } else {
        swatch_pixels(s.drop_last()) + s.last().population as nat
    }
}

/// The boxes that a frame's dominant colours stand for.
pub open spec fn emitted(pixels: Seq<[u8; 3]>, count: u8) -> Seq<Region> {
    let h = histogram(pixels);
    if count == 0 || !any_populated(h) {
        Seq::empty()
    } else {
        at_most(with_pixels(h, quantized(h, count)), count as nat)
    }
}

pub proof fn lemma_emitted(pixels: Seq<[u8; 3]>, count: u8)
    ensures
        swatches(pixels, count) == emitted(pixels, count).map_values(
            |r: Region| swatch_of(histogram(pixels), r),
        ),
        forall|i: int|
            0 <= i < emitted(pixels, count).len() ==> counted(
                histogram(pixels),
                #[trigger] emitted(pixels, count)[i],
            ) > 0,
{
    let h = histogram(pixels);
    let f = |r: Region| counted(h, r) > 0;
    let all = quantized(h, count);
    assert(swatches(pixels, count) =~= emitted(pixels, count).map_values(
        |r: Region| swatch_of(histogram(pixels), r),
    ));
    assert forall|i: int| 0 <= i < emitted(pixels, count).len() implies counted(
        h,
        #[trigger] emitted(pixels, count)[i],
    ) > 0 by {
        all.lemma_filter_pred(f, i);
    }
}

/// No more dominant colours come back than were asked for, and none without
/// pixels.
pub proof fn law_at_most_count(pixels: Seq<[u8; 3]>, count: u8)
    ensures
        swatches(pixels, count).len() <= count,
        forall|i: int|
            0 <= i < swatches(pixels, count).len() ==> (
            #[trigger] swatches(pixels, count)[i]).population > 0,
{
    lemma_emitted(pixels, count);
    assert forall|i: int| 0 <= i < swatches(pixels, count).len() implies (
    #[trigger] swatches(pixels, count)[i]).population > 0 by {
        assert(counted(histogram(pixels), emitted(pixels, count)[i]) > 0);
    }
}

/// Filtering keeps an ascending order.
proof fn lemma_filter_ascending(
    key: spec_fn(Region) -> int,
    f: spec_fn(Region) -> bool,
    s: Seq<Region>,
)
    requires
        ascending(key, s),
    ensures
        ascending(key, s.filter(f)),
        s.len() > 0 ==> forall|i: int|
            0 <= i < s.filter(f).len() ==> key(#[trigger] s.filter(f)[i]) <= key(s.last()),
    decreases s.len(),
{
    reveal(Seq::filter);
    if s.len() > 0 {
        let rest = s.drop_last();
        assert(ascending(key, rest)) by {
            assert(forall|i: int| 0 <= i < rest.len() ==> #[trigger] rest[i] == s[i]);
        }
        lemma_filter_ascending(key, f, rest);
        let out = s.filter(f);
        let inner = rest.filter(f);
        assert forall|i: int| 0 <= i < inner.len() implies key(#[trigger] inner[i]) <= key(
            s.last(),
        ) by {
            assert(key(s[rest.len() - 1]) <= key(s[s.len() - 1]));
        }
        assert forall|i: int| 0 <= i < out.len() implies key(#[trigger] out[i]) <= key(s.last()) by {
            if i < inner.len() {
                assert(out[i] == inner[i]);
            }
        }
        assert forall|i: int, j: int| 0 <= i <= j < out.len() implies key(#[trigger] out[i])
            <= key(#[trigger] out[j]) by {
            if j < inner.len() {
                assert(out[i] == inner[i] && out[j] == inner[j]);
            }
        }
    }
}

/// Dominant colours come back with the most populous first.
pub proof fn law_most_populous_first(pixels: Seq<[u8; 3]>, count: u8)
    ensures
        forall|i: int, j: int|
            0 <= i <= j < swatches(pixels, count).len() ==> (
            #[trigger] swatches(pixels, count)[i]).population >= (
            #[trigger] swatches(pixels, count)[j]).population,
{
    let h = histogram(pixels);
    lemma_emitted(pixels, count);
    if count > 0 && any_populated(h) {
        let key = |r: Region| Rank::Scarcity.key(h, r);
        let target = box_target(count);
        let coarse = split_until(
            h,
            ((3 * target + 3) / 4) as nat,
            Rank::Population,
            seq![bounding(h)],
        );
        let fine = split_until(h, target, Rank::PopulationVolume, coarse);
        law_sort_by(key, fine);
        let all = quantized(h, count);
        lemma_filter_ascending(key, |r: Region| counted(h, r) > 0, all);
        let kept = emitted(pixels, count);
        assert forall|i: int, j: int| 0 <= i <= j < swatches(pixels, count).len() implies (
        #[trigger] swatches(pixels, count)[i]).population >= (
        #[trigger] swatches(pixels, count)[j]).population by {
            let full = with_pixels(h, all);
            assert(kept[i] == full[i] && kept[j] == full[j]);
            assert(key(full[i]) <= key(full[j]));
        }
    }
}

/// A frame with pixels has a dominant colour.
pub proof fn law_some_colour(pixels: Seq<[u8; 3]>, count: u8)
    requires
        pixels.len() > 0,
        count > 0,
    ensures
        swatches(pixels, count).len() >= 1,
{
    let h = histogram(pixels);
    lemma_any_populated(pixels);
    lemma_emitted(pixels, count);
    let w = occupied(h);
    law_quantized_conserves(w, h, count);
    let (r, g, b) = choose|r: int, g: int, b: int|
        in_space(r, g, b) && h[#[trigger] bin(r, g, b)] > 0;
    lemma_box_sum_term(w, whole(), r, g, b);
    let boxes = quantized(h, count);
    lemma_total_source(w, boxes);
    let i = choose|i: int| 0 <= i < boxes.len() && box_sum(w, #[trigger] boxes[i]) > 0;
    if counted(h, boxes[i]) == 0 {
        crate::mmcq::conserve::lemma_no_pixels_no_weight(w, h, boxes[i]);
    }
    boxes.lemma_filter_contains(|r: Region| counted(h, r) > 0, i);
    assert(with_pixels(h, boxes).len() > 0);
}

/// The weight of the boxes that pass a test is at most that of all.
proof fn lemma_total_filter(
    w: spec_fn(int, int, int) -> nat,
    f: spec_fn(Region) -> bool,
    boxes: Seq<Region>,
)
    ensures
        total_weight(w, boxes.filter(f)) <= total_weight(w, boxes),
    decreases boxes.len(),
{
    reveal(Seq::filter);
    if boxes.len() > 0 {
        lemma_total_filter(w, f, boxes.drop_last());
        if f(boxes.last()) {
            let inner = boxes.drop_last().filter(f);
            assert(inner.push(boxes.last()).drop_last() =~= inner);
        }
    }
}

/// The weight of the first boxes is at most that of all.
proof fn lemma_total_take(w: spec_fn(int, int, int) -> nat, boxes: Seq<Region>, n: int)
    requires
        0 <= n <= boxes.len(),
    ensures
        total_weight(w, boxes.take(n)) <= total_weight(w, boxes),
{
    lemma_total_add(w, boxes.take(n), boxes.skip(n));
    assert(boxes.take(n) + boxes.skip(n) =~= boxes);
}

/// The emitted boxes weigh no more than the whole space.
pub proof fn lemma_emitted_weight(
    w: spec_fn(int, int, int) -> nat,
    pixels: Seq<[u8; 3]>,
    count: u8,
)
    requires
        on_populated(w, histogram(pixels)),
    ensures
        total_weight(w, emitted(pixels, count)) <= box_sum(w, whole()),
        all_fit(emitted(pixels, count)),
{
    let h = histogram(pixels);
    if count > 0 && any_populated(h) {
        law_quantized_conserves(w, h, count);
        let f = |r: Region| counted(h, r) > 0;
        let all = quantized(h, count);
        lemma_total_filter(w, f, all);
        let full = with_pixels(h, all);
        if full.len() > count {
            lemma_total_take(w, full, count as int);
        }
        assert forall|i: int| 0 <= i < emitted(pixels, count).len() implies (
        #[trigger] emitted(pixels, count)[i]).fits() by {
            lemma_filter_member(f, all, i);
        }
    }
}

proof fn lemma_filter_member(f: spec_fn(Region) -> bool, s: Seq<Region>, i: int)
    requires
        0 <= i < s.filter(f).len(),
    ensures
        s.contains(s.filter(f)[i]),
    decreases s.len(),
{
    reveal(Seq::filter);
    if s.len() > 0 {
        let rest = s.drop_last();
        let inner = rest.filter(f);
        if i < inner.len() {
            lemma_filter_member(f, rest, i);
            let k = choose|k: int| 0 <= k < rest.len() && rest[k] == inner[i];
            assert(s[k] == inner[i]);
        } else {
            assert(s[s.len() - 1] == s.filter(f)[i]);
        }
    }
}

/// The pixels behind the dominant colours are at most the pixels of the
/// frame, so that their shares add up to at most a hundred percent.
pub proof fn law_shares_within_the_frame(pixels: Seq<[u8; 3]>, count: u8)
    requires
        pixels.len() <= u32::MAX,
    ensures
        swatch_pixels(swatches(pixels, count)) <= frame_total(pixels),
        100 * swatch_pixels(swatches(pixels, count)) <= 100 * frame_total(pixels),
{
    let h = histogram(pixels);
    let w = pixels_at(h);
    lemma_emitted(pixels, count);
    lemma_emitted_weight(w, pixels, count);
    lemma_pixels_behind(pixels, emitted(pixels, count));
    lemma_whole_population(h);
    lemma_box_sum_same(w, cell_pop(h), whole());
    law_frame_total(pixels);
}

proof fn lemma_pixels_behind(pixels: Seq<[u8; 3]>, boxes: Seq<Region>)
    requires
        all_fit(boxes),
    ensures
        swatch_pixels(boxes.map_values(|r: Region| swatch_of(histogram(pixels), r)))
            <= total_weight(pixels_at(histogram(pixels)), boxes),
    decreases boxes.len(),
{
    let h = histogram(pixels);
    let f = |r: Region| swatch_of(histogram(pixels), r);
    if boxes.len() > 0 {
        lemma_pixels_behind(pixels, boxes.drop_last());
        assert(boxes.map_values(f).drop_last() =~= boxes.drop_last().map_values(f));
        let last = boxes.last();
        assert(boxes[boxes.len() - 1].fits());
        lemma_box_sum_same(pixels_at(h), cell_pop(h), last);
        assert(boxes.map_values(f).last() == swatch_of(h, last));
    }
}

/// There are no more dominant colours than populated cells: a frame of fewer
/// distinct colours than asked for gives fewer.
pub proof fn law_no_more_than_cells(pixels: Seq<[u8; 3]>, count: u8)
    ensures
        swatches(pixels, count).len() <= occupied_cells(histogram(pixels)),
{
    let h = histogram(pixels);
    let w = occupied(h);
    let boxes = emitted(pixels, count);
    lemma_emitted(pixels, count);
    lemma_emitted_weight(w, pixels, count);
    assert forall|i: int| 0 <= i < boxes.len() implies box_sum(w, #[trigger] boxes[i]) >= 1 by {
        lemma_occupied_box(h, boxes[i]);
    }
    lemma_total_at_least(w, boxes);
}

/// A box with pixels has a populated cell.
pub proof fn lemma_occupied_box(h: Seq<u32>, region: Region)
    requires
        region.fits(),
        counted(h, region) > 0,
    ensures
        box_sum(occupied(h), region) >= 1,
{
    if box_sum(occupied(h), region) == 0 {
        assert forall|r: int, g: int, b: int| region.has(r, g, b) implies #[trigger] cell_pop(h)(
            r,
            g,
            b,
        ) == 0 by {
            lemma_box_sum_term(occupied(h), region, r, g, b);
            assert(occupied(h)(r, g, b) == 0);
        }
        lemma_box_sum_zero(cell_pop(h), region);
    }
}

pub proof fn lemma_total_at_least(w: spec_fn(int, int, int) -> nat, boxes: Seq<Region>)
    requires
        forall|i: int| 0 <= i < boxes.len() ==> box_sum(w, #[trigger] boxes[i]) >= 1,
    ensures
        boxes.len() <= total_weight(w, boxes),
    decreases boxes.len(),
{
    if boxes.len() > 0 {
        let rest = boxes.drop_last();
        assert forall|i: int| 0 <= i < rest.len() implies box_sum(w, #[trigger] rest[i]) >= 1 by {
            assert(rest[i] == boxes[i]);
        }
        lemma_total_at_least(w, rest);
        assert(box_sum(w, boxes[boxes.len() - 1]) >= 1);
    }
}

} // verus!
