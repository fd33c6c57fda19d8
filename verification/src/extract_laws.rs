//! What holds of several extractions together.

use vstd::prelude::*;

verus! {

use vstd::seq_lib::{commutative_foldl, lemma_fold_left_permutation};

use crate::algorithm::Algorithm;
use crate::buffer::{filled, law_filled_in_turn, takes};
use crate::color::Color;
use crate::distance::{Distance, Metric};
use crate::dominant::{Dominant, Swatch, law_dominant_is_its_parts, named};
use crate::extract::{extract, extract_rgb48, extract_rgb48_with, extract_with, extracted};
use crate::frame::{Rgb48Frame, RgbFrame, law_widened_frame_is_the_same_image, narrowed};
use crate::mmcq::histogram::{histogram, pixel_bin, tally};
use crate::mmcq::laws::law_frame_total;
use crate::mmcq::workspace::{delivered, frame_total, swatches};
use crate::nearest::lut::consistent;
use crate::palette::Palette;
use crate::nearest::search_laws::{first_nearest, tells};
use crate::palette_laws::{law_answer_is_unique, lemma_answer_is_nearest};

/// Dominant colours named for the same swatches are the same, as far as both
/// go.
proof fn lemma_named_alike<'a, D: Fn(Metric, [u8; 3], usize) -> Distance>(
    palette: &'a Palette,
    dist: D,
    algo: Algorithm,
    swatches: Seq<Swatch>,
    total: u32,
    one: Seq<Dominant<'a>>,
    other: Seq<Dominant<'a>>,
)
    requires
        palette.wf(),
        consistent(dist),
        named(palette, dist, algo, swatches, total, one),
        named(palette, dist, algo, swatches, total, other),
        one.len() <= other.len(),
    ensures
        one == other.take(one.len() as int),
{
    assert forall|k: int| 0 <= k < one.len() implies #[trigger] one[k] == other[k] by {
        law_answer_is_unique(
            palette,
            dist,
            algo,
            swatches[k].rgb,
            one[k].entry(),
            other[k].entry(),
        );
        law_dominant_is_its_parts(one[k], other[k]);
    }
    assert(one =~= other.take(one.len() as int));
}

/// Frames with the same histogram have the same dominant colours.
pub proof fn law_same_histogram_same_dominants<
    'a,
    D: Fn(Metric, [u8; 3], usize) -> Distance,
>(
    palette: &'a Palette,
    dist: D,
    algo: Algorithm,
    p: Seq<[u8; 3]>,
    q: Seq<[u8; 3]>,
    count: u8,
    one: Seq<Dominant<'a>>,
    other: Seq<Dominant<'a>>,
)
    requires
        palette.wf(),
        consistent(dist),
        histogram(p) == histogram(q),
        extracted(palette, dist, algo, p, count, one),
        extracted(palette, dist, algo, q, count, other),
    ensures
        one == other,
{
    assert(swatches(p, count) == swatches(q, count));
    lemma_named_alike(palette, dist, algo, swatches(p, count), frame_total(p), one, other);
    assert(other.take(one.len() as int) =~= other);
}

/// Extraction depends on nothing but the histogram of the pixels, the count,
/// the algorithm and the container: two runs over frames with the same
/// histogram, each in a workspace of its own, new or used, leave equal
/// containers equal.
pub proof fn law_workspace_does_not_matter<'a, D: Fn(Metric, [u8; 3], usize) -> Distance>(
    palette: &'a Palette,
    dist: D,
    algo: Algorithm,
    p: Seq<[u8; 3]>,
    q: Seq<[u8; 3]>,
    count: u8,
    before: Seq<Option<Dominant<'a>>>,
    growable: bool,
    one: Seq<Option<Dominant<'a>>>,
    other: Seq<Option<Dominant<'a>>>,
)
    requires
        palette.wf(),
        consistent(dist),
        histogram(p) == histogram(q),
        delivered(palette, dist, algo, p, count, before, growable, one),
        delivered(palette, dist, algo, q, count, before, growable, other),
    ensures
        one == other,
{
    assert(swatches(p, count) == swatches(q, count));
    let a = lemma_delivery(palette, dist, algo, p, count, before, growable, one);
    let b = lemma_delivery(palette, dist, algo, q, count, before, growable, other);
    let (all, total) = (swatches(p, count), frame_total(p));
    if a.len() <= b.len() {
        lemma_named_alike(palette, dist, algo, all, total, a, b);
        lemma_full_stays(before, growable, b, a.len() as int);
    } else {
        lemma_named_alike(palette, dist, algo, all, total, b, a);
        lemma_full_stays(before, growable, a, b.len() as int);
    }
}

/// The dominant colours that were offered to a container.
proof fn lemma_delivery<'a, D: Fn(Metric, [u8; 3], usize) -> Distance>(
    palette: &'a Palette,
    dist: D,
    algo: Algorithm,
    pixels: Seq<[u8; 3]>,
    count: u8,
    before: Seq<Option<Dominant<'a>>>,
    growable: bool,
    after: Seq<Option<Dominant<'a>>>,
) -> (dominants: Seq<Dominant<'a>>)
    requires
        delivered(palette, dist, algo, pixels, count, before, growable, after),
    ensures
        named(palette, dist, algo, swatches(pixels, count), frame_total(pixels), dominants),
        after == filled(before, growable, dominants),
        dominants.len() < swatches(pixels, count).len() ==> !takes(after, growable),
{
    choose|dominants: Seq<Dominant<'a>>|
        {
            &&& #[trigger] named(
                palette,
                dist,
                algo,
                swatches(pixels, count),
                frame_total(pixels),
                dominants,
            )
            &&& after == filled(before, growable, dominants)
            &&& dominants.len() < swatches(pixels, count).len() ==> !takes(after, growable)
        }
}

/// A container that is full after the first values stays as it is.
proof fn lemma_full_stays<T>(before: Seq<Option<T>>, growable: bool, vals: Seq<T>, k: int)
    requires
        0 <= k <= vals.len(),
    ensures
        k == vals.len() || !takes(filled(before, growable, vals.take(k)), growable) ==> filled(
            before,
            growable,
            vals,
        ) == filled(before, growable, vals.take(k)),
{
    law_filled_in_turn(before, growable, vals.take(k), vals.skip(k));
    assert(vals.take(k) + vals.skip(k) =~= vals);
    if k == vals.len() {
        assert(vals.take(k) =~= vals);
    }
}

/// A container that takes the first `k` of the dominant colours and no more
/// ends up with these: what a container of unlimited room would be given,
/// cut off after `k`.
pub proof fn law_full_container_keeps_the_first<
    'a,
    D: Fn(Metric, [u8; 3], usize) -> Distance,
>(
    palette: &'a Palette,
    dist: D,
    algo: Algorithm,
    pixels: Seq<[u8; 3]>,
    count: u8,
    all: Seq<Dominant<'a>>,
    before: Seq<Option<Dominant<'a>>>,
    growable: bool,
    after: Seq<Option<Dominant<'a>>>,
    k: int,
)
    requires
        palette.wf(),
        consistent(dist),
        extracted(palette, dist, algo, pixels, count, all),
        delivered(palette, dist, algo, pixels, count, before, growable, after),
        0 <= k <= all.len(),
        k == all.len() || !takes(filled(before, growable, all.take(k)), growable),
    ensures
        after == filled(before, growable, all.take(k)),
{
    let given = lemma_delivery(palette, dist, algo, pixels, count, before, growable, after);
    lemma_named_alike(
        palette,
        dist,
        algo,
        swatches(pixels, count),
        frame_total(pixels),
        given,
        all,
    );
    lemma_full_stays(before, growable, all, given.len() as int);
    lemma_full_stays(before, growable, all, k);
}

/// The pixels of a bin, counted one by one.
spec fn bin_step(i: int) -> spec_fn(nat, [u8; 3]) -> nat {
    |n: nat, p: [u8; 3]|
        if pixel_bin(p) == i {
            n + 1
        } else {
            n
        }
}

proof fn lemma_tally_folds(pixels: Seq<[u8; 3]>, i: int)
    ensures
        tally(pixels, i) == pixels.fold_left(0nat, bin_step(i)),
    decreases pixels.len(),
{
    reveal(Seq::filter);
    if pixels.len() > 0 {
        lemma_tally_folds(pixels.drop_last(), i);
    }
}

/// The order of the pixels does not change the histogram.
pub proof fn law_order_does_not_matter(p: Seq<[u8; 3]>, q: Seq<[u8; 3]>)
    requires
        p.to_multiset() == q.to_multiset(),
    ensures
        histogram(p) == histogram(q),
{
    assert forall|i: int| #[trigger] tally(p, i) == tally(q, i) by {
        lemma_tally_folds(p, i);
        lemma_tally_folds(q, i);
        assert(commutative_foldl(bin_step(i)));
        lemma_fold_left_permutation(p, q, bin_step(i), 0nat);
    }
    assert(histogram(p) =~= histogram(q));
}

/// Whether two colours agree but for the low three bits of their channels.
pub open spec fn same_but_low_bits(p: [u8; 3], q: [u8; 3]) -> bool {
    p[0] / 8 == q[0] / 8 && p[1] / 8 == q[1] / 8 && p[2] / 8 == q[2] / 8
}

proof fn lemma_tally_alike(p: Seq<[u8; 3]>, q: Seq<[u8; 3]>, i: int)
    requires
        p.len() == q.len(),
        forall|k: int| 0 <= k < p.len() ==> same_but_low_bits(#[trigger] p[k], q[k]),
    ensures
        tally(p, i) == tally(q, i),
    decreases p.len(),
{
    reveal(Seq::filter);
    if p.len() > 0 {
        let (a, b) = (p.drop_last(), q.drop_last());
        assert forall|k: int| 0 <= k < a.len() implies same_but_low_bits(#[trigger] a[k], b[k]) by {
            assert(same_but_low_bits(p[k], q[k]));
        }
        lemma_tally_alike(a, b, i);
        assert(same_but_low_bits(p[p.len() - 1], q[p.len() - 1]));
        assert(pixel_bin(p.last()) == pixel_bin(q.last()));
    }
}

/// The low three bits of the channels do not change the histogram.
pub proof fn law_low_bits_do_not_matter(p: Seq<[u8; 3]>, q: Seq<[u8; 3]>)
    requires
        p.len() == q.len(),
        forall|k: int| 0 <= k < p.len() ==> same_but_low_bits(#[trigger] p[k], q[k]),
    ensures
        histogram(p) == histogram(q),
{
    assert forall|i: int| #[trigger] tally(p, i) == tally(q, i) by {
        lemma_tally_alike(p, q, i);
    }
    assert(histogram(p) =~= histogram(q));
}

/// Neither the order of the pixels nor the low three bits of their channels
/// matter: where `q` is `p` rearranged, as `shuffled`, with any low bits
/// changed, the two have the same dominant colours.
pub proof fn law_only_the_cells_matter<'a, D: Fn(Metric, [u8; 3], usize) -> Distance>(
    palette: &'a Palette,
    dist: D,
    algo: Algorithm,
    p: Seq<[u8; 3]>,
    shuffled: Seq<[u8; 3]>,
    q: Seq<[u8; 3]>,
    count: u8,
    before: Seq<Option<Dominant<'a>>>,
    growable: bool,
    one: Seq<Option<Dominant<'a>>>,
    other: Seq<Option<Dominant<'a>>>,
)
    requires
        palette.wf(),
        consistent(dist),
        p.to_multiset() == shuffled.to_multiset(),
        q.len() == shuffled.len(),
        forall|k: int| 0 <= k < q.len() ==> same_but_low_bits(#[trigger] q[k], shuffled[k]),
        delivered(palette, dist, algo, p, count, before, growable, one),
        delivered(palette, dist, algo, q, count, before, growable, other),
    ensures
        one == other,
        swatches(p, count) == swatches(q, count),
        frame_total(p) == frame_total(q),
{
    law_order_does_not_matter(p, shuffled);
    law_low_bits_do_not_matter(q, shuffled);
    law_workspace_does_not_matter(
        palette,
        dist,
        algo,
        p,
        q,
        count,
        before,
        growable,
        one,
        other,
    );
}

/// The algorithm only decides the names: two algorithms find the same colours
/// with the same pixels and shares on the same frame, and each names every
/// one of them by its own answer for that colour.
pub proof fn law_algorithm_only_names<'a, D: Fn(Metric, [u8; 3], usize) -> Distance>(
    palette: &'a Palette,
    dist: D,
    a: Algorithm,
    b: Algorithm,
    pixels: Seq<[u8; 3]>,
    count: u8,
    one: Seq<Dominant<'a>>,
    other: Seq<Dominant<'a>>,
)
    requires
        palette.wf(),
        consistent(dist),
        extracted(palette, dist, a, pixels, count, one),
        extracted(palette, dist, b, pixels, count, other),
    ensures
        one.len() == other.len(),
        forall|i: int|
            0 <= i < one.len() ==> (#[trigger] one[i]).swatch() == other[i].swatch()
                && one[i].frame_pixels() == other[i].frame_pixels(),
        forall|i: int, c: Color|
            0 <= i < one.len() ==> (#[trigger] palette.answered(dist, a, one[i].swatch().rgb, c)
                <==> c == one[i].entry()),
        forall|i: int, c: Color|
            0 <= i < other.len() ==> (#[trigger] palette.answered(
                dist,
                b,
                other[i].swatch().rgb,
                c,
            ) <==> c == other[i].entry()),
{
    lemma_named_by_answer(palette, dist, a, pixels, count, one);
    lemma_named_by_answer(palette, dist, b, pixels, count, other);
    assert forall|i: int| 0 <= i < one.len() implies (#[trigger] one[i]).swatch()
        == other[i].swatch() && one[i].frame_pixels() == other[i].frame_pixels() by {
        assert(other[i].swatch() == swatches(pixels, count)[i]);
    }
}

/// Each name is the one answer for its colour.
proof fn lemma_named_by_answer<'a, D: Fn(Metric, [u8; 3], usize) -> Distance>(
    palette: &'a Palette,
    dist: D,
    algo: Algorithm,
    pixels: Seq<[u8; 3]>,
    count: u8,
    found: Seq<Dominant<'a>>,
)
    requires
        palette.wf(),
        consistent(dist),
        extracted(palette, dist, algo, pixels, count, found),
    ensures
        forall|i: int, c: Color|
            0 <= i < found.len() ==> (#[trigger] palette.answered(
                dist,
                algo,
                found[i].swatch().rgb,
                c,
            ) <==> c == found[i].entry()),
{
    assert forall|i: int, c: Color| 0 <= i < found.len() implies (#[trigger] palette.answered(
        dist,
        algo,
        found[i].swatch().rgb,
        c,
    ) <==> c == found[i].entry()) by {
        let rgb = found[i].swatch().rgb;
        assert(palette.answered(dist, algo, rgb, found[i].entry()));
        if palette.answered(dist, algo, rgb, c) {
            law_answer_is_unique(palette, dist, algo, rgb, c, found[i].entry());
        }
    }
}

/// A sixteen-bit frame whose samples have the samples of an eight-bit frame
/// as their upper bytes gives the same dominant colours, names and all.
pub proof fn law_widened_frame_gives_the_same<
    'a,
    D: Fn(Metric, [u8; 3], usize) -> Distance,
>(
    palette: &'a Palette,
    dist: D,
    algo: Algorithm,
    narrow: RgbFrame<'_>,
    wide: Rgb48Frame<'_>,
    count: u8,
    one: Seq<Dominant<'a>>,
    other: Seq<Dominant<'a>>,
)
    requires
        palette.wf(),
        consistent(dist),
        narrow.wf(),
        wide.wf(),
        narrow.geometry() == wide.geometry(),
        narrow.plane().len() == wide.plane().len(),
        forall|i: int|
            0 <= i < wide.plane().len() ==> narrowed(#[trigger] wide.plane()[i])
                == narrow.plane()[i],
        extracted(palette, dist, algo, narrow.image(), count, one),
        extracted(palette, dist, algo, wide.image(), count, other),
    ensures
        one == other,
{
    law_widened_frame_is_the_same_image(narrow, wide);
    law_same_histogram_same_dominants(
        palette,
        dist,
        algo,
        narrow.image(),
        wide.image(),
        count,
        one,
        other,
    );
}

/// What an extraction returns: as many dominant colours as the frame has for
/// the count, each with its colour and its pixels, set against all pixels of
/// the frame.
pub proof fn law_what_is_returned<'a, 'b, D: Fn(Metric, [u8; 3], usize) -> Distance>(
    palette: &'a Palette,
    dist: D,
    algo: Algorithm,
    frame: RgbFrame<'b>,
    count: u8,
    out: Vec<Dominant<'a>>,
    i: int,
)
    requires
        frame.wf(),
        call_ensures(extract_with::<D>, (frame, count, algo, palette, &dist), out),
        0 <= i < out@.len(),
    ensures
        out@.len() == swatches(frame.image(), count).len(),
        out@.len() <= count,
        out@[i].swatch().rgb == swatches(frame.image(), count)[i].rgb,
        out@[i].swatch().population == swatches(frame.image(), count)[i].population,
        out@[i].frame_pixels() == frame_total(frame.image()),
        frame.geometry().0 * frame.geometry().1 <= u32::MAX ==> out@[i].frame_pixels()
            == frame.geometry().0 * frame.geometry().1,
{
    assert(extracted(palette, dist, algo, frame.image(), count, out@));
    let (w, h, s) = frame.geometry();
    assert(w * h >= 0) by (nonlinear_arith)
        requires
            w >= 0,
            h >= 0,
    ;
    if w * h <= u32::MAX {
        law_frame_total(frame.image());
    }
    crate::mmcq::laws::law_at_most_count(frame.image(), count);
}

/// Each dominant colour's name is the first of the entries nearest to it by
/// the metric asked for, in a palette without a candidate table: Delta E 76,
/// CIE94 or, under both of its names and by default, CIEDE2000.
pub proof fn law_names_are_the_nearest<'a, 'b, D: Fn(Metric, [u8; 3], usize) -> Distance>(
    palette: &'a Palette,
    dist: D,
    algo: Algorithm,
    frame: RgbFrame<'b>,
    count: u8,
    out: Vec<Dominant<'a>>,
    i: int,
    ds: Seq<Distance>,
) -> (k: int)
    requires
        palette.wf(),
        palette.table() is None,
        call_ensures(extract_with::<D>, (frame, count, algo, palette, &dist), out) || (
        call_ensures(extract::<D>, (frame, count, palette, &dist), out) && algo is Ciede2000Exact),
        0 <= i < out@.len(),
        ds.len() == palette@.len(),
        algo is DeltaE76 ==> tells(dist, Metric::DeltaE76, out@[i].swatch().rgb, ds),
        algo is Cie94 ==> tells(dist, Metric::Cie94, out@[i].swatch().rgb, ds),
        algo is Ciede2000 ==> tells(dist, Metric::Ciede2000, out@[i].swatch().rgb, ds),
        algo is Ciede2000Exact ==> tells(dist, Metric::Ciede2000, out@[i].swatch().rgb, ds),
    ensures
        first_nearest(ds, k),
        palette@[k] == out@[i].entry(),
{
    assert(extracted(palette, dist, algo, frame.image(), count, out@));
    let rgb = out@[i].swatch().rgb;
    assert(palette.answered(dist, algo, rgb, out@[i].entry()));
    lemma_answer_is_nearest(palette, dist, algo, rgb, out@[i].entry(), ds)
}

/// As [`law_what_is_returned`] and [`law_names_are_the_nearest`], for
/// sixteen-bit frames.
pub proof fn law_what_is_returned_of_rgb48<'a, 'b, D: Fn(Metric, [u8; 3], usize) -> Distance>(
    palette: &'a Palette,
    dist: D,
    algo: Algorithm,
    frame: Rgb48Frame<'b>,
    count: u8,
    out: Vec<Dominant<'a>>,
    i: int,
    ds: Seq<Distance>,
) -> (k: int)
    requires
        palette.wf(),
        palette.table() is None,
        frame.wf(),
        frame.geometry().0 * frame.geometry().1 <= u32::MAX,
        call_ensures(extract_rgb48_with::<D>, (frame, count, algo, palette, &dist), out) || (
        call_ensures(extract_rgb48::<D>, (frame, count, palette, &dist), out)
            && algo is Ciede2000Exact),
        0 <= i < out@.len(),
        ds.len() == palette@.len(),
        algo is DeltaE76 ==> tells(dist, Metric::DeltaE76, out@[i].swatch().rgb, ds),
        algo is Cie94 ==> tells(dist, Metric::Cie94, out@[i].swatch().rgb, ds),
        algo is Ciede2000 ==> tells(dist, Metric::Ciede2000, out@[i].swatch().rgb, ds),
        algo is Ciede2000Exact ==> tells(dist, Metric::Ciede2000, out@[i].swatch().rgb, ds),
    ensures
        out@.len() == swatches(frame.image(), count).len(),
        out@[i].swatch().rgb == swatches(frame.image(), count)[i].rgb,
        out@[i].swatch().population == swatches(frame.image(), count)[i].population,
        out@[i].frame_pixels() == frame.geometry().0 * frame.geometry().1,
        first_nearest(ds, k),
        palette@[k] == out@[i].entry(),
{
    assert(extracted(palette, dist, algo, frame.image(), count, out@));
    let (w, h, s) = frame.geometry();
    assert(w * h >= 0) by (nonlinear_arith)
        requires
            w >= 0,
            h >= 0,
    ;
    law_frame_total(frame.image());
    let rgb = out@[i].swatch().rgb;
    assert(palette.answered(dist, algo, rgb, out@[i].entry()));
    lemma_answer_is_nearest(palette, dist, algo, rgb, out@[i].entry(), ds)
}

} // verus!
