//! What share of a frame its dominant colours stand for.

use vstd::prelude::*;

verus! {

use crate::dominant::Swatch;
use crate::mmcq::box_sums::lemma_box_sum_same;
use crate::mmcq::conserve::{all_fit, lemma_no_pixels_no_weight, on_populated, total_weight};
use crate::mmcq::histogram::{any_populated, histogram};
use crate::mmcq::laws::{
    emitted, law_frame_total, law_most_populous_first, law_quantized_conserves, law_some_colour,
    lemma_any_populated, lemma_emitted, lemma_emitted_weight, lemma_whole_population, pixels_at,
    swatch_pixels, whole,
};
use crate::mmcq::space::{Region, cell_pop, counted};
use crate::mmcq::workspace::{frame_total, quantized, swatch_of, swatches, with_pixels};

/// Boxes without pixels can be left out of a weight.
pub proof fn lemma_total_with_pixels(
    w: spec_fn(int, int, int) -> nat,
    h: Seq<u32>,
    boxes: Seq<Region>,
)
    requires
        on_populated(w, h),
    ensures
        total_weight(w, with_pixels(h, boxes)) == total_weight(w, boxes),
    decreases boxes.len(),
{
    reveal(Seq::filter);
    if boxes.len() > 0 {
        let rest = boxes.drop_last();
        lemma_total_with_pixels(w, h, rest);
        if counted(h, boxes.last()) == 0 {
            lemma_no_pixels_no_weight(w, h, boxes.last());
        } else {
            let inner = with_pixels(h, rest);
            assert(inner.push(boxes.last()).drop_last() =~= inner);
        }
    }
}

/// The pixels behind the colours of boxes that hold no more pixels than a
/// `u32` counts.
proof fn lemma_pixels_behind_exactly(pixels: Seq<[u8; 3]>, boxes: Seq<Region>)
    requires
        all_fit(boxes),
        total_weight(pixels_at(histogram(pixels)), boxes) <= u32::MAX,
    ensures
        swatch_pixels(boxes.map_values(|r: Region| swatch_of(histogram(pixels), r)))
            == total_weight(pixels_at(histogram(pixels)), boxes),
    decreases boxes.len(),
{
    let h = histogram(pixels);
    let f = |r: Region| swatch_of(histogram(pixels), r);
    if boxes.len() > 0 {
        let rest = boxes.drop_last();
        assert(all_fit(rest)) by {
            assert(forall|i: int| 0 <= i < rest.len() ==> #[trigger] rest[i] == boxes[i]);
        }
        lemma_pixels_behind_exactly(pixels, rest);
        assert(boxes.map_values(f).drop_last() =~= rest.map_values(f));
        let last = boxes.last();
        assert(boxes[boxes.len() - 1].fits());
        lemma_box_sum_same(pixels_at(h), cell_pop(h), last);
        assert(boxes.map_values(f).last() == swatch_of(h, last));
    }
}

/// Two or more colours stand for every pixel of the frame: their populations
/// add up to the number of pixels, and their shares to a hundred percent.
pub proof fn law_shares_make_up_the_frame(pixels: Seq<[u8; 3]>, count: u8)
    requires
        pixels.len() <= u32::MAX,
        count >= 2,
    ensures
        swatch_pixels(swatches(pixels, count)) == pixels.len(),
        swatch_pixels(swatches(pixels, count)) == frame_total(pixels),
{
    let h = histogram(pixels);
    let w = pixels_at(h);
    lemma_emitted(pixels, count);
    law_frame_total(pixels);
    lemma_any_populated(pixels);
    if pixels.len() > 0 {
        let all = quantized(h, count);
        law_quantized_conserves(w, h, count);
        lemma_whole_population(h);
        lemma_box_sum_same(w, cell_pop(h), whole());
        lemma_total_with_pixels(w, h, all);
        all.lemma_filter_len(|r: Region| counted(h, r) > 0);
        assert(emitted(pixels, count) == with_pixels(h, all));
        lemma_emitted_weight(w, pixels, count);
        lemma_pixels_behind_exactly(pixels, emitted(pixels, count));
    } else {
        assert(swatches(pixels, count) =~= Seq::<Swatch>::empty());
    }
}

/// A single colour stands for at least half of the frame.
pub proof fn law_one_colour_has_half_the_frame(pixels: Seq<[u8; 3]>)
    requires
        0 < pixels.len() <= u32::MAX,
    ensures
        swatches(pixels, 1).len() == 1,
        2 * swatches(pixels, 1)[0].population >= pixels.len(),
{
    let h = histogram(pixels);
    let one = swatches(pixels, 1);
    let two = swatches(pixels, 2);
    law_shares_make_up_the_frame(pixels, 2);
    law_most_populous_first(pixels, 2);
    law_some_colour(pixels, 1);
    law_some_colour(pixels, 2);
    lemma_any_populated(pixels);
    assert(any_populated(h));
    assert(quantized(h, 1) == quantized(h, 2));
    law_quantized_conserves(pixels_at(h), h, 2);
    with_pixels(h, quantized(h, 2)).lemma_filter_len(|r: Region| counted(h, r) > 0);
    lemma_emitted(pixels, 1);
    lemma_emitted(pixels, 2);
    assert(one[0] == two[0]);
    reveal_with_fuel(swatch_pixels, 3);
    if two.len() == 2 {
        assert(two.drop_last().last() == two[0]);
        assert(two[0].population >= two[1].population);
    }
}

} // verus!
