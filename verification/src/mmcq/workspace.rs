//! The quantizer's workspace and its extraction run.

use vstd::prelude::*;

verus! {

use crate::algorithm::Algorithm;
use crate::buffer::{Buffer, filled, lemma_filled_push, takes};
use crate::color::Color;
use crate::distance::{Distance, Metric, answers};
use crate::dominant::{Dominant, Swatch, named};
use crate::mmcq::arena::BoxArena;
use crate::mmcq::histogram::{any_populated, bounding, build_histogram, histogram, initial_vbox};
use crate::mmcq::order::{Rank, all_valid, ranked, regions, sort_boxes};
use crate::mmcq::simd::sum_u32_slice;
use crate::mmcq::space::{HISTO_SIZE, Region, counted, mean_rgb};
use crate::mmcq::split::{iterate_split, split_until};
use crate::mmcq::sums::{clamp32, seq_sum};
use crate::mmcq::vbox::VBox;
use crate::palette::Palette;

/// Boxes to aim for: at least two.
pub open spec fn box_target(count: u8) -> nat {
    if count < 2 {
        2
    } else {
        count as nat
    }
}

/// The boxes that histogram `h` is cut into for `count` colours: split by
/// population to three quarters of the target, rounded up, then by population
/// times volume to the target; the most populous first.
pub open spec fn quantized(h: Seq<u32>, count: u8) -> Seq<Region> {
    let target = box_target(count);
    let coarse = split_until(
        h,
        ((3 * target + 3) / 4) as nat,
        Rank::Population,
        seq![bounding(h)],
    );
    ranked(h, Rank::Scarcity, split_until(h, target, Rank::PopulationVolume, coarse))
}

/// The boxes that hold pixels.
pub open spec fn with_pixels(h: Seq<u32>, boxes: Seq<Region>) -> Seq<Region> {
    boxes.filter(|r: Region| counted(h, r) > 0)
}

/// At most `count` of the first elements.
pub open spec fn at_most<T>(s: Seq<T>, count: nat) -> Seq<T> {
    if s.len() <= count {
        s
    } else {
        s.take(count as int)
    }
}

/// The colour and the pixels of a box.
pub open spec fn swatch_of(h: Seq<u32>, region: Region) -> Swatch {
    Swatch { rgb: mean_rgb(h, region), population: counted(h, region) }
}

/// The dominant colours of `pixels`, at most `count`, the most populous
/// first.
pub open spec fn swatches(pixels: Seq<[u8; 3]>, count: u8) -> Seq<Swatch> {
    let h = histogram(pixels);
    if count == 0 || !any_populated(h) {
        Seq::empty()
    } else {
        at_most(with_pixels(h, quantized(h, count)), count as nat).map_values(
            |r: Region| swatch_of(h, r),
        )
    }
}

/// Pixels of a frame, as a `u32` counts them.
pub open spec fn frame_total(pixels: Seq<[u8; 3]>) -> u32 {
    clamp32(seq_sum(histogram(pixels)))
}

/// Whether `after` is what a container of the slots `before` holds once the
/// dominant colours of `pixels` were pushed into it, named under `algo`: at
/// most `count` of them, the most populous first, and none after the first
/// that finds no place.
pub open spec fn delivered<'a, D: Fn(Metric, [u8; 3], usize) -> Distance>(
    palette: &'a Palette,
    dist: D,
    algo: Algorithm,
    pixels: Seq<[u8; 3]>,
    count: u8,
    before: Seq<Option<Dominant<'a>>>,
    growable: bool,
    after: Seq<Option<Dominant<'a>>>,
) -> bool {
    exists|dominants: Seq<Dominant<'a>>|
        {
            &&& #[trigger] named(
                palette,
                dist,
                algo,
                swatches(pixels, count),
                frame_total(pixels),
                dominants,
            )
            &&& after == filled(before, growable, dominants)
            &&& dominants.len() < swatches(pixels, count).len() ==> !takes(after, growable)
        }
}

/// A histogram and a stack of boxes, reused from run to run.
pub struct Mmcq {
    pub histogram: [u32; HISTO_SIZE],
    pub boxes: BoxArena,
}

impl Mmcq {
    /// A workspace with an empty histogram and no boxes.
    pub fn new() -> (m: Mmcq)
        ensures
            forall|i: int| 0 <= i < HISTO_SIZE ==> #[trigger] m.histogram@[i] == 0,
            m.boxes@.len() == 0,
    {
        Mmcq { histogram: [0u32; HISTO_SIZE], boxes: BoxArena::new() }
    }

    /// A workspace on the heap.
    pub fn new_boxed() -> (m: Box<Mmcq>)
        ensures
            forall|i: int| 0 <= i < HISTO_SIZE ==> #[trigger] m.histogram@[i] == 0,
            m.boxes@.len() == 0,
    {
        Box::new(Mmcq::new())
    }

    /// Cuts the histogram into boxes for `count` colours.
    fn quantize_histogram(&mut self, count: u8)
        requires
            count > 0,
        ensures
            final(self).histogram == old(self).histogram,
            all_valid(final(self).histogram@, final(self).boxes@),
            regions(final(self).boxes@) == (if any_populated(old(self).histogram@) {
                quantized(old(self).histogram@, count)
            } else {
                Seq::empty()
            }),
    {
        self.boxes.clear();
        let ghost h = self.histogram@;
        let first: VBox = match initial_vbox(self.histogram.as_slice()) {
            Some(b) => b,
            None => {
                assert(regions(self.boxes@) =~= Seq::empty());
                return;
            },
        };
        let _ = self.boxes.push(first);
        assert(regions(self.boxes@) =~= seq![bounding(h)]);
        let target: usize = if count < 2 {
            2
        } else {
            count as usize
        };
        iterate_split(
            &mut self.boxes,
            (3 * target + 3) / 4,
            self.histogram.as_slice(),
            Rank::Population,
        );
        iterate_split(
            &mut self.boxes,
            target,
            self.histogram.as_slice(),
            Rank::PopulationVolume,
        );
        sort_boxes(self.boxes.as_mut_slice(), self.histogram.as_slice(), Rank::Scarcity);
    }

    /// Finds the dominant colours of `pixels`, names each under `algo`, and
    /// pushes them into `out`, the most populous first: at most `count` of
    /// them, and none after the first that `out` has no place for. What the
    /// workspace held before does not matter.
    pub fn extract<'a, D: Fn(Metric, [u8; 3], usize) -> Distance, B: Buffer<Dominant<'a>>>(
        &mut self,
        pixels: &[[u8; 3]],
        count: u8,
        algo: Algorithm,
        palette: &'a Palette,
        dist: &D,
        out: &mut B,
    )
        requires
            palette.wf(),
            answers(*dist, palette@.len()),
        ensures
            final(out).growable() == old(out).growable(),
            delivered(
                palette,
                *dist,
                algo,
                pixels@,
                count,
                old(out).slots(),
                old(out).growable(),
                final(out).slots(),
            ),
            count > 0 ==> final(self).histogram@ == histogram(pixels@),
            count == 0 ==> *final(self) == *old(self),
    {
        let ghost mut dominants: Seq<Dominant<'a>> = Seq::empty();
        let ghost wanted = swatches(pixels@, count);
        let ghost total = frame_total(pixels@);
        let ghost slots = out.slots();
        let ghost growable = out.growable();
        if count == 0 {
            assert(named(palette, *dist, algo, wanted, total, dominants));
            return;
        }
        build_histogram(pixels, &mut self.histogram);
        let total_pixels: u32 = sum_u32_slice(self.histogram.as_slice());
        self.quantize_histogram(count);
        let ghost h = self.histogram@;
        let ghost cut = regions(self.boxes@);
        let histo: &[u32] = self.histogram.as_slice();
        let boxes: &[VBox] = self.boxes.as_slice();
        let mut i: usize = 0;
        let mut written: usize = 0;
        proof {
            lemma_with_pixels(h, cut, 0);
            if !any_populated(h) {
                assert(with_pixels(h, cut) =~= Seq::empty());
            }
            assert(wanted =~= at_most(with_pixels(h, cut), count as nat).map_values(
                |r: Region| swatch_of(h, r),
            ));
        }
        while i < boxes.len() && written < count as usize
            invariant
                i <= boxes@.len(),
                h == histo@,
                all_valid(h, boxes@),
                cut == regions(boxes@),
                written <= count,
                written == with_pixels(h, cut.take(i as int)).len(),
                wanted == at_most(with_pixels(h, cut), count as nat).map_values(
                    |r: Region| swatch_of(h, r),
                ),
                total_pixels == total,
                palette.wf(),
                answers(*dist, palette@.len()),
                dominants.len() == written,
                named(palette, *dist, algo, wanted, total, dominants),
                out.growable() == growable,
                out.slots() == filled(slots, growable, dominants),
                slots == old(out).slots(),
                growable == old(out).growable(),
                wanted == swatches(pixels@, count),
                total == frame_total(pixels@),
                h == histogram(pixels@),
                self.histogram@ == h,
                count > 0,
            decreases boxes@.len() - i,
        {
            let mut vbox: VBox = boxes[i];
            let pop: u32 = vbox.count(histo);
            proof {
                lemma_with_pixels(h, cut, i as int);
                assert(cut[i as int] == vbox@);
            }
            if pop > 0 {
                let rgb: [u8; 3] = vbox.avg(histo);
                let color: &'a Color = algo.extract(rgb, palette, dist);
                let dominant: Dominant<'a> = Dominant::new(rgb, color, pop, total_pixels);
                let ghost before = dominants;
                if out.try_push(dominant).is_some() {
                    return;
                }
                proof {
                    lemma_filled_push(slots, growable, dominants, dominant);
                    dominants = dominants.push(dominant);
                    assert(wanted[written as int] == swatch_of(h, cut[i as int]));
                    assert(forall|k: int| 0 <= k < before.len() ==> dominants[k] == before[k]);
                    assert(named(palette, *dist, algo, wanted, total, dominants));
                }
                written += 1;
            }
            i += 1;
        }
        proof {
            if i == boxes@.len() {
                assert(cut.take(i as int) =~= cut);
            } else {
                lemma_with_pixels(h, cut, i as int);
            }
            assert(dominants.len() == wanted.len());
        }
    }
}

/// The boxes with pixels among the first `i` are the first of the boxes with
/// pixels; the next one follows them.
proof fn lemma_with_pixels(h: Seq<u32>, boxes: Seq<Region>, i: int)
    requires
        0 <= i <= boxes.len(),
    ensures
        with_pixels(h, boxes.take(0)).len() == 0,
        with_pixels(h, boxes.take(i)).len() <= with_pixels(h, boxes).len(),
        i < boxes.len() && counted(h, boxes[i]) == 0 ==> with_pixels(h, boxes.take(i + 1))
            == with_pixels(h, boxes.take(i)),
        i < boxes.len() && counted(h, boxes[i]) > 0 ==> {
            &&& with_pixels(h, boxes.take(i + 1)) == with_pixels(h, boxes.take(i)).push(boxes[i])
            &&& with_pixels(h, boxes.take(i)).len() < with_pixels(h, boxes).len()
            &&& with_pixels(h, boxes)[with_pixels(h, boxes.take(i)).len() as int] == boxes[i]
        },
{
    let f = |r: Region| counted(h, r) > 0;
    reveal(Seq::filter);
    assert(boxes.take(0) =~= Seq::empty());
    Seq::filter_distributes_over_add(boxes.take(i), boxes.skip(i), f);
    assert(boxes.take(i) + boxes.skip(i) =~= boxes);
    if i < boxes.len() {
        assert(boxes.take(i + 1).drop_last() =~= boxes.take(i));
        Seq::filter_distributes_over_add(boxes.take(i + 1), boxes.skip(i + 1), f);
        assert(boxes.take(i + 1) + boxes.skip(i + 1) =~= boxes);
    }
}

} // verus!
