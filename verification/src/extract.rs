//! Extraction of a frame's dominant colours.

use vstd::prelude::*;

verus! {

use crate::algorithm::Algorithm;
use crate::buffer::{Buffer, filled, law_growable_appends, takes};
use crate::distance::{Distance, Metric, answers};
use crate::dominant::{Dominant, named};
use crate::frame::{Rgb48Frame, RgbFrame};
use crate::mmcq::workspace::{Mmcq, frame_total, swatches};
use crate::palette::Palette;

/// Whether `dominants` are all the dominant colours of `pixels` for `count`,
/// named under `algo`.
pub open spec fn extracted<'a, D: Fn(Metric, [u8; 3], usize) -> Distance>(
    palette: &'a Palette,
    dist: D,
    algo: Algorithm,
    pixels: Seq<[u8; 3]>,
    count: u8,
    dominants: Seq<Dominant<'a>>,
) -> bool {
    &&& dominants.len() == swatches(pixels, count).len()
    &&& named(palette, dist, algo, swatches(pixels, count), frame_total(pixels), dominants)
}

/// The dominant colours of `pixels`, at most `count`, the most populous
/// first.
pub fn quantize<'a, D: Fn(Metric, [u8; 3], usize) -> Distance>(
    pixels: &[[u8; 3]],
    count: u8,
    algo: Algorithm,
    palette: &'a Palette,
    dist: &D,
) -> (out: Vec<Dominant<'a>>)
    requires
        palette.wf(),
        answers(*dist, palette@.len()),
    ensures
        extracted(palette, *dist, algo, pixels@, count, out@),
{
    let mut mmcq: Box<Mmcq> = Mmcq::new_boxed();
    let mut out: Vec<Dominant<'a>> = Vec::new();
    let ghost before = out@;
    mmcq.extract(pixels, count, algo, palette, dist, &mut out);
    proof {
        let dominants = choose|dominants: Seq<Dominant<'a>>|
            {
                &&& #[trigger] named(
                    palette,
                    *dist,
                    algo,
                    swatches(pixels@, count),
                    frame_total(pixels@),
                    dominants,
                )
                &&& out.slots() == filled(
                    before.map_values(|v: Dominant<'a>| Some(v)),
                    true,
                    dominants,
                )
                &&& dominants.len() < swatches(pixels@, count).len() ==> !takes(out.slots(), true)
            };
        law_growable_appends(before, dominants);
        assert(before + dominants =~= dominants);
        assert(out@.map_values(|v: Dominant<'a>| Some(v)) == dominants.map_values(
            |v: Dominant<'a>| Some(v),
        ));
        assert(out@.len() == out@.map_values(|v: Dominant<'a>| Some(v)).len());
        assert(out@.len() == dominants.map_values(|v: Dominant<'a>| Some(v)).len());
        assert forall|i: int| 0 <= i < out@.len() implies out@[i] == dominants[i] by {
            assert(out@.map_values(|v: Dominant<'a>| Some(v))[i] == Some(out@[i]));
            assert(dominants.map_values(|v: Dominant<'a>| Some(v))[i] == Some(dominants[i]));
        }
        assert(out@ =~= dominants);
    }
    out
}

/// The dominant colours of `frame`, named by the default algorithm.
pub fn extract<'a, D: Fn(Metric, [u8; 3], usize) -> Distance>(
    frame: RgbFrame<'_>,
    count: u8,
    palette: &'a Palette,
    dist: &D,
) -> (out: Vec<Dominant<'a>>)
    requires
        frame.wf(),
        palette.wf(),
        answers(*dist, palette@.len()),
    ensures
        extracted(palette, *dist, Algorithm::Ciede2000Exact, frame.image(), count, out@),
{
    extract_with(frame, count, Algorithm::default(), palette, dist)
}

/// The dominant colours of `frame`, named under `algo`: at most `count`, the
/// most populous first.
pub fn extract_with<'a, D: Fn(Metric, [u8; 3], usize) -> Distance>(
    frame: RgbFrame<'_>,
    count: u8,
    algo: Algorithm,
    palette: &'a Palette,
    dist: &D,
) -> (out: Vec<Dominant<'a>>)
    requires
        frame.wf(),
        palette.wf(),
        answers(*dist, palette@.len()),
    ensures
        extracted(palette, *dist, algo, frame.image(), count, out@),
{
    if count == 0 {
        return Vec::new();
    }
    let pixels: Vec<[u8; 3]> = frame.pixels();
    quantize(pixels.as_slice(), count, algo, palette, dist)
}

/// The dominant colours of a sixteen-bit `frame`, named by the default
/// algorithm.
pub fn extract_rgb48<'a, D: Fn(Metric, [u8; 3], usize) -> Distance>(
    frame: Rgb48Frame<'_>,
    count: u8,
    palette: &'a Palette,
    dist: &D,
) -> (out: Vec<Dominant<'a>>)
    requires
        frame.wf(),
        palette.wf(),
        answers(*dist, palette@.len()),
    ensures
        extracted(palette, *dist, Algorithm::Ciede2000Exact, frame.image(), count, out@),
{
    extract_rgb48_with(frame, count, Algorithm::default(), palette, dist)
}

/// The dominant colours of a sixteen-bit `frame`, named under `algo`: at most
/// `count`, the most populous first.
pub fn extract_rgb48_with<'a, D: Fn(Metric, [u8; 3], usize) -> Distance>(
    frame: Rgb48Frame<'_>,
    count: u8,
    algo: Algorithm,
    palette: &'a Palette,
    dist: &D,
) -> (out: Vec<Dominant<'a>>)
    requires
        frame.wf(),
        palette.wf(),
        answers(*dist, palette@.len()),
    ensures
        extracted(palette, *dist, algo, frame.image(), count, out@),
{
    if count == 0 {
        return Vec::new();
    }
    let pixels: Vec<[u8; 3]> = frame.pixels();
    quantize(pixels.as_slice(), count, algo, palette, dist)
}

} // verus!
