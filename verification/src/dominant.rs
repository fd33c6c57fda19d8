//! One dominant colour of a frame.

use vstd::prelude::*;

verus! {

use crate::algorithm::Algorithm;
use crate::color::Color;
use crate::distance::{Distance, Metric};
use crate::palette::Palette;

/// A colour extracted from a frame, the palette entry that names it, and the
/// number of pixels behind it.
#[derive(Clone, Copy, Debug, PartialEq, Eq)]
pub struct Dominant<'a> {
    rgb: [u8; 3],
    color: &'a Color,
    population: u32,
    total: u32,
}

/// A colour with the number of pixels behind it.
pub struct Swatch {
    pub rgb: [u8; 3],
    pub population: u32,
}

impl<'a> Dominant<'a> {
    /// The colour and its pixels.
    pub closed spec fn swatch(&self) -> Swatch {
        Swatch { rgb: self.rgb, population: self.population }
    }

    /// The entry that names the colour.
    pub closed spec fn entry(&self) -> Color {
        *self.color
    }

    /// Pixels of the whole frame.
    pub closed spec fn frame_pixels(&self) -> u32 {
        self.total
    }

    /// Puts a dominant colour together.
    pub fn new(rgb: [u8; 3], color: &'a Color, population: u32, total: u32) -> (d: Dominant<'a>)
        ensures
            d.swatch() == (Swatch { rgb, population }),
            d.entry() == *color,
            d.frame_pixels() == total,
    {
        Dominant { rgb, color, population, total }
    }

    /// The extracted colour, centred on its cells.
    pub fn rgb(&self) -> (r: [u8; 3])
        ensures
            r == self.swatch().rgb,
    {
        self.rgb
    }

    /// The palette entry closest to [`Dominant::rgb`].
    pub fn color(&self) -> (r: &'a Color)
        ensures
            *r == self.entry(),
    {
        self.color
    }

    /// Pixels of the frame behind this colour.
    pub fn population(&self) -> (r: u32)
        ensures
            r == self.swatch().population,
    {
        self.population
    }

    /// The share of the frame behind this colour in percent, as an exact
    /// fraction: a hundred times the colour's pixels over all pixels.
    pub fn percentage(&self) -> (r: (u64, u64))
        ensures
            r.0 == 100 * self.swatch().population,
            r.1 == self.frame_pixels(),
    {
        (100 * self.population as u64, self.total as u64)
    }
}

/// A dominant colour is its colour, its pixels, its name and its frame's
/// pixels.
pub proof fn law_dominant_is_its_parts<'a>(one: Dominant<'a>, other: Dominant<'a>)
    requires
        one.swatch() == other.swatch(),
        one.entry() == other.entry(),
        one.frame_pixels() == other.frame_pixels(),
    ensures
        one == other,
{
    assert(one.rgb == one.swatch().rgb && other.rgb == other.swatch().rgb);
}

/// Whether `dominants` are the first of `swatches`, each named by the palette
/// under `algo` and set against a frame of `total` pixels.
pub open spec fn named<'a, D: Fn(Metric, [u8; 3], usize) -> Distance>(
    palette: &'a Palette,
    dist: D,
    algo: Algorithm,
    swatches: Seq<Swatch>,
    total: u32,
    dominants: Seq<Dominant<'a>>,
) -> bool {
    &&& dominants.len() <= swatches.len()
    &&& forall|k: int|
        0 <= k < dominants.len() ==> {
            &&& (#[trigger] dominants[k]).swatch() == swatches[k]
            &&& dominants[k].frame_pixels() == total
            &&& palette.answered(dist, algo, swatches[k].rgb, dominants[k].entry())
        }
}

} // verus!
