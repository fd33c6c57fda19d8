//! The quantized colour space: five bits per channel, one histogram bin per
//! cell, and the inclusive boxes that the cutter works on.

use vstd::prelude::*;

verus! {

use crate::mmcq::sums::{clamp32, range_sum};

/// Significant bits kept per channel.
pub const SIGBITS: u32 = 5;

/// Bits dropped per channel.
pub const RSHIFT: u32 = 3;

/// Values per quantized channel.
pub const HISTO_LEVELS: usize = 32;

/// Bins in the histogram.
pub const HISTO_SIZE: usize = 32768;

/// A box of the quantized space, all six bounds inclusive.
#[verifier::ext_equal]
pub struct Region {
    pub r1: int,
    pub r2: int,
    pub g1: int,
    pub g2: int,
    pub b1: int,
    pub b2: int,
}

/// A channel of the quantized space.
#[derive(Clone, Copy, Debug, PartialEq, Eq, Structural)]
pub enum Axis {
    R,
    G,
    B,
}

/// The histogram bin of a cell.
pub open spec fn bin(r: int, g: int, b: int) -> int {
    r * 1024 + g * 32 + b
}

/// Whether a cell lies in the quantized space.
pub open spec fn in_space(r: int, g: int, b: int) -> bool {
    0 <= r < 32 && 0 <= g < 32 && 0 <= b < 32
}

impl Region {
    /// Whether the box is non-empty and lies within the quantized space.
    pub open spec fn fits(self) -> bool {
        &&& 0 <= self.r1 <= self.r2 < 32
        &&& 0 <= self.g1 <= self.g2 < 32
        &&& 0 <= self.b1 <= self.b2 < 32
    }

    /// Whether the cell lies in the box.
    pub open spec fn has(self, r: int, g: int, b: int) -> bool {
        self.r1 <= r <= self.r2 && self.g1 <= g <= self.g2 && self.b1 <= b <= self.b2
    }

    /// Lowest coordinate along `axis`.
    pub open spec fn lo(self, axis: Axis) -> int {
        match axis {
            Axis::R => self.r1,
            Axis::G => self.g1,
            Axis::B => self.b1,
        }
    }

    /// Highest coordinate along `axis`.
    pub open spec fn hi(self, axis: Axis) -> int {
        match axis {
            Axis::R => self.r2,
            Axis::G => self.g2,
            Axis::B => self.b2,
        }
    }

    /// Cells along `axis`.
    pub open spec fn width(self, axis: Axis) -> int {
        self.hi(axis) - self.lo(axis) + 1
    }

    /// Cells in the box.
    pub open spec fn volume(self) -> int {
        self.width(Axis::R) * self.width(Axis::G) * self.width(Axis::B)
    }

    /// The part of the box whose coordinate along `axis` runs from `lo` to
    /// `hi`.
    pub open spec fn slab(self, axis: Axis, lo: int, hi: int) -> Region {
        match axis {
            Axis::R => Region { r1: lo, r2: hi, ..self },
            Axis::G => Region { g1: lo, g2: hi, ..self },
            Axis::B => Region { b1: lo, b2: hi, ..self },
        }
    }
}

/// The sum of `w` over one run of cells along the blue axis.
pub open spec fn row_sum(w: spec_fn(int, int, int) -> nat, r: int, g: int, region: Region) -> nat {
    range_sum(|b: int| w(r, g, b), region.b1, region.b2)
}

/// The sum of `w` over one red slice of the box.
pub open spec fn plane_sum(w: spec_fn(int, int, int) -> nat, r: int, region: Region) -> nat {
    range_sum(|g: int| row_sum(w, r, g, region), region.g1, region.g2)
}

/// The sum of `w` over every cell of the box.
pub open spec fn box_sum(w: spec_fn(int, int, int) -> nat, region: Region) -> nat {
    range_sum(|r: int| plane_sum(w, r, region), region.r1, region.r2)
}

/// Pixels per cell.
pub open spec fn cell_pop(h: Seq<u32>) -> spec_fn(int, int, int) -> nat {
    |r: int, g: int, b: int| h[bin(r, g, b)] as nat
}

/// Pixels per cell, each weighted by the cell's centre along `axis` in
/// eight-bit units: a cell at coordinate `k` spans `8k ..= 8k + 7` and is
/// centred on `8k + 4`.
pub open spec fn cell_mass(h: Seq<u32>, axis: Axis) -> spec_fn(int, int, int) -> nat {
    |r: int, g: int, b: int|
        (h[bin(r, g, b)] * (8 * (match axis {
            Axis::R => r,
            Axis::G => g,
            Axis::B => b,
        }) + 4)) as nat
}

/// Pixels in the box.
pub open spec fn population(h: Seq<u32>, region: Region) -> nat {
    box_sum(cell_pop(h), region)
}

/// Pixels in the box as a `u32` counts them: held at the largest value.
pub open spec fn counted(h: Seq<u32>, region: Region) -> u32 {
    clamp32(population(h, region))
}

/// The box's colour along one channel: the mean of its pixels' cell centres,
/// rounded down; for a box without pixels its geometric centre.
pub open spec fn mean_channel(h: Seq<u32>, region: Region, axis: Axis) -> int {
    if population(h, region) > 0 {
        box_sum(cell_mass(h, axis), region) as int / population(h, region) as int
    } else {
        let centre = (8 * (region.lo(axis) + region.hi(axis) + 1)) / 2;
        if centre > 255 {
            255
        } else {
            centre
        }
    }
}

/// The box's colour.
pub open spec fn mean_rgb(h: Seq<u32>, region: Region) -> [u8; 3] {
    [
        mean_channel(h, region, Axis::R) as u8,
        mean_channel(h, region, Axis::G) as u8,
        mean_channel(h, region, Axis::B) as u8,
    ]
}

} // verus!
