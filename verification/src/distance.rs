//! Colour distances as the bit patterns of IEEE 754 single-precision
//! numbers, with the comparisons that the searches need.

use vstd::prelude::*;

verus! {

/// Bit pattern of positive infinity.
pub const INFINITY_BITS: u32 = 0x7f80_0000;

/// A squared colour distance, held as the bit pattern of a single-precision
/// number. The numbers compare as IEEE 754 prescribes: a NaN is neither
/// below, above nor equal to anything, and both zeros are equal.
#[derive(Clone, Copy, Debug, PartialEq, Eq, Structural)]
pub struct Distance {
    pub bits: u32,
}

/// A colour-difference formula.
#[derive(Clone, Copy, Debug, PartialEq, Eq, Hash, Structural)]
pub enum Metric {
    /// Squared Euclidean distance in LAB.
    DeltaE76,
    /// CIE94 with graphic-arts weights, the palette entry as reference.
    Cie94,
    /// CIEDE2000.
    Ciede2000,
}

impl Distance {
    /// Whether the number carries a minus sign.
    pub open spec fn negative(self) -> bool {
        self.bits >= 0x8000_0000
    }

    /// The bits below the sign: exponent and significand.
    pub open spec fn magnitude(self) -> int {
        if self.negative() {
            self.bits - 0x8000_0000
        } else {
            self.bits as int
        }
    }

    /// Whether the bits stand for no number.
    pub open spec fn nan(self) -> bool {
        self.magnitude() > INFINITY_BITS
    }

    /// An integer that orders the numbers as their values do.
    pub open spec fn level(self) -> int {
        if self.negative() {
            -self.magnitude()
        } else {
            self.magnitude()
        }
    }

    /// Whether `self` is below `other`.
    pub open spec fn below(self, other: Distance) -> bool {
        !self.nan() && !other.nan() && self.level() < other.level()
    }

    /// Whether `self` is at least `other`.
    pub open spec fn at_least(self, other: Distance) -> bool {
        !self.nan() && !other.nan() && self.level() >= other.level()
    }

    /// Whether `self` is below positive infinity.
    pub open spec fn bounded(self) -> bool {
        !self.nan() && self.level() < INFINITY_BITS
    }

    /// The distance with the given bit pattern.
    pub fn from_bits(bits: u32) -> (d: Distance)
        ensures
            d.bits == bits,
    {
        Distance { bits }
    }

    /// Positive infinity.
    pub fn infinity() -> (d: Distance)
        ensures
            d.bits == INFINITY_BITS,
            !d.nan(),
            d.level() == INFINITY_BITS,
    {
        Distance { bits: INFINITY_BITS }
    }

    fn magnitude_bits(self) -> (m: u32)
        ensures
            m == self.magnitude(),
    {
        if self.bits >= 0x8000_0000 {
            self.bits - 0x8000_0000
        } else {
            self.bits
        }
    }

    /// Whether the bits stand for no number.
    pub fn is_nan(self) -> (b: bool)
        ensures
            b == self.nan(),
    {
        self.magnitude_bits() > INFINITY_BITS
    }

    /// The comparison `self < other`.
    pub fn less_than(self, other: Distance) -> (b: bool)
        ensures
            b == self.below(other),
    {
        if self.is_nan() || other.is_nan() {
            return false;
        }
        let m: u32 = self.magnitude_bits();
        let n: u32 = other.magnitude_bits();
        if self.bits >= 0x8000_0000 {
            if other.bits >= 0x8000_0000 {
                n < m
            } else {
                m > 0 || n > 0
            }
        } else if other.bits >= 0x8000_0000 {
            false
        } else {
            m < n
        }
    }

    /// The comparison `self >= other`.
    pub fn not_less_than(self, other: Distance) -> (b: bool)
        ensures
            b == self.at_least(other),
    {
        !self.is_nan() && !other.is_nan() && !self.less_than(other)
    }
}

/// Whether `ds` is what `dist` answered for palette entries `0 .. ds.len()`.
pub open spec fn measured<D: Fn(Metric, [u8; 3], usize) -> Distance>(
    dist: D,
    metric: Metric,
    rgb: [u8; 3],
    ds: Seq<Distance>,
) -> bool {
    forall|i: usize|
        i < ds.len() ==> call_ensures(dist, (metric, rgb, i), #[trigger] ds[i as int])
}

/// Whether `dist` can be asked about every one of `n` palette entries.
pub open spec fn answers<D: Fn(Metric, [u8; 3], usize) -> Distance>(dist: D, n: nat) -> bool {
    forall|metric: Metric, rgb: [u8; 3], i: usize|
        i < n ==> #[trigger] call_requires(dist, (metric, rgb, i))
}

} // verus!
