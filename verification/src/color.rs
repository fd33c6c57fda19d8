//! Named colours and their permanent ids.

use std::cmp::Ordering;

use vstd::prelude::*;

verus! {

use vstd::std_specs::cmp::PartialOrdIs;
use crate::text::{decimal, decimal_string};

/// A permanent handle on one palette entry.
///
/// An id is assigned once and never changes; a retired entry's id is never
/// handed out again. Ids start at 1, so a zeroed id never resolves. Any `u16`
/// makes a `ColorId`; the lookup by id decides whether an entry carries it.
#[derive(Clone, Copy, Debug, PartialEq, Eq, Hash, Ord, Structural)]
pub struct ColorId(u16);

impl ColorId {
    /// The number behind the id.
    pub closed spec fn number(self) -> u16 {
        self.0
    }

    /// Wraps a raw id.
    pub fn new(id: u16) -> (r: ColorId)
        ensures
            r.number() == id,
    {
        ColorId(id)
    }

    /// The raw id.
    pub fn get(&self) -> (id: u16)
        ensures
            id == self.number(),
    {
        self.0
    }

    /// The id in decimal.
    pub fn to_string(&self) -> (s: String)
        ensures
            s@ == decimal(self.number() as nat),
    {
        decimal_string(self.0 as u64)
    }
}

/// Ids are ordered by their numbers.
impl PartialOrd for ColorId {
    fn partial_cmp(&self, other: &ColorId) -> (order: Option<Ordering>) {
        if self.0 < other.0 {
            Some(Ordering::Less)
        } else if self.0 == other.0 {
            Some(Ordering::Equal)
        } else {
            Some(Ordering::Greater)
        }
    }
}

impl vstd::std_specs::cmp::PartialOrdSpecImpl for ColorId {
    open spec fn obeys_partial_cmp_spec() -> bool {
        true
    }

    open spec fn partial_cmp_spec(&self, other: &ColorId) -> Option<Ordering> {
        if self.number() < other.number() {
            Some(Ordering::Less)
        } else if self.number() == other.number() {
            Some(Ordering::Equal)
        } else {
            Some(Ordering::Greater)
        }
    }
}

/// Ids with the same number are the same.
pub proof fn law_id_is_its_number(a: ColorId, b: ColorId)
    requires
        a.number() == b.number(),
    ensures
        a == b,
{
}

/// A raw id that is wrapped is read back unchanged.
pub proof fn law_raw_id_comes_back(raw: u16, id: ColorId, back: u16)
    requires
        call_ensures(ColorId::new, (raw,), id),
        call_ensures(ColorId::get, (&id,), back),
    ensures
        back == raw,
{
}

/// Wrapped ids are ordered as the raw ids are.
pub proof fn law_ids_order_as_numbers(raw: u16, other_raw: u16, id: ColorId, other: ColorId)
    requires
        call_ensures(ColorId::new, (raw,), id),
        call_ensures(ColorId::new, (other_raw,), other),
    ensures
        id.is_lt(&other) <==> raw < other_raw,
        id.is_le(&other) <==> raw <= other_raw,
        id.is_gt(&other) <==> raw > other_raw,
        id.is_ge(&other) <==> raw >= other_raw,
        id == other <==> raw == other_raw,
{
}

/// A colour family, named by its word in the upstream table.
#[derive(Clone, Copy, Debug, PartialEq, Eq, Hash, PartialOrd, Ord)]
pub struct Family {
    pub word: &'static str,
}

/// A kind or texture of colour, named by its word in the upstream table.
#[derive(Clone, Copy, Debug, PartialEq, Eq, Hash, PartialOrd, Ord)]
pub struct Kind {
    pub word: &'static str,
}

impl Family {
    /// The family's word.
    pub fn as_str(&self) -> (w: &'static str)
        ensures
            w == self.word,
    {
        self.word
    }
}

impl Kind {
    /// The kind's word.
    pub fn as_str(&self) -> (w: &'static str)
        ensures
            w == self.word,
    {
        self.word
    }
}

/// One named entry of a palette: its id, its names and values at three levels
/// of coarseness, and its classification.
#[derive(Clone, Copy, Debug, PartialEq, Eq)]
pub struct Color {
    pub id: ColorId,
    pub name: &'static str,
    pub hex: &'static str,
    pub rgb: [u8; 3],
    /// CIE LAB coordinates, each as the bit pattern of a single-precision
    /// number.
    pub lab: [u32; 3],
    pub design_name: &'static str,
    pub design_hex: &'static str,
    pub design_rgb: [u8; 3],
    pub common_name: &'static str,
    pub common_hex: &'static str,
    pub common_rgb: [u8; 3],
    pub family: Family,
    pub kind: Kind,
    pub is_neutral: bool,
}

impl Color {
    /// The permanent id.
    pub fn id(&self) -> (r: ColorId)
        ensures
            r == self.id,
    {
        self.id
    }

    /// The finest name.
    pub fn name(&self) -> (r: &'static str)
        ensures
            r == self.name,
    {
        self.name
    }

    /// The hex string of the finest name.
    pub fn hex(&self) -> (r: &'static str)
        ensures
            r == self.hex,
    {
        self.hex
    }

    /// The colour of the finest name.
    pub fn rgb(&self) -> (r: [u8; 3])
        ensures
            r == self.rgb,
    {
        self.rgb
    }

    /// The CIE LAB coordinates of [`Color::rgb`], as bit patterns of
    /// single-precision numbers.
    pub fn lab(&self) -> (r: [u32; 3])
        ensures
            r == self.lab,
    {
        self.lab
    }

    /// The coarser design-palette name.
    pub fn design_name(&self) -> (r: &'static str)
        ensures
            r == self.design_name,
    {
        self.design_name
    }

    /// The hex string of the design-palette anchor.
    pub fn design_hex(&self) -> (r: &'static str)
        ensures
            r == self.design_hex,
    {
        self.design_hex
    }

    /// The colour of the design-palette anchor.
    pub fn design_rgb(&self) -> (r: [u8; 3])
        ensures
            r == self.design_rgb,
    {
        self.design_rgb
    }

    /// The coarsest name.
    pub fn common_name(&self) -> (r: &'static str)
        ensures
            r == self.common_name,
    {
        self.common_name
    }

    /// The hex string of the common-name anchor.
    pub fn common_hex(&self) -> (r: &'static str)
        ensures
            r == self.common_hex,
    {
        self.common_hex
    }

    /// The colour of the common-name anchor.
    pub fn common_rgb(&self) -> (r: [u8; 3])
        ensures
            r == self.common_rgb,
    {
        self.common_rgb
    }

    /// The colour family.
    pub fn family(&self) -> (r: Family)
        ensures
            r == self.family,
    {
        self.family
    }

    /// The kind of colour.
    pub fn kind(&self) -> (r: Kind)
        ensures
            r == self.kind,
    {
        self.kind
    }

    /// Whether the entry counts as a neutral.
    pub fn is_neutral(&self) -> (r: bool)
        ensures
            r == self.is_neutral,
    {
        self.is_neutral
    }
}

} // verus!
