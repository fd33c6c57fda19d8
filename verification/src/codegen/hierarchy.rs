//! The upstream colour table.

use vstd::prelude::*;

verus! {

use crate::text::{str_eq, trim, trimmed};

/// One row of the upstream table: an entry with its names, colours and
/// classes at every level of detail.
#[derive(Debug)]
pub struct HierarchyRow {
    pub xkcd_color: String,
    pub xkcd_color_hex: String,
    pub xkcd_rgb: [u8; 3],
    pub design_color: String,
    pub design_color_hex: String,
    pub design_rgb: [u8; 3],
    pub common_color: String,
    pub common_color_hex: String,
    pub common_rgb: [u8; 3],
    pub color_family: String,
    pub color_type: String,
    pub color_or_neutral: String,
}

/// A column whose values become the variants of an enum.
#[derive(Clone, Copy, Debug, PartialEq, Eq, Structural)]
pub enum Column {
    /// `color_family`.
    Family,
    /// `color_type`.
    Kind,
}

impl Column {
    /// The row's value in the column, as written.
    pub open spec fn of(self, row: HierarchyRow) -> Seq<char> {
        match self {
            Column::Family => row.color_family@,
            Column::Kind => row.color_type@,
        }
    }

    /// The row's value in the column, as written.
    pub fn value<'a>(&self, row: &'a HierarchyRow) -> (s: &'a str)
        ensures
            s@ == self.of(*row),
    {
        match self {
            Column::Family => row.color_family.as_str(),
            Column::Kind => row.color_type.as_str(),
        }
    }
}

/// The names of the rows, in order.
pub open spec fn row_names(rows: Seq<HierarchyRow>) -> Seq<Seq<char>> {
    rows.map_values(|row: HierarchyRow| row.xkcd_color@)
}

/// What the last column says: `color` or `neutral`, whatever white space is
/// around it.
pub open spec fn neutrality(value: Seq<char>) -> Option<bool> {
    if trimmed(value) == "color"@ {
        Some(false)
    } else if trimmed(value) == "neutral"@ {
        Some(true)
    } else {
        None
    }
}

/// Whether an entry is a neutral; `None` if the value says neither.
pub fn parse_color_or_neutral(value: &str) -> (r: Option<bool>)
    ensures
        r == neutrality(value@),
{
    let word: String = trim(value);
    if str_eq(word.as_str(), "color") {
        Some(false)
    } else if str_eq(word.as_str(), "neutral") {
        Some(true)
    } else {
        None
    }
}

} // verus!
