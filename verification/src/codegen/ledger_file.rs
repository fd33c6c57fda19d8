//! The ledger file: how its rows are written and read.

use vstd::prelude::*;

verus! {

use crate::text::decimal;

/// Prologue of the ledger file: comment lines that state the id discipline.
pub const LEDGER_HEADER: &'static str = "\
# colorthief-dataset — the permanent color-id ledger.
#
# THIS FILE IS THE AUTHORITY FOR `ColorId`. `cargo run --release -p xtask
# -- codegen` reads it, mints ids for any new `color_hierarchy.csv` row,
# rewrites it, and emits the ids into `src/generated.rs`, where they are
# part of the crate's PUBLIC API. Downstream stores the id and looks the
# row back up; a renumbering silently repoints stored data at the wrong
# color.
#
# The id discipline — these ids are PERMANENT:
#
#   * An id is assigned once and NEVER changes. Correcting an entry's
#     name, design/common columns, rgb, hex, family or kind KEEPS its id.
#   * A deleted entry's id is NEVER reused. Its row stays here, retired,
#     so the mint can never hand the number out again. If that same
#     color later returns, recovering its own id is correct — but
#     codegen cannot tell it from a DIFFERENT color arriving under a
#     name some earlier entry used to hold, so it refuses either way
#     until you pass --allow-revival to say which it is.
#   * A new entry mints a fresh id: the high-water mark plus one. Ids
#     start at 1 — 0 is never assigned, so a zeroed id is always
#     detectably invalid.
#
# EVERY ROW HERE IS LOAD-BEARING, retired ones included. A retired row
# is the only record that its number was ever handed out; delete it and
# the next mint can hand the same number to a different color. Rows are
# only ever added or edited in place — never removed, never renumbered,
# and the file is never regenerated from scratch. `tests/ids.rs` pins
# every row, retired ones included, and CI re-runs codegen and fails on
# any drift in this file.
#
# The `retired` column is the row's liveness as of THIS commit, and it
# is load-bearing too: it is the only record of which names were live
# last time. The generator reads it to tell a retirement that happened
# in the run it is executing from one that happened revisions ago, and
# to notice a surviving name landing on a tombstone. Flipping it by
# hand re-arms or disarms those gates — leave it to the generator.
#
# `xkcd_color` is the join key the generator matches CSV rows on, so
# renaming an entry upstream is a CORRECTION, not a delete-and-insert:
# edit the name in place HERE, keeping its id, in the same commit that
# changes `color_hierarchy.csv`. Dropping the row instead would give the
# color an id it did not hold before — a freshly minted one, or a
# retired one if the new name is already here as a tombstone — and break
# every id already stored downstream. Codegen cannot tell a rename from
# a delete-and-insert, so it refuses any run that retires a name live
# last run while some other name picks up an id it did not hold, until
# you either fix the name in place or pass --allow-retire-and-mint to
# confirm the events are unrelated.
";

/// The three fields of a row.
pub type Fields = (Seq<char>, Seq<char>, Seq<char>);

/// Whether a field has to be quoted: it holds a comma, a quote or a line
/// break.
pub open spec fn needs_quotes(s: Seq<char>) -> bool {
    s.contains(',') || s.contains('"') || s.contains('\r') || s.contains('\n')
}

/// `s` with every quote doubled.
pub open spec fn doubled(s: Seq<char>) -> Seq<char>
    decreases s.len(),
{
    if s.len() == 0 {
        s
    } else if s.last() == '"' {
        doubled(s.drop_last()).push('"').push('"')
    } else {
        doubled(s.drop_last()).push(s.last())
    }
}

/// A field as it is written.
pub open spec fn csv_field(s: Seq<char>) -> Seq<char> {
    if needs_quotes(s) {
        seq!['"'] + doubled(s) + seq!['"']
    } else {
        s
    }
}

/// A row as it is written: its fields with commas between, and a line feed.
pub open spec fn csv_line(f: Fields) -> Seq<char> {
    csv_field(f.0) + seq![','] + csv_field(f.1) + seq![','] + csv_field(f.2) + seq!['\n']
}

/// Rows as they are written, one after the other.
pub open spec fn csv_lines(rows: Seq<Fields>) -> Seq<char>
    decreases rows.len(),
{
    if rows.len() == 0 {
        Seq::empty()
    } else {
        csv_lines(rows.drop_last()) + csv_line(rows.last())
    }
}

/// Whether a row starts with an ASCII letter or digit.
pub open spec fn starts_plainly(f: Fields) -> bool {
    f.0.len() > 0 && ('0' <= f.0[0] <= '9' || 'a' <= f.0[0] <= 'z')
}

/// The word for a truth value.
pub open spec fn bool_word(b: bool) -> Seq<char> {
    if b {
        "true"@
    } else {
        "false"@
    }
}

/// The contents of a run of strings.
pub open spec fn texts(v: Seq<String>) -> Seq<Seq<char>> {
    v.map_values(|s: String| s@)
}

/// The contents of rows of strings.
pub open spec fn text_rows(v: Seq<Vec<String>>) -> Seq<Seq<Seq<char>>> {
    v.map_values(|row: Vec<String>| texts(row@))
}

/// The fields of a row in order.
pub open spec fn listed(f: Fields) -> Seq<Seq<char>> {
    seq![f.0, f.1, f.2]
}

/// `csv::Error`, the error of reading and converting rows.
#[verifier::external_type_specification]
#[verifier::external_body]
pub struct ExCsvError(csv::Error);

/// What `csv::Reader` makes of a text with a header row and `#` comment
/// lines: the header's fields and those of each row, or `None` where it finds
/// the text malformed.
pub uninterp spec fn csv_rows_of(text: Seq<char>) -> Option<
    (Seq<Seq<char>>, Seq<Seq<Seq<char>>>),
>;

/// What `csv::StringRecord::deserialize` makes of an id field and a flag
/// field, or `None` where it refuses them.
pub uninterp spec fn csv_fields_of(id: Seq<char>, flag: Seq<char>) -> Option<(u16, bool)>;

/// Writes one row through `csv::Writer`, with a line feed as terminator. Its
/// default style quotes a field exactly where it holds a comma, a quote or a
/// line break, and doubles quotes within.
#[verifier::external_body]
pub(crate) fn write_csv_row(a: &str, b: &str, c: &str) -> (line: String)
    ensures
        line@ == csv_line((a@, b@, c@)),
{
    let mut wtr = csv::WriterBuilder::new()
        .terminator(csv::Terminator::Any(b'\n'))
        .from_writer(Vec::<u8>::new());
    wtr.write_record([a, b, c]).expect("writing to memory");
    let bytes = wtr.into_inner().expect("flushing to memory");
    String::from_utf8(bytes).expect("fields are text")
}

/// Whether `read` gives back the rows that `text` was written from, if it was
/// written from rows of three fields, none of which starts with a character
/// that the reader gives a meaning to.
pub open spec fn reads_back(
    text: Seq<char>,
    read: Result<(Vec<String>, Vec<Vec<String>>), csv::Error>,
) -> bool {
    forall|first: Fields, rows: Seq<Fields>|
        text == LEDGER_HEADER@ + #[trigger] csv_lines(seq![first] + rows) && starts_plainly(first)
            && (forall|i: int| 0 <= i < rows.len() ==> starts_plainly(#[trigger] rows[i])) ==> (
        read matches Ok((header, body)) && texts(header@) == listed(first) && text_rows(body@)
            == rows.map_values(|f: Fields| listed(f)))
}

/// Whether `read` is the number and the truth value that the fields say, if
/// they are a number in decimal and the word for a truth value.
pub open spec fn converts_back(
    id: Seq<char>,
    flag: Seq<char>,
    read: Result<(u16, bool), csv::Error>,
) -> bool {
    forall|n: u16, b: bool|
        id == #[trigger] decimal(n as nat) && flag == #[trigger] bool_word(b) ==> (
        read matches Ok(v) && v == (n, b))
}

/// Reads all rows through `csv::Reader`, the first as header and lines that
/// start with `#` as comments. The result is named; beyond that, rows of
/// three fields that [`write_csv_row`] wrote behind the prologue come back as
/// they were, whatever their fields hold, as long as no row starts with a
/// character that the reader gives a meaning to.
#[verifier::external_body]
pub(crate) fn read_csv_rows(text: &str) -> (r: Result<(Vec<String>, Vec<Vec<String>>), csv::Error>)
    ensures
        csv_rows_of(text@) == (match r {
            Ok((header, rows)) => Some((texts(header@), text_rows(rows@))),
            Err(_) => None,
        }),
        reads_back(text@, r),
{
    let mut rdr = csv::ReaderBuilder::new()
        .has_headers(true)
        .comment(Some(b'#'))
        .from_reader(text.as_bytes());
    let header = rdr.headers()?.iter().map(str::to_string).collect();
    let rows = rdr
        .records()
        .map(|row| row.map(|fields| fields.iter().map(str::to_string).collect()))
        .collect::<Result<Vec<Vec<String>>, csv::Error>>()?;
    Ok((header, rows))
}

/// Converts an id field and a flag field through
/// `csv::StringRecord::deserialize`. The result is named; beyond that, an id
/// in decimal and the words `true` and `false` are converted to what they
/// say.
#[verifier::external_body]
pub(crate) fn convert_csv_fields(id: &str, flag: &str) -> (r: Result<(u16, bool), csv::Error>)
    ensures
        csv_fields_of(id@, flag@) == (match r {
            Ok(v) => Some(v),
            Err(_) => None,
        }),
        converts_back(id@, flag@, r),
{
    csv::StringRecord::from(vec![id, flag]).deserialize(None)
}

} // verus!
