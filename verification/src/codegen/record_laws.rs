//! What the ledger records, row by row.

use vstd::prelude::*;

verus! {

use crate::codegen::ledger::{
    Ledger, LedgerError, LedgerRow, Pick, Row, RowData, column, column_names, columns, data,
    faultless, file_data, file_fields, file_rows, first_fault, has_name, highest, id_of, is_column,
    lemma_highest, lemma_listing_sound, lemma_name_at, listing, live_before, load_gives, loaded,
    loaded_row, loaded_rows, next_run, raw_text, reports, row_data, row_fault, seen, sound,
    table_data,
};
use crate::codegen::ledger_file::{
    Fields, LEDGER_HEADER, csv_field, csv_fields_of, csv_lines, csv_rows_of, doubled,
    needs_quotes,
};
use crate::codegen::ledger_laws::seen_all;
use crate::sorting::law_sort_by;
use crate::text::decimal;

/// Whether rows of a file can be taken in: no id is 0, and neither an id nor
/// a name stands twice.
pub open spec fn rows_agree(d: Seq<RowData>) -> bool {
    &&& forall|i: int| 0 <= i < d.len() ==> (#[trigger] d[i]).0 != 0
    &&& forall|i: int, j: int| 0 <= i < j < d.len() ==> (#[trigger] d[i]).0 != (#[trigger] d[j]).0
    &&& forall|i: int, j: int| 0 <= i < j < d.len() ==> (#[trigger] d[i]).1 != (#[trigger] d[j]).1
}

/// Whether `rows` are those of a file at the start of a run: the ids and
/// names as they are, each on record as live unless it was retired, and none
/// seen in this run.
pub open spec fn taken_in(d: Seq<RowData>, rows: Seq<Row>) -> bool {
    &&& rows.len() == d.len()
    &&& forall|i: int|
        0 <= i < rows.len() ==> {
            &&& (#[trigger] rows[i]).id == d[i].0
            &&& rows[i].name == d[i].1
            &&& rows[i].was_live == !d[i].2
            &&& rows[i].loaded
            &&& !rows[i].live
        }
}

proof fn lemma_faultless(d: Seq<RowData>)
    ensures
        faultless(d) <==> rows_agree(d),
        taken_in(d, loaded_rows(d)),
{
    if faultless(d) {
        assert forall|i: int| 0 <= i < d.len() implies (#[trigger] d[i]).0 != 0 by {
            assert(!row_fault(d, i));
        }
        assert forall|i: int, j: int| 0 <= i < j < d.len() implies (#[trigger] d[i]).0 != (
        #[trigger] d[j]).0 by {
            assert(!row_fault(d, j));
        }
        assert forall|i: int, j: int| 0 <= i < j < d.len() implies (#[trigger] d[i]).1 != (
        #[trigger] d[j]).1 by {
            assert(!row_fault(d, j));
        }
    }
    if rows_agree(d) {
        assert forall|j: int| 0 <= j < d.len() implies !#[trigger] row_fault(d, j) by {}
    }
    assert forall|i: int| 0 <= i < d.len() implies #[trigger] loaded_rows(d)[i] == loaded_row(
        d[i],
    ) by {}
}

/// Whether an error tells the first row that cannot be taken in.
pub open spec fn tells_the_first_bad_row(d: Seq<RowData>, e: LedgerError) -> bool {
    exists|j: int| #[trigger] bad_row(d, e, j) && rows_agree(d.take(j))
}

/// Whether an error tells what is wrong with row `j`.
pub open spec fn bad_row(d: Seq<RowData>, e: LedgerError, j: int) -> bool {
    &&& 0 <= j < d.len()
    &&& match e {
        LedgerError::ReservedId { name } => d[j].0 == 0 && name@ == d[j].1,
        LedgerError::DuplicateId { id, first, second } => d[j].0 == id && id != 0 && second@
            == d[j].1 && exists|i: int| 0 <= i < j && #[trigger] d[i] == (id, first@, d[i].2),
        LedgerError::DuplicateName { name, first_id, second_id } => d[j].1 == name@ && d[j].0
            == second_id && second_id != 0 && (forall|i: int|
            0 <= i < j ==> (#[trigger] d[i]).0 != second_id) && exists|i: int|
            0 <= i < j && #[trigger] d[i] == (first_id, name@, d[i].2),
        _ => false,
    }
}

proof fn lemma_first_bad(d: Seq<RowData>, e: LedgerError)
    requires
        first_fault(d, e),
    ensures
        tells_the_first_bad_row(d, e),
        !rows_agree(d),
{
    let j = choose|j: int|
        {
            &&& 0 <= j < d.len()
            &&& #[trigger] row_fault(d, j)
            &&& forall|i: int| 0 <= i < j ==> !#[trigger] row_fault(d, i)
            &&& crate::codegen::ledger::names_fault(d, j, e)
        };
    let t = d.take(j);
    assert forall|i: int| 0 <= i < t.len() implies !#[trigger] row_fault(t, i) by {
        assert(!row_fault(d, i));
        if row_fault(t, i) {
            if exists|k: int| 0 <= k < i && (#[trigger] t[k]).0 == t[i].0 {
                let k = choose|k: int| 0 <= k < i && (#[trigger] t[k]).0 == t[i].0;
                assert(d[k].0 == d[i].0);
            }
            if exists|k: int| 0 <= k < i && (#[trigger] t[k]).1 == t[i].1 {
                let k = choose|k: int| 0 <= k < i && (#[trigger] t[k]).1 == t[i].1;
                assert(d[k].1 == d[i].1);
            }
        }
    }
    lemma_faultless(t);
    match e {
        LedgerError::DuplicateId { id, first, second } => {
            let i = choose|i: int|
                0 <= i < j && (#[trigger] d[i]).0 == id && d[i].1 == first@;
            assert(d[i] == (id, first@, d[i].2));
        },
        LedgerError::DuplicateName { name, first_id, second_id } => {
            let i = choose|i: int|
                0 <= i < j && (#[trigger] d[i]).1 == name@ && d[i].0 == first_id;
            assert(d[i] == (first_id, name@, d[i].2));
        },
        _ => {},
    }
    assert(bad_row(d, e, j));
    lemma_faultless(d);
}

/// Taking in the rows of a file: all or, if they do not agree, none, with the
/// first row that is at fault.
pub proof fn law_rows_are_taken_in(
    rows: Vec<LedgerRow>,
    source: &str,
    d: Seq<RowData>,
    r: Result<Ledger, LedgerError>,
)
    requires
        call_ensures(Ledger::from_rows, (rows, source), r),
        d.len() == rows@.len(),
        forall|i: int|
            0 <= i < d.len() ==> #[trigger] d[i] == (
                rows@[i].id,
                rows@[i].xkcd_color@,
                rows@[i].retired,
            ),
    ensures
        r is Ok <==> rows_agree(d),
        r matches Ok(ledger) ==> ledger.wf() && taken_in(d, ledger@),
        r matches Err(e) ==> tells_the_first_bad_row(d, e),
{
    assert(data(rows@) =~= d);
    lemma_faultless(d);
    if let Err(e) = r {
        lemma_first_bad(d, e);
    }
}

/// Seeing a name that the ledger has: its row is live from here on, and that
/// is all that changes.
pub proof fn law_seeing_a_known_name(rows: Seq<Row>, i: int)
    requires
        sound(rows),
        0 <= i < rows.len(),
    ensures
        seen(rows, rows[i].name).len() == rows.len(),
        forall|k: int|
            0 <= k < rows.len() && k != i ==> #[trigger] seen(rows, rows[i].name)[k] == rows[k],
        ({
            let row = seen(rows, rows[i].name)[i];
            &&& row.live
            &&& row.id == rows[i].id
            &&& row.name == rows[i].name
            &&& row.loaded == rows[i].loaded
            &&& row.was_live == rows[i].was_live
        }),
        id_of(rows, rows[i].name) == Some(rows[i].id),
{
    lemma_name_at(rows, i);
}

/// Seeing a name that the ledger does not have: it gets a row of its own, with
/// the id after the highest, or 1 if it is the first; no other row changes.
pub proof fn law_seeing_a_new_name(rows: Seq<Row>, name: Seq<char>)
    requires
        forall|i: int| 0 <= i < rows.len() ==> (#[trigger] rows[i]).name != name,
        forall|i: int| 0 <= i < rows.len() ==> (#[trigger] rows[i]).id < u16::MAX,
    ensures
        id_of(rows, name) is None,
        seen(rows, name).len() == rows.len() + 1,
        forall|k: int| 0 <= k < rows.len() ==> #[trigger] seen(rows, name)[k] == rows[k],
        ({
            let row = seen(rows, name).last();
            &&& row.name == name
            &&& row.live
            &&& !row.loaded
            &&& !row.was_live
            &&& forall|i: int| 0 <= i < rows.len() ==> (#[trigger] rows[i]).id < row.id
            &&& row.id == 1 || exists|i: int|
                0 <= i < rows.len() && (#[trigger] rows[i]).id + 1 == row.id
        }),
{
    lemma_highest(rows);
    assert(!has_name(rows, name));
    if rows.len() > 0 {
        let i = choose|i: int| 0 <= i < rows.len() && (#[trigger] rows[i]).id == highest(rows);
        assert(rows[i].id < u16::MAX);
    }
}

/// A name has no id left exactly if it has none and the highest id there can
/// be is taken.
pub proof fn law_when_ids_run_out(rows: Seq<Row>, name: Seq<char>)
    ensures
        !has_name(rows, name) <==> forall|i: int|
            0 <= i < rows.len() ==> (#[trigger] rows[i]).name != name,
        highest(rows) == u16::MAX <==> exists|i: int|
            0 <= i < rows.len() && (#[trigger] rows[i]).id == u16::MAX,
{
    lemma_highest(rows);
}

/// A run sees its names one after the other.
pub proof fn law_a_run_sees_each_name(rows: Seq<Row>, names: Seq<Seq<char>>, name: Seq<char>)
    ensures
        seen_all(rows, Seq::empty()) == rows,
        seen_all(rows, names.push(name)) == seen(seen_all(rows, names), name),
{
    assert(names.push(name).drop_last() =~= names);
}

/// Whether `out` lists the rows that `wanted` holds of, each with its id and
/// name, in ascending order of id.
pub open spec fn lists(
    rows: Seq<Row>,
    wanted: spec_fn(Row) -> bool,
    out: Seq<(u16, &str)>,
) -> bool {
    &&& forall|j: int, k: int| 0 <= j < k < out.len() ==> (#[trigger] out[j]).0 < (
    #[trigger] out[k]).0
    &&& forall|i: int| 0 <= i < rows.len() && wanted(#[trigger] rows[i]) ==> listed_in(out, rows[i])
    &&& forall|k: int| 0 <= k < out.len() ==> lists_one_of(rows, wanted, #[trigger] out[k])
}

/// Whether the row's id and name are in the list.
pub open spec fn listed_in(out: Seq<(u16, &str)>, row: Row) -> bool {
    exists|k: int| 0 <= k < out.len() && (#[trigger] out[k]).0 == row.id && out[k].1@ == row.name
}

/// Whether a listed id and name are those of a row that `wanted` holds of.
pub open spec fn lists_one_of(
    rows: Seq<Row>,
    wanted: spec_fn(Row) -> bool,
    item: (u16, &str),
) -> bool {
    exists|i: int|
        0 <= i < rows.len() && wanted(#[trigger] rows[i]) && rows[i].id == item.0 && rows[i].name
            == item.1@
}

proof fn lemma_lists(rows: Seq<Row>, pick: Pick, wanted: spec_fn(Row) -> bool, out: Seq<(u16, &str)>)
    requires
        sound(rows),
        reports(listing(rows, pick), out),
        forall|row: Row| #[trigger] pick.picks(row) == wanted(row),
    ensures
        lists(rows, wanted, out),
{
    let f = |row: Row| pick.picks(row);
    let key = |row: Row| row.id as int;
    let picked = rows.filter(f);
    let order = listing(rows, pick);
    law_sort_by(key, picked);
    assert forall|x: Row| #[trigger] order.contains(x) <==> rows.contains(x) && pick.picks(x) by {
        broadcast use vstd::seq_lib::group_to_multiset_ensures;

        assert(order.contains(x) <==> order.to_multiset().count(x) > 0);
        assert(picked.contains(x) <==> picked.to_multiset().count(x) > 0);
        if picked.contains(x) {
            rows.lemma_filter_contains_rev(f, x);
            let k = choose|k: int| 0 <= k < picked.len() && picked[k] == x;
            rows.lemma_filter_pred(f, k);
        }
        if rows.contains(x) && pick.picks(x) {
            let k = choose|k: int| 0 <= k < rows.len() && rows[k] == x;
            rows.lemma_filter_contains(f, k);
        }
    }
    lemma_distinct_ids(rows, pick);
    assert forall|j: int, k: int| 0 <= j < k < out.len() implies (#[trigger] out[j]).0 < (
    #[trigger] out[k]).0 by {
        assert(key(order[j]) <= key(order[k]));
        assert(order[j].id != order[k].id);
    }
    assert forall|i: int| 0 <= i < rows.len() && wanted(#[trigger] rows[i]) implies listed_in(
        out,
        rows[i],
    ) by {
        assert(rows.contains(rows[i]));
        assert(pick.picks(rows[i]));
        assert(order.contains(rows[i]));
        let k = choose|k: int| 0 <= k < order.len() && order[k] == rows[i];
        assert(out[k].0 == rows[i].id);
    }
    assert forall|k: int| 0 <= k < out.len() implies lists_one_of(
        rows,
        wanted,
        #[trigger] out[k],
    ) by {
        assert(order.contains(order[k]));
        assert(rows.contains(order[k]) && pick.picks(order[k]));
        let i = choose|i: int| 0 <= i < rows.len() && rows[i] == order[k];
        assert(wanted(rows[i]));
    }
}

/// Listed rows have different ids.
proof fn lemma_distinct_ids(rows: Seq<Row>, pick: Pick)
    requires
        sound(rows),
    ensures
        forall|j: int, k: int|
            0 <= j < k < listing(rows, pick).len() ==> (#[trigger] listing(rows, pick)[j]).id != (
            #[trigger] listing(rows, pick)[k]).id,
{
    let f = |row: Row| pick.picks(row);
    let key = |row: Row| row.id as int;
    let differ = |a: Row, b: Row| a.id != b.id;
    lemma_filter_distinct(rows, f);
    crate::sorting::lemma_sort_distinct(differ, key, rows.filter(f));
    let order = listing(rows, pick);
    assert forall|j: int, k: int| 0 <= j < k < order.len() implies (#[trigger] order[j]).id != (
    #[trigger] order[k]).id by {
        assert(differ(order[j], order[k]));
    }
}

proof fn lemma_filter_distinct(rows: Seq<Row>, f: spec_fn(Row) -> bool)
    requires
        forall|i: int, j: int|
            0 <= i < j < rows.len() ==> (#[trigger] rows[i]).id != (#[trigger] rows[j]).id,
    ensures
        forall|i: int, j: int|
            0 <= i < j < rows.filter(f).len() ==> (#[trigger] rows.filter(f)[i]).id != (
            #[trigger] rows.filter(f)[j]).id,
    decreases rows.len(),
{
    reveal(Seq::filter);
    if rows.len() > 0 {
        let rest = rows.drop_last();
        assert forall|i: int, j: int| 0 <= i < j < rest.len() implies (#[trigger] rest[i]).id != (
        #[trigger] rest[j]).id by {
            assert(rows[i].id != rows[j].id);
        }
        lemma_filter_distinct(rest, f);
        let inner = rest.filter(f);
        let out = rows.filter(f);
        assert forall|i: int, j: int| 0 <= i < j < out.len() implies (#[trigger] out[i]).id != (
        #[trigger] out[j]).id by {
            assert(out[i] == inner[i]);
            if j < inner.len() {
                assert(out[j] == inner[j]);
            } else {
                assert(out[j] == rows.last());
                assert(inner.contains(inner[i]));
                rest.lemma_filter_contains_rev(f, inner[i]);
                let k = choose|k: int| 0 <= k < rest.len() && rest[k] == inner[i];
                assert(rows[k].id != rows[rows.len() - 1].id);
            }
        }
    }
}

/// What each list holds: tombstones the rows that are not live; the newly
/// retired those that were live and are not; the reactivated those of the
/// file that were not live and are; the minted those that the file did not
/// have.
pub proof fn law_what_is_listed<'a>(
    ledger: &'a Ledger,
    tombstones: Vec<(u16, &'a str)>,
    retired: Vec<(u16, &'a str)>,
    revived: Vec<(u16, &'a str)>,
    minted: Vec<(u16, &'a str)>,
)
    requires
        ledger.wf(),
        call_ensures(Ledger::tombstones, (ledger,), tombstones),
        call_ensures(Ledger::newly_retired, (ledger,), retired),
        call_ensures(Ledger::reactivated, (ledger,), revived),
        call_ensures(Ledger::minted, (ledger,), minted),
    ensures
        lists(ledger@, |row: Row| !row.live, tombstones@),
        lists(ledger@, |row: Row| row.was_live && !row.live, retired@),
        lists(ledger@, |row: Row| row.live && row.loaded && !row.was_live, revived@),
        lists(ledger@, |row: Row| !row.loaded, minted@),
{
    ledger.law_ledger();
    lemma_lists(ledger@, Pick::Tombstones, |row: Row| !row.live, tombstones@);
    lemma_lists(ledger@, Pick::NewlyRetired, |row: Row| row.was_live && !row.live, retired@);
    lemma_lists(
        ledger@,
        Pick::Reactivated,
        |row: Row| row.live && row.loaded && !row.was_live,
        revived@,
    );
    lemma_lists(ledger@, Pick::Minted, |row: Row| !row.loaded, minted@);
}

/// A name was live as of the last run exactly if its row is on record as
/// such.
pub proof fn law_names_live_before(rows: Seq<Row>, i: int, name: Seq<char>)
    requires
        sound(rows),
        0 <= i < rows.len(),
    ensures
        live_before(rows, rows[i].name) <==> rows[i].was_live,
        live_before(rows, name) ==> exists|j: int|
            0 <= j < rows.len() && (#[trigger] rows[j]).name == name,
{
    if live_before(rows, rows[i].name) {
        let j = choose|j: int|
            0 <= j < rows.len() && (#[trigger] rows[j]).was_live && rows[j].name == rows[i].name;
        assert(j == i);
    }
}

/// The lookups by name and the highest id.
pub proof fn law_lookups(ledger: Ledger, name: &str, id: Option<u16>, top: u16)
    requires
        ledger.wf(),
        call_ensures(Ledger::id_by_name, (&ledger, name), id),
        call_ensures(Ledger::high_water, (&ledger,), top),
    ensures
        forall|i: int|
            0 <= i < ledger@.len() && (#[trigger] ledger@[i]).name == name@ ==> id == Some(
                ledger@[i].id,
            ),
        id is Some ==> exists|i: int| 0 <= i < ledger@.len() && (#[trigger] ledger@[i]).name == name@,
        forall|i: int| 0 <= i < ledger@.len() ==> (#[trigger] ledger@[i]).id <= top,
        top == 0 || exists|i: int| 0 <= i < ledger@.len() && (#[trigger] ledger@[i]).id == top,
{
    ledger.law_ledger();
    lemma_highest(ledger@);
    assert forall|i: int|
        0 <= i < ledger@.len() && (#[trigger] ledger@[i]).name == name@ implies id == Some(
        ledger@[i].id,
    ) by {
        lemma_name_at(ledger@, i);
    }
    if ledger@.len() == 0 {
        assert(highest(ledger@) == 0);
    }
}

/// A field is written as it is unless it holds a comma, a quote or a line
/// break; then it stands in quotes, with each quote in it doubled.
pub proof fn law_fields_are_quoted_where_needed(s: Seq<char>, t: Seq<char>)
    ensures
        !s.contains(',') && !s.contains('"') && !s.contains('\r') && !s.contains('\n')
            ==> csv_field(s) == s,
        s.contains(',') || s.contains('"') || s.contains('\r') || s.contains('\n') ==> csv_field(s)
            == seq!['"'] + doubled(s) + seq!['"'],
        doubled(s + t) == doubled(s) + doubled(t),
        !s.contains('"') ==> doubled(s) == s,
        doubled(seq!['"']) == seq!['"', '"'],
{
    assert(needs_quotes(s) == (s.contains(',') || s.contains('"') || s.contains('\r')
        || s.contains('\n')));
    lemma_doubled_add(s, t);
    if !s.contains('"') {
        lemma_undoubled(s);
    }
    reveal_with_fuel(doubled, 2);
    assert(seq!['"'].drop_last() =~= Seq::empty());
    assert(doubled(seq!['"']) =~= seq!['"', '"']);
}

proof fn lemma_doubled_add(s: Seq<char>, t: Seq<char>)
    ensures
        doubled(s + t) == doubled(s) + doubled(t),
    decreases t.len(),
{
    if t.len() == 0 {
        assert(s + t =~= s);
        assert(doubled(s) + doubled(t) =~= doubled(s));
    } else {
        lemma_doubled_add(s, t.drop_last());
        assert((s + t).drop_last() =~= s + t.drop_last());
        assert(doubled(s + t) =~= doubled(s) + doubled(t));
    }
}

proof fn lemma_undoubled(s: Seq<char>)
    requires
        !s.contains('"'),
    ensures
        doubled(s) == s,
    decreases s.len(),
{
    if s.len() > 0 {
        assert(s[s.len() - 1] != '"');
        assert forall|i: int| 0 <= i < s.drop_last().len() implies s.drop_last()[i] != '"' by {
            assert(s[i] != '"');
        }
        lemma_undoubled(s.drop_last());
        assert(doubled(s) =~= s);
    }
}

/// The file that a ledger is written as: the prologue, a line with the names
/// of the columns, and a line for each row in ascending order of id: the id in
/// decimal, the name, and `true` if it is not live, else `false`. An empty
/// ledger is written as the prologue alone.
pub proof fn law_what_is_written(ledger: Ledger, s: String) -> (order: Seq<Row>)
    requires
        ledger.wf(),
        call_ensures(Ledger::to_csv, (&ledger,), s) || call_ensures(Ledger::stage, (&ledger,), s),
    ensures
        order.to_multiset() == ledger@.to_multiset(),
        forall|j: int, k: int| 0 <= j < k < order.len() ==> (#[trigger] order[j]).id < (
        #[trigger] order[k]).id,
        ledger@.len() == 0 ==> s@ == LEDGER_HEADER@,
        ledger@.len() > 0 ==> s@ == LEDGER_HEADER@ + line_of(
            "id"@,
            "xkcd_color"@,
            "retired"@,
        ) + lines_of(order),
{
    ledger.law_ledger();
    let rows = ledger@;
    let f = |row: Row| Pick::All.picks(row);
    let key = |row: Row| row.id as int;
    crate::sorting::lemma_filter_all(f, rows);
    law_sort_by(key, rows);
    let order = listing(rows, Pick::All);
    lemma_distinct_ids(rows, Pick::All);
    assert forall|j: int, k: int| 0 <= j < k < order.len() implies (#[trigger] order[j]).id < (
    #[trigger] order[k]).id by {
        assert(key(order[j]) <= key(order[k]));
        assert(order[j].id != order[k].id);
    }
    let first = seq![column_names()];
    lemma_csv_lines_add(first, file_rows(rows));
    reveal_with_fuel(csv_lines, 2);
    assert(first.drop_last() =~= Seq::empty());
    assert(csv_lines(first) =~= line_of("id"@, "xkcd_color"@, "retired"@));
    lemma_lines(order);
    assert(file_rows(rows) =~= order.map_values(|row: Row| file_fields(row)));
    assert(LEDGER_HEADER@ + (csv_lines(first) + csv_lines(file_rows(rows))) =~= LEDGER_HEADER@
        + csv_lines(first) + csv_lines(file_rows(rows)));
    order
}

/// A line of three fields.
pub open spec fn line_of(a: Seq<char>, b: Seq<char>, c: Seq<char>) -> Seq<char> {
    csv_field(a) + seq![','] + csv_field(b) + seq![','] + csv_field(c) + seq!['\n']
}

/// The lines of rows, one after the other.
pub open spec fn lines_of(rows: Seq<Row>) -> Seq<char>
    decreases rows.len(),
{
    if rows.len() == 0 {
        Seq::empty()
    } else {
        let row = rows.last();
        lines_of(rows.drop_last()) + line_of(
            decimal(row.id as nat),
            row.name,
            if row.live {
                "false"@
            } else {
                "true"@
            },
        )
    }
}

proof fn lemma_lines(rows: Seq<Row>)
    ensures
        csv_lines(rows.map_values(|row: Row| file_fields(row))) == lines_of(rows),
    decreases rows.len(),
{
    let fs = rows.map_values(|row: Row| file_fields(row));
    if rows.len() > 0 {
        lemma_lines(rows.drop_last());
        assert(fs.drop_last() =~= rows.drop_last().map_values(|row: Row| file_fields(row)));
        assert(fs.last() == file_fields(rows.last()));
    }
}

proof fn lemma_csv_lines_add(one: Seq<Fields>, other: Seq<Fields>)
    ensures
        csv_lines(one + other) == csv_lines(one) + csv_lines(other),
    decreases other.len(),
{
    if other.len() == 0 {
        assert(one + other =~= one);
        assert(csv_lines(one) + csv_lines(other) =~= csv_lines(one));
    } else {
        lemma_csv_lines_add(one, other.drop_last());
        assert((one + other).drop_last() =~= one + other.drop_last());
        assert(csv_lines(one + other) =~= csv_lines(one) + csv_lines(other));
    }
}

/// What the next run starts from: the rows of this one, each with its id and
/// name, on record as live exactly if it is live now, and not seen yet.
pub proof fn law_what_the_next_run_starts_from(rows: Seq<Row>) -> (order: Seq<Row>)
    requires
        sound(rows),
    ensures
        order.to_multiset() == rows.to_multiset(),
        next_run(rows).len() == order.len(),
        forall|k: int|
            0 <= k < order.len() ==> {
                &&& (#[trigger] next_run(rows)[k]).id == order[k].id
                &&& next_run(rows)[k].name == order[k].name
                &&& next_run(rows)[k].was_live == order[k].live
                &&& next_run(rows)[k].loaded
                &&& !next_run(rows)[k].live
            },
{
    lemma_listing_sound(rows);
    listing(rows, Pick::All)
}

/// Whether `name` stands at place `i` of the header and nowhere else.
pub open spec fn only_at(header: Seq<Seq<char>>, name: Seq<char>, i: int) -> bool {
    &&& 0 <= i < header.len()
    &&& forall|j: int| 0 <= j < header.len() ==> (#[trigger] header[j] == name <==> j == i)
}

proof fn lemma_column(header: Seq<Seq<char>>, name: Seq<char>)
    ensures
        forall|i: int| #[trigger] only_at(header, name, i) ==> column(header, name) == Some(i),
        column(header, name) matches Some(i) ==> only_at(header, name, i),
{
    assert forall|i: int| #[trigger] only_at(header, name, i) implies column(header, name) == Some(
        i,
    ) by {
        assert(header[i] == name);
        assert(is_column(header, name, i));
        let k = choose|k: int| #[trigger] is_column(header, name, k);
        assert(header[k] == name);
    }
}

/// Whether a read row gives the id, name and flag in `d`, from the fields at
/// places `a`, `b` and `c`.
pub open spec fn gives(row: Seq<Seq<char>>, a: int, b: int, c: int, d: RowData) -> bool {
    &&& a < row.len() && b < row.len() && c < row.len()
    &&& csv_fields_of(row[a], row[c]) == Some((d.0, d.2))
    &&& row[b] == d.1
}

/// Loading a file that is missing, cut short, malformed or without rows: a
/// missing one and one without rows are taken as empty where the ledger may be
/// created, and else refused as the others are.
pub proof fn law_files_without_rows(
    raw: Option<String>,
    bootstrap: bool,
    source: &str,
    r: Result<Ledger, LedgerError>,
)
    requires
        call_ensures(Ledger::load, (raw, bootstrap, source), r),
    ensures
        raw is None && bootstrap ==> (r matches Ok(ledger) && ledger@.len() == 0),
        raw is None && !bootstrap ==> (r matches Err(e) && e is Missing),
        raw matches Some(t) ==> {
            &&& t@.len() > 0 && t@[t@.len() - 1] != '\n' ==> (r matches Err(e) && e is Truncated)
            &&& (t@.len() == 0 || t@[t@.len() - 1] == '\n') && csv_rows_of(t@) is None ==> (
            r matches Err(e) && e is Malformed)
            &&& (t@.len() == 0 || t@[t@.len() - 1] == '\n') ==> (csv_rows_of(t@) matches Some(
                (header, body),
            ) ==> body.len() == 0 ==> {
                &&& bootstrap ==> (r matches Ok(ledger) && ledger@.len() == 0)
                &&& !bootstrap ==> (r matches Err(e) && e is NoRows)
            })
        },
{
    assert(load_gives(raw_text(raw), bootstrap, source@, r));
    if let Some(t) = raw {
        let text = t@;
        assert(loaded(text, bootstrap, source@, r));
        if !(text.len() > 0 && text[text.len() - 1] != '\n') {
            if let Some((header, body)) = csv_rows_of(text) {
                if body.len() == 0 {
                    let none = Seq::<RowData>::empty();
                    assert(table_data(header, body, none));
                    assert(file_data(text, none));
                    assert forall|d: Seq<RowData>| #[trigger] file_data(text, d) implies d.len()
                        == 0 by {}
                    assert forall|d: Seq<RowData>, e: LedgerError|
                        #[trigger] file_data(text, d) implies !#[trigger] first_fault(d, e) by {
                        assert(d =~= none);
                    }
                }
            }
        }
    }
}

proof fn lemma_table(
    header: Seq<Seq<char>>,
    body: Seq<Seq<Seq<char>>>,
    a: int,
    b: int,
    c: int,
    d: Seq<RowData>,
)
    requires
        body.len() > 0,
        only_at(header, "id"@, a),
        only_at(header, "xkcd_color"@, b),
        only_at(header, "retired"@, c),
        d.len() == body.len(),
        forall|i: int| 0 <= i < body.len() ==> gives(#[trigger] body[i], a, b, c, d[i]),
    ensures
        table_data(header, body, d),
        forall|other: Seq<RowData>| #[trigger] table_data(header, body, other) ==> other == d,
{
    lemma_column(header, "id"@);
    lemma_column(header, "xkcd_color"@);
    lemma_column(header, "retired"@);
    assert(columns(header) == Some((a, b, c)));
    assert forall|i: int| 0 <= i < body.len() implies #[trigger] row_data(body[i], (a, b, c))
        == Some(d[i]) by {
        assert(gives(body[i], a, b, c, d[i]));
    }
    assert forall|other: Seq<RowData>| #[trigger] table_data(header, body, other) implies other
        == d by {
        assert forall|i: int| 0 <= i < d.len() implies other[i] == d[i] by {
            assert(row_data(body[i], columns(header)->0) == Some(other[i]));
            assert(row_data(body[i], (a, b, c)) == Some(d[i]));
        }
        assert(other =~= d);
    }
}

/// Loading a file with rows: the columns are found by their names, and the
/// rows are taken in as they are if they agree; else the first one at fault
/// is told.
pub proof fn law_files_with_rows(
    text: String,
    bootstrap: bool,
    source: &str,
    header: Seq<Seq<char>>,
    body: Seq<Seq<Seq<char>>>,
    a: int,
    b: int,
    c: int,
    d: Seq<RowData>,
    r: Result<Ledger, LedgerError>,
)
    requires
        call_ensures(Ledger::load, (Some(text), bootstrap, source), r),
        text@.len() == 0 || text@[text@.len() - 1] == '\n',
        csv_rows_of(text@) == Some((header, body)),
        body.len() > 0,
        only_at(header, "id"@, a),
        only_at(header, "xkcd_color"@, b),
        only_at(header, "retired"@, c),
        d.len() == body.len(),
        forall|i: int| 0 <= i < body.len() ==> gives(#[trigger] body[i], a, b, c, d[i]),
    ensures
        rows_agree(d) ==> (r matches Ok(ledger) && taken_in(d, ledger@) && ledger.file() == Some(
            text@,
        )),
        !rows_agree(d) ==> (r matches Err(e) && tells_the_first_bad_row(d, e)),
{
    lemma_table(header, body, a, b, c, d);
    lemma_faultless(d);
    assert(load_gives(raw_text(Some(text)), bootstrap, source@, r));
    assert(loaded(text@, bootstrap, source@, r));
    assert(file_data(text@, d));
    assert forall|other: Seq<RowData>| #[trigger] file_data(text@, other) implies other == d by {
        assert(table_data(header, body, other));
    }
    if let Err(e) = r {
        if first_fault(d, e) {
            lemma_first_bad(d, e);
        }
    }
}

/// A file with rows is malformed if a column is missing or named twice, or a
/// row lacks a field or has one that does not convert.
pub proof fn law_malformed_files(
    text: String,
    bootstrap: bool,
    source: &str,
    header: Seq<Seq<char>>,
    body: Seq<Seq<Seq<char>>>,
    r: Result<Ledger, LedgerError>,
    a: int,
    b: int,
    c: int,
    i: int,
)
    requires
        call_ensures(Ledger::load, (Some(text), bootstrap, source), r),
        text@.len() == 0 || text@[text@.len() - 1] == '\n',
        csv_rows_of(text@) == Some((header, body)),
        body.len() > 0,
        (forall|k: int| !#[trigger] only_at(header, "id"@, k)) || (forall|k: int|
            !#[trigger] only_at(header, "xkcd_color"@, k)) || (forall|k: int|
            !#[trigger] only_at(header, "retired"@, k)) || (only_at(header, "id"@, a) && only_at(
            header,
            "xkcd_color"@,
            b,
        ) && only_at(header, "retired"@, c) && 0 <= i < body.len() && (a >= body[i].len() || b
            >= body[i].len() || c >= body[i].len() || csv_fields_of(body[i][a], body[i][c]) is None)),
    ensures
        r matches Err(e) && e is Malformed,
{
    lemma_column(header, "id"@);
    lemma_column(header, "xkcd_color"@);
    lemma_column(header, "retired"@);
    assert(load_gives(raw_text(Some(text)), bootstrap, source@, r));
    assert(loaded(text@, bootstrap, source@, r));
    assert forall|d: Seq<RowData>| !#[trigger] file_data(text@, d) by {
        if file_data(text@, d) {
            assert(table_data(header, body, d));
            assert(columns(header) is Some);
            if only_at(header, "id"@, a) && only_at(header, "xkcd_color"@, b) && only_at(
                header,
                "retired"@,
                c,
            ) && 0 <= i < body.len() {
                assert(columns(header) == Some((a, b, c)));
                assert(row_data(body[i], columns(header)->0) == Some(d[i]));
            }
        }
    }
}

/// Whatever a file is loaded as, it is loaded as the same every time.
pub proof fn law_loading_is_repeatable(
    raw: Option<Seq<char>>,
    bootstrap: bool,
    source: Seq<char>,
    one: Ledger,
    other: Result<Ledger, LedgerError>,
)
    requires
        load_gives(raw, bootstrap, source, Ok(one)),
        load_gives(raw, bootstrap, source, other),
    ensures
        other matches Ok(ledger) && ledger@ == one@ && ledger.file() == one.file(),
{
    if let Some(text) = raw {
        assert forall|d: Seq<RowData>, e: Seq<RowData>| #[trigger] file_data(text, d)
            && #[trigger] file_data(text, e) implies d == e by {
            let (header, body) = csv_rows_of(text)->0;
            assert forall|i: int| 0 <= i < d.len() implies d[i] == e[i] by {
                assert(row_data(body[i], columns(header)->0) == Some(d[i]));
                assert(row_data(body[i], columns(header)->0) == Some(e[i]));
            }
            assert(d =~= e);
        }
        if let Err(e) = other {
            assert forall|d: Seq<RowData>| #[trigger] first_fault(d, e) implies !faultless(d) by {}
        }
    }
}

} // verus!
