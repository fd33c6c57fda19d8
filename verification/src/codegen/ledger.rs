//! The permanent-id ledger.
//!
//! The ledger holds every name ever seen, live and retired. A retired row is
//! never matched again by chance and still counts toward the highest id, so
//! its number is never handed out a second time.

use vstd::prelude::*;

verus! {

use crate::codegen::ledger_file::{
    Fields, LEDGER_HEADER, bool_word, convert_csv_fields, csv_fields_of, csv_line, csv_lines,
    csv_rows_of, listed, read_csv_rows, reads_back, starts_plainly, text_rows, texts,
    write_csv_row,
};
use crate::sorting::{
    insert_by, law_sort_by, lemma_filter_all, lemma_insert_at, lemma_sort_distinct,
    lemma_sort_keeps, sort_by,
};
use crate::text::{
    chars_of, decimal, decimal_string, lemma_text_order, lemma_text_order_chain, str_eq,
    text_below, text_less,
};

/// One row of the ledger file.
#[derive(Debug, PartialEq, Eq)]
pub struct LedgerRow {
    pub id: u16,
    pub xkcd_color: String,
    pub retired: bool,
}

/// One name with its id, and what is known of it.
#[derive(Debug)]
pub struct Entry {
    id: u16,
    name: String,
    loaded: bool,
    was_live: bool,
    live: bool,
}

/// A ledger entry as contracts speak of it.
#[verifier::ext_equal]
pub struct Row {
    /// The permanent id.
    pub id: u16,
    /// The name it belongs to.
    pub name: Seq<char>,
    /// Whether the row was in the file.
    pub loaded: bool,
    /// Whether the name was live as of the last committed run.
    pub was_live: bool,
    /// Whether the name is live in this run.
    pub live: bool,
}

/// Why a ledger is refused.
#[derive(Debug, PartialEq, Eq)]
pub enum LedgerError {
    /// The file is missing.
    Missing,
    /// The file does not end in a line feed: its last row was cut short.
    Truncated,
    /// The file does not parse.
    Malformed,
    /// The file has no rows.
    NoRows,
    /// A row carries id 0, which stands for "never assigned".
    ReservedId { name: String },
    /// Two rows carry the same id.
    DuplicateId { id: u16, first: String, second: String },
    /// Two rows carry the same name.
    DuplicateName { name: String, first_id: u16, second_id: u16 },
    /// Every id has been handed out.
    IdsExhausted,
}

/// Why a run may not be committed.
#[derive(Clone, Copy, Debug, PartialEq, Eq, Structural)]
pub enum Refusal {
    /// The run retires a name that was live and mints an id for another,
    /// which is what a rename looks like.
    RetireAndMint,
    /// The run hands a retired id back to its name.
    Revival,
    /// The ledger on disk is no longer the one that was read.
    LedgerChanged,
    /// The upstream table on disk is no longer the one that was read.
    InputChanged,
}

/// The ledger of one run.
pub struct Ledger {
    entries: Vec<Entry>,
    high_water: u16,
    source: String,
    loaded_source: Option<String>,
}

/// Which entries to list.
#[derive(Clone, Copy, Debug, PartialEq, Eq, Structural)]
pub enum Pick {
    /// Every entry.
    All,
    /// Entries that are not live in this run.
    Tombstones,
    /// Entries that were live in the last run and are not in this one.
    NewlyRetired,
    /// Entries that were retired in the last run and are live in this one.
    Reactivated,
    /// Entries minted in this run.
    Minted,
}

impl Pick {
    /// Whether the row is picked.
    pub open spec fn picks(self, row: Row) -> bool {
        match self {
            Pick::All => true,
            Pick::Tombstones => !row.live,
            Pick::NewlyRetired => row.was_live && !row.live,
            Pick::Reactivated => row.loaded && !row.was_live && row.live,
            Pick::Minted => !row.loaded,
        }
    }
}

impl View for Entry {
    type V = Row;

    closed spec fn view(&self) -> Row {
        Row {
            id: self.id,
            name: self.name@,
            loaded: self.loaded,
            was_live: self.was_live,
            live: self.live,
        }
    }
}

/// Whether some row carries `name`.
pub open spec fn has_name(rows: Seq<Row>, name: Seq<char>) -> bool {
    exists|i: int| 0 <= i < rows.len() && (#[trigger] rows[i]).name == name
}

/// The id of `name`.
pub open spec fn id_of(rows: Seq<Row>, name: Seq<char>) -> Option<u16> {
    if has_name(rows, name) {
        let i = choose|i: int| 0 <= i < rows.len() && (#[trigger] rows[i]).name == name;
        Some(rows[i].id)
    } else {
        None
    }
}

/// The highest id ever handed out, 0 if none was.
pub open spec fn highest(rows: Seq<Row>) -> u16
    decreases rows.len(),
{
    if rows.len() == 0 {
        0
    } else {
        let rest = highest(rows.drop_last());
        if rows.last().id > rest {
            rows.last().id
        } else {
            rest
        }
    }
}

/// Whether ids are assigned, unique, and one to one with names.
pub open spec fn sound(rows: Seq<Row>) -> bool {
    &&& forall|i: int| 0 <= i < rows.len() ==> (#[trigger] rows[i]).id != 0
    &&& forall|i: int, j: int|
        0 <= i < j < rows.len() ==> (#[trigger] rows[i]).id != (#[trigger] rows[j]).id
    &&& forall|i: int, j: int|
        0 <= i < j < rows.len() ==> (#[trigger] rows[i]).name != (#[trigger] rows[j]).name
}

/// Whether the flags of every row fit together: what was live was in the
/// file, and what was not in the file is live.
pub open spec fn flags_fit(rows: Seq<Row>) -> bool {
    &&& forall|i: int| 0 <= i < rows.len() ==> (#[trigger] rows[i]).was_live ==> rows[i].loaded
    &&& forall|i: int| 0 <= i < rows.len() ==> !(#[trigger] rows[i]).loaded ==> rows[i].live
}

/// The rows after `name` was seen in this run: its row is live, or there is a
/// new one, above every id before it.
pub open spec fn seen(rows: Seq<Row>, name: Seq<char>) -> Seq<Row> {
    if has_name(rows, name) {
        let i = choose|i: int| 0 <= i < rows.len() && (#[trigger] rows[i]).name == name;
        rows.update(i, Row { live: true, ..rows[i] })
    } else {
        rows.push(
            Row {
                id: (highest(rows) + 1) as u16,
                name,
                loaded: false,
                was_live: false,
                live: true,
            },
        )
    }
}

/// A file row: id, name, and whether it is retired.
pub type RowData = (u16, Seq<char>, bool);

/// The file rows as data.
pub open spec fn data(rows: Seq<LedgerRow>) -> Seq<RowData> {
    rows.map_values(|row: LedgerRow| (row.id, row.xkcd_color@, row.retired))
}

/// Whether row `j` of a file is at fault: its id is 0, or a row before it has
/// its id or its name.
pub open spec fn row_fault(rows: Seq<RowData>, j: int) -> bool {
    ||| rows[j].0 == 0
    ||| exists|i: int| 0 <= i < j && (#[trigger] rows[i]).0 == rows[j].0
    ||| exists|i: int| 0 <= i < j && (#[trigger] rows[i]).1 == rows[j].1
}

/// Whether no row of a file is at fault.
pub open spec fn faultless(rows: Seq<RowData>) -> bool {
    forall|j: int| 0 <= j < rows.len() ==> !#[trigger] row_fault(rows, j)
}

/// Whether `e` names the fault of row `j`: id 0 before a repeated id before a
/// repeated name.
pub open spec fn names_fault(rows: Seq<RowData>, j: int, e: LedgerError) -> bool {
    match e {
        LedgerError::ReservedId { name } => rows[j].0 == 0 && name@ == rows[j].1,
        LedgerError::DuplicateId { id, first, second } => {
            &&& rows[j].0 != 0
            &&& id == rows[j].0
            &&& second@ == rows[j].1
            &&& exists|i: int| 0 <= i < j && (#[trigger] rows[i]).0 == id && rows[i].1 == first@
        },
        LedgerError::DuplicateName { name, first_id, second_id } => {
            &&& rows[j].0 != 0
            &&& forall|i: int| 0 <= i < j ==> (#[trigger] rows[i]).0 != rows[j].0
            &&& name@ == rows[j].1
            &&& second_id == rows[j].0
            &&& exists|i: int|
                0 <= i < j && (#[trigger] rows[i]).1 == name@ && rows[i].0 == first_id
        },
        _ => false,
    }
}

/// Whether `e` names the fault of the first row at fault.
pub open spec fn first_fault(rows: Seq<RowData>, e: LedgerError) -> bool {
    exists|j: int|
        {
            &&& 0 <= j < rows.len()
            &&& #[trigger] row_fault(rows, j)
            &&& forall|i: int| 0 <= i < j ==> !#[trigger] row_fault(rows, i)
            &&& names_fault(rows, j, e)
        }
}

/// A file row as the ledger holds it at the start of a run.
pub open spec fn loaded_row(row: RowData) -> Row {
    Row { id: row.0, name: row.1, loaded: true, was_live: !row.2, live: false }
}

/// File rows as the ledger holds them at the start of a run.
pub open spec fn loaded_rows(rows: Seq<RowData>) -> Seq<Row> {
    rows.map_values(|row: RowData| loaded_row(row))
}

/// The picked rows in ascending order of id.
pub open spec fn listing(rows: Seq<Row>, pick: Pick) -> Seq<Row> {
    sort_by(|row: Row| row.id as int, rows.filter(|row: Row| pick.picks(row)))
}

/// Whether `out` lists the ids and names of `rows`.
pub open spec fn reports(rows: Seq<Row>, out: Seq<(u16, &str)>) -> bool {
    &&& out.len() == rows.len()
    &&& forall|k: int|
        0 <= k < out.len() ==> (#[trigger] out[k]).0 == rows[k].id && out[k].1@ == rows[k].name
}

/// The highest id is at least every id, and one of them unless there is none.
pub proof fn lemma_highest(rows: Seq<Row>)
    ensures
        forall|i: int| 0 <= i < rows.len() ==> (#[trigger] rows[i]).id <= highest(rows),
        rows.len() > 0 ==> exists|i: int|
            0 <= i < rows.len() && (#[trigger] rows[i]).id == highest(rows),
    decreases rows.len(),
{
    if rows.len() > 0 {
        let rest = rows.drop_last();
        lemma_highest(rest);
        let last = rows.len() - 1;
        assert forall|i: int| 0 <= i < rows.len() implies (#[trigger] rows[i]).id <= highest(
            rows,
        ) by {
            if i < last {
                assert(rest[i] == rows[i]);
            }
        }
        if rows.last().id > highest(rest) {
            assert(rows[last].id == highest(rows));
        } else if rest.len() > 0 {
            let i = choose|i: int| 0 <= i < rest.len() && (#[trigger] rest[i]).id == highest(rest);
            assert(rows[i].id == highest(rows));
        } else {
            assert(rows[last].id == highest(rows));
        }
    }
}

/// The highest id is a function of which ids there are.
pub proof fn lemma_highest_is(rows: Seq<Row>, top: u16)
    requires
        forall|i: int| 0 <= i < rows.len() ==> (#[trigger] rows[i]).id <= top,
        top == 0 || exists|i: int| 0 <= i < rows.len() && (#[trigger] rows[i]).id == top,
    ensures
        highest(rows) == top,
{
    lemma_highest(rows);
}

/// In sound rows a name determines its row.
pub proof fn lemma_name_at(rows: Seq<Row>, i: int)
    requires
        sound(rows),
        0 <= i < rows.len(),
    ensures
        has_name(rows, rows[i].name),
        id_of(rows, rows[i].name) == Some(rows[i].id),
        seen(rows, rows[i].name) == rows.update(i, Row { live: true, ..rows[i] }),
{
    let name = rows[i].name;
    let k = choose|k: int| 0 <= k < rows.len() && (#[trigger] rows[k]).name == name;
    assert(k == i);
}

impl Ledger {
    /// The rows.
    pub closed spec fn view(&self) -> Seq<Row> {
        self.entries@.map_values(|e: Entry| e@)
    }

    /// What the file held, if there was one.
    pub closed spec fn file(&self) -> Option<Seq<char>> {
        match self.loaded_source {
            Some(text) => Some(text@),
            None => None,
        }
    }

    /// Where the rows came from.
    pub closed spec fn origin(&self) -> Seq<char> {
        self.source@
    }

    /// Whether rows are sound, their flags fit together, and the high-water
    /// mark is the highest id.
    pub closed spec fn wf(&self) -> bool {
        &&& sound(self@)
        &&& flags_fit(self@)
        &&& self.high_water == highest(self@)
    }

    /// What a ledger is known to hold.
    pub proof fn law_ledger(&self)
        requires
            self.wf(),
        ensures
            sound(self@),
            flags_fit(self@),
    {
    }

    /// Takes the rows of a file in. Refuses an unassigned id, a repeated id
    /// and a repeated name.
    pub fn from_rows(rows: Vec<LedgerRow>, source: &str) -> (r: Result<Ledger, LedgerError>)
        ensures
            r matches Ok(ledger) ==> {
                &&& ledger.wf()
                &&& ledger@ == loaded_rows(data(rows@))
                &&& ledger.file() is None
                &&& ledger.origin() == source@
            },
            r is Ok <==> faultless(data(rows@)),
            r matches Err(e) ==> first_fault(data(rows@), e),
    {
        let mut entries: Vec<Entry> = Vec::new();
        let mut high_water: u16 = 0;
        let mut j: usize = 0;
        let ghost d = data(rows@);
        let ghost want = loaded_rows(d);
        while j < rows.len()
            invariant
                j <= rows@.len(),
                d == data(rows@),
                want == loaded_rows(d),
                entries@.map_values(|e: Entry| e@) == want.take(j as int),
                entries@.len() == j,
                high_water == highest(want.take(j as int)),
                sound(want.take(j as int)),
                forall|i: int| 0 <= i < j ==> !#[trigger] row_fault(d, i),
            decreases rows@.len() - j,
        {
            let id: u16 = rows[j].id;
            let name: String = rows[j].xkcd_color.clone();
            assert(d[j as int] == (id, name@, rows@[j as int].retired));
            if id == 0 {
                assert(row_fault(d, j as int));
                return Err(LedgerError::ReservedId { name });
            }
            let mut i: usize = 0;
            while i < j
                invariant
                    i <= j < rows@.len(),
                    entries@.len() == j,
                    d == data(rows@),
                    want == loaded_rows(d),
                    entries@.map_values(|e: Entry| e@) == want.take(j as int),
                    d[j as int] == (id, name@, rows@[j as int].retired),
                    id != 0,
                    forall|k: int| 0 <= k < i ==> (#[trigger] d[k]).0 != id,
                    forall|k: int| 0 <= k < j ==> !#[trigger] row_fault(d, k),
                decreases j - i,
            {
                proof {
                    lemma_entry_at(entries@, want, j as int, i as int);
                    assert(want[i as int] == loaded_row(d[i as int]));
                }
                if entries[i].id == id {
                    proof {
                        assert(d[i as int].0 == id);
                        assert(row_fault(d, j as int));
                    }
                    let first: String = entries[i].name.clone();
                    return Err(LedgerError::DuplicateId { id, first, second: name });
                }
                assert(d[i as int].0 != id);
                i += 1;
            }
            let mut i: usize = 0;
            while i < j
                invariant
                    i <= j < rows@.len(),
                    entries@.len() == j,
                    d == data(rows@),
                    want == loaded_rows(d),
                    entries@.map_values(|e: Entry| e@) == want.take(j as int),
                    d[j as int] == (id, name@, rows@[j as int].retired),
                    id != 0,
                    forall|k: int| 0 <= k < j ==> (#[trigger] d[k]).0 != id,
                    forall|k: int| 0 <= k < i ==> (#[trigger] d[k]).1 != name@,
                    forall|k: int| 0 <= k < j ==> !#[trigger] row_fault(d, k),
                decreases j - i,
            {
                proof {
                    lemma_entry_at(entries@, want, j as int, i as int);
                    assert(want[i as int] == loaded_row(d[i as int]));
                }
                if entries[i].name == name {
                    proof {
                        assert(d[i as int].1 == name@);
                        assert(row_fault(d, j as int));
                    }
                    let first_id: u16 = entries[i].id;
                    return Err(LedgerError::DuplicateName { name, first_id, second_id: id });
                }
                assert(d[i as int].1 != name@);
                i += 1;
            }
            let entry: Entry = Entry {
                id,
                name,
                loaded: true,
                was_live: !rows[j].retired,
                live: false,
            };
            let ghost before = entries@;
            entries.push(entry);
            proof {
                assert(entry@ == want[j as int]);
                assert(want.take(j + 1).drop_last() =~= want.take(j as int));
                assert(entries@.map_values(|e: Entry| e@) =~= before.map_values(
                    |e: Entry| e@,
                ).push(entry@));
                let rs = want.take(j + 1);
                assert(rs =~= want.take(j as int).push(entry@));
                assert forall|a: int, b: int| 0 <= a < b < rs.len() implies (#[trigger] rs[a]).id
                    != (#[trigger] rs[b]).id && rs[a].name != rs[b].name by {
                    if b == j {
                        assert(rs[a] == loaded_row(d[a]));
                        assert(d[a].0 != id);
                        assert(d[a].1 != entry@.name);
                    } else {
                        assert(rs[a] == want.take(j as int)[a]);
                        assert(rs[b] == want.take(j as int)[b]);
                    }
                }
                assert forall|a: int| 0 <= a < rs.len() implies (#[trigger] rs[a]).id != 0 by {
                    if a < j {
                        assert(rs[a] == want.take(j as int)[a]);
                    }
                }
                assert(sound(rs));
                assert(!row_fault(d, j as int));
            }
            if id > high_water {
                high_water = id;
            }
            j += 1;
        }
        proof {
            assert(want.take(j as int) =~= want);
        }
        let ledger: Ledger = Ledger {
            entries,
            high_water,
            source: source.to_owned(),
            loaded_source: None,
        };
        assert(ledger@ == want);
        Ok(ledger)
    }

    /// The id for `name`: the one it has, or a fresh one above every id ever
    /// handed out. Either way the name is live from here on.
    pub fn id_for(&mut self, name: &str) -> (r: Result<u16, LedgerError>)
        requires
            old(self).wf(),
        ensures
            final(self).wf(),
            final(self).file() == old(self).file(),
            final(self).origin() == old(self).origin(),
            r matches Ok(id) ==> final(self)@ == seen(old(self)@, name@) && id_of(
                final(self)@,
                name@,
            ) == Some(id),
            r is Err <==> !has_name(old(self)@, name@) && highest(old(self)@) == u16::MAX,
            r matches Err(e) ==> e is IdsExhausted && final(self)@ == old(self)@,
    {
        let ghost rows = self@;
        let key: String = name.to_owned();
        let mut i: usize = 0;
        while i < self.entries.len()
            invariant
                i <= self.entries@.len(),
                *self == *old(self),
                rows == self@,
                self.wf(),
                key@ == name@,
                forall|k: int| 0 <= k < i ==> (#[trigger] rows[k]).name != key@,
            decreases self.entries@.len() - i,
        {
            assert(rows[i as int] == self.entries@[i as int]@);
            if self.entries[i].name == key {
                let id: u16 = self.entries[i].id;
                let entry: Entry = Entry {
                    id,
                    name: self.entries[i].name.clone(),
                    loaded: self.entries[i].loaded,
                    was_live: self.entries[i].was_live,
                    live: true,
                };
                self.entries.set(i, entry);
                proof {
                    lemma_name_at(rows, i as int);
                    let next = rows.update(i as int, Row { live: true, ..rows[i as int] });
                    assert(self@ =~= next);
                    lemma_same_ids(rows, next);
                    lemma_name_at(next, i as int);
                }
                return Ok(id);
            }
            i += 1;
        }
        proof {
            lemma_highest(rows);
            assert(!has_name(rows, name@));
        }
        if self.high_water == u16::MAX {
            return Err(LedgerError::IdsExhausted);
        }
        let id: u16 = self.high_water + 1;
        let entry: Entry = Entry { id, name: key, loaded: false, was_live: false, live: true };
        let ghost before = self.entries@;
        self.high_water = id;
        self.entries.push(entry);
        proof {
            let next = rows.push(entry@);
            assert(self@ =~= next);
            assert(next =~= seen(rows, entry@.name));
            assert(next.drop_last() =~= rows);
            assert(sound(next));
            lemma_name_at(next, rows.len() as int);
        }
        Ok(id)
    }
}

proof fn lemma_entry_at(entries: Seq<Entry>, want: Seq<Row>, n: int, i: int)
    requires
        0 <= i < n <= want.len(),
        entries.map_values(|e: Entry| e@) == want.take(n),
    ensures
        entries[i]@ == want[i],
{
    assert(entries.len() == entries.map_values(|e: Entry| e@).len());
    assert(entries.map_values(|e: Entry| e@)[i] == want.take(n)[i]);
}

/// Rows that differ in flags only have the same ids and names.
pub proof fn lemma_same_ids(one: Seq<Row>, other: Seq<Row>)
    requires
        sound(one),
        one.len() == other.len(),
        forall|i: int|
            0 <= i < one.len() ==> (#[trigger] one[i]).id == other[i].id && one[i].name
                == other[i].name,
    ensures
        sound(other),
        highest(other) == highest(one),
{
    lemma_highest(one);
    if one.len() > 0 {
        let k = choose|k: int| 0 <= k < one.len() && (#[trigger] one[k]).id == highest(one);
        assert(other[k].id == highest(one));
        assert forall|i: int| 0 <= i < other.len() implies (#[trigger] other[i]).id <= highest(
            one,
        ) by {
            assert(one[i].id <= highest(one));
        }
    }
    lemma_highest_is(other, highest(one));
    assert forall|i: int, j: int| 0 <= i < j < other.len() implies (#[trigger] other[i]).id != (
    #[trigger] other[j]).id && other[i].name != other[j].name by {
        assert(one[i].id != one[j].id);
        assert(one[i].name != one[j].name);
    }
    assert forall|i: int| 0 <= i < other.len() implies (#[trigger] other[i]).id != 0 by {
        assert(one[i].id != 0);
    }
}

/// Whether `name` was live as of the last committed run.
pub open spec fn live_before(rows: Seq<Row>, name: Seq<char>) -> bool {
    exists|i: int| 0 <= i < rows.len() && (#[trigger] rows[i]).was_live && rows[i].name == name
}

proof fn lemma_live_before_more(rows: Seq<Row>, i: int)
    requires
        0 <= i < rows.len(),
    ensures
        forall|name: Seq<char>|
            live_before(rows.take(i), name) ==> #[trigger] live_before(rows.take(i + 1), name),
{
    let (a, b) = (rows.take(i), rows.take(i + 1));
    assert forall|name: Seq<char>| live_before(a, name) implies #[trigger] live_before(b, name) by {
        let j = choose|j: int|
            0 <= j < a.len() && (#[trigger] a[j]).was_live && a[j].name == name;
        assert(b[j] == a[j]);
    }
}

/// Whether `at` are the positions of `chosen` among `rows`.
pub open spec fn positions(rows: Seq<Row>, at: Seq<usize>, chosen: Seq<Row>) -> bool {
    &&& at.len() == chosen.len()
    &&& forall|k: int|
        0 <= k < at.len() ==> (#[trigger] at[k]) < rows.len() && rows[at[k] as int] == chosen[k]
}

impl Ledger {
    fn picked(&self, i: usize, pick: Pick) -> (b: bool)
        requires
            i < self@.len(),
        ensures
            b == pick.picks(self@[i as int]),
    {
        let e: &Entry = &self.entries[i];
        match pick {
            Pick::All => true,
            Pick::Tombstones => !e.live,
            Pick::NewlyRetired => e.was_live && !e.live,
            Pick::Reactivated => e.loaded && !e.was_live && e.live,
            Pick::Minted => !e.loaded,
        }
    }

    /// Positions of the picked entries, in ascending order of id.
    fn sorted_positions(&self, pick: Pick) -> (at: Vec<usize>)
        ensures
            positions(self@, at@, listing(self@, pick)),
    {
        let ghost rows = self@;
        let ghost key = |row: Row| row.id as int;
        let ghost f = |row: Row| pick.picks(row);
        let mut at: Vec<usize> = Vec::new();
        let mut i: usize = 0;
        proof {
            reveal(Seq::filter);
            assert(rows.take(0) =~= Seq::empty());
        }
        while i < self.entries.len()
            invariant
                i <= self.entries@.len(),
                rows == self@,
                key == (|row: Row| row.id as int),
                f == (|row: Row| pick.picks(row)),
                positions(rows, at@, sort_by(key, rows.take(i as int).filter(f))),
            decreases self.entries@.len() - i,
        {
            let ghost before = rows.take(i as int).filter(f);
            let ghost sorted = sort_by(key, before);
            proof {
                reveal(Seq::filter);
                assert(rows.take(i + 1).drop_last() =~= rows.take(i as int));
                assert(rows.take(i + 1).last() == rows[i as int]);
            }
            if self.picked(i, pick) {
                let id: u16 = self.entries[i].id;
                let mut p: usize = at.len();
                while p > 0 && self.entries[at[p - 1]].id > id
                    invariant
                        p <= at@.len(),
                        rows == self@,
                        key == (|row: Row| row.id as int),
                        positions(rows, at@, sorted),
                        i < rows.len(),
                        id == rows[i as int].id,
                        forall|k: int| p <= k < sorted.len() ==> key(#[trigger] sorted[k]) > id,
                    decreases p,
                {
                    assert(rows[at@[p - 1] as int] == sorted[p - 1]);
                    p -= 1;
                }
                proof {
                    if p > 0 {
                        assert(rows[at@[p - 1] as int] == sorted[p - 1]);
                    }
                    let x = rows[i as int];
                    lemma_insert_at(key, sorted, x, p as int);
                    let next = rows.take(i + 1).filter(f);
                    assert(next == before.push(x));
                    assert(next.drop_last() =~= before);
                    assert(sort_by(key, next) == insert_by(key, sorted, x));
                }
                let ghost old_at = at@;
                at.insert(p, i);
                proof {
                    let x = rows[i as int];
                    let out = sorted.take(p as int).push(x) + sorted.skip(p as int);
                    assert forall|k: int| 0 <= k < at@.len() implies (#[trigger] at@[k])
                        < rows.len() && rows[at@[k] as int] == out[k] by {
                        if k < p {
                            assert(at@[k] == old_at[k]);
                        } else if k > p {
                            assert(at@[k] == old_at[k - 1]);
                        }
                    }
                }
            }
            i += 1;
        }
        assert(rows.take(i as int) =~= rows);
        at
    }

    /// Ids and names of the picked entries, in ascending order of id.
    fn report(&self, pick: Pick) -> (out: Vec<(u16, &str)>)
        ensures
            reports(listing(self@, pick), out@),
    {
        let at: Vec<usize> = self.sorted_positions(pick);
        let ghost want = listing(self@, pick);
        let mut out: Vec<(u16, &str)> = Vec::new();
        let mut k: usize = 0;
        while k < at.len()
            invariant
                k <= at@.len(),
                positions(self@, at@, want),
                out@.len() == k,
                forall|j: int|
                    0 <= j < k ==> (#[trigger] out@[j]).0 == want[j].id && out@[j].1@
                        == want[j].name,
            decreases at@.len() - k,
        {
            assert(self@[at@[k as int] as int] == want[k as int]);
            let e: &Entry = &self.entries[at[k]];
            out.push((e.id, e.name.as_str()));
            k += 1;
        }
        out
    }

    /// Every entry that is not live in this run, in ascending order of id:
    /// this run's retirements and all earlier ones.
    pub fn tombstones(&self) -> (out: Vec<(u16, &str)>)
        ensures
            reports(listing(self@, Pick::Tombstones), out@),
    {
        self.report(Pick::Tombstones)
    }

    /// Entries that were live in the last committed run and are not in this
    /// one, in ascending order of id.
    pub fn newly_retired(&self) -> (out: Vec<(u16, &str)>)
        ensures
            reports(listing(self@, Pick::NewlyRetired), out@),
    {
        self.report(Pick::NewlyRetired)
    }

    /// Entries that were retired in the last committed run and are live in
    /// this one, in ascending order of id.
    pub fn reactivated(&self) -> (out: Vec<(u16, &str)>)
        ensures
            reports(listing(self@, Pick::Reactivated), out@),
    {
        self.report(Pick::Reactivated)
    }

    /// Entries minted in this run, in ascending order of id.
    pub fn minted(&self) -> (out: Vec<(u16, &str)>)
        ensures
            reports(listing(self@, Pick::Minted), out@),
    {
        self.report(Pick::Minted)
    }

    /// The highest id ever handed out, 0 if none was.
    pub fn high_water(&self) -> (id: u16)
        requires
            self.wf(),
        ensures
            id == highest(self@),
    {
        self.high_water
    }

    /// Where the rows came from.
    pub fn source(&self) -> (s: &str)
        ensures
            s@ == self.origin(),
    {
        self.source.as_str()
    }

    /// The id of `name`, if it has one.
    pub fn id_by_name(&self, name: &str) -> (id: Option<u16>)
        requires
            self.wf(),
        ensures
            id == id_of(self@, name@),
    {
        let mut i: usize = 0;
        while i < self.entries.len()
            invariant
                i <= self.entries@.len(),
                self.wf(),
                forall|k: int| 0 <= k < i ==> (#[trigger] self@[k]).name != name@,
            decreases self.entries@.len() - i,
        {
            assert(self@[i as int] == self.entries@[i as int]@);
            if str_eq(self.entries[i].name.as_str(), name) {
                proof {
                    lemma_name_at(self@, i as int);
                }
                return Some(self.entries[i].id);
            }
            i += 1;
        }
        None
    }

    /// The names that were live as of the last committed run, in dictionary
    /// order.
    pub fn loaded_live(&self) -> (out: Vec<&str>)
        requires
            self.wf(),
        ensures
            forall|k: int, l: int|
                0 <= k < l < out@.len() ==> text_below((#[trigger] out@[k])@, (#[trigger] out@[l])@),
            forall|k: int| 0 <= k < out@.len() ==> live_before(self@, (#[trigger] out@[k])@),
            forall|name: Seq<char>| #[trigger]
                live_before(self@, name) ==> exists|k: int|
                    0 <= k < out@.len() && (#[trigger] out@[k])@ == name,
    {
        let ghost rows = self@;
        let mut out: Vec<&str> = Vec::new();
        let mut i: usize = 0;
        while i < self.entries.len()
            invariant
                i <= self.entries@.len(),
                rows == self@,
                sound(rows),
                forall|k: int, l: int|
                    0 <= k < l < out@.len() ==> text_below(
                        (#[trigger] out@[k])@,
                        (#[trigger] out@[l])@,
                    ),
                forall|k: int|
                    0 <= k < out@.len() ==> live_before(rows.take(i as int), (#[trigger] out@[k])@),
                forall|j: int|
                    0 <= j < i && (#[trigger] rows[j]).was_live ==> exists|k: int|
                        0 <= k < out@.len() && (#[trigger] out@[k])@ == rows[j].name,
            decreases self.entries@.len() - i,
        {
            assert(rows[i as int] == self.entries@[i as int]@);
            let ghost before = out@;
            proof {
                lemma_live_before_more(rows, i as int);
            }
            if self.entries[i].was_live {
                let name: &str = self.entries[i].name.as_str();
                proof {
                    assert forall|k: int| 0 <= k < out@.len() implies (#[trigger] out@[k])@
                        != name@ by {
                        let front = rows.take(i as int);
                        assert(live_before(front, out@[k]@));
                        let j = choose|j: int|
                            0 <= j < front.len() && (#[trigger] front[j]).was_live && front[j].name
                                == out@[k]@;
                        assert(rows[j].name != rows[i as int].name);
                    }
                }
                let mut p: usize = 0;
                while p < out.len() && text_less(out[p], name)
                    invariant
                        p <= out@.len(),
                        out@ == before,
                        forall|k: int| 0 <= k < p ==> text_below((#[trigger] out@[k])@, name@),
                    decreases out@.len() - p,
                {
                    p += 1;
                }
                proof {
                    assert forall|k: int| p <= k < out@.len() implies text_below(
                        name@,
                        (#[trigger] out@[k])@,
                    ) by {
                        lemma_text_order(name@, out@[p as int]@);
                        if k > p {
                            lemma_text_order_chain(name@, out@[p as int]@, out@[k]@);
                        }
                    }
                }
                out.insert(p, name);
                proof {
                    assert(rows.take(i + 1)[i as int].name == name@);
                    assert forall|k: int| 0 <= k < out@.len() implies live_before(
                        rows.take(i + 1),
                        (#[trigger] out@[k])@,
                    ) by {
                        if k < p {
                            assert(out@[k] == before[k]);
                        } else if k > p {
                            assert(out@[k] == before[k - 1]);
                        }
                    }
                    assert forall|k: int, l: int| 0 <= k < l < out@.len() implies text_below(
                        (#[trigger] out@[k])@,
                        (#[trigger] out@[l])@,
                    ) by {
                        let a = if k < p { k } else { k - 1 };
                        let b = if l < p { l } else { l - 1 };
                        if k != p && l != p {
                            assert(text_below(before[a]@, before[b]@));
                        } else if k == p {
                            assert(out@[l] == before[b]);
                        } else {
                            assert(out@[k] == before[a]);
                        }
                    }
                    assert forall|j: int|
                        0 <= j < i + 1 && (#[trigger] rows[j]).was_live implies exists|k: int|
                        0 <= k < out@.len() && (#[trigger] out@[k])@ == rows[j].name by {
                        if j < i {
                            let k = choose|k: int|
                                0 <= k < before.len() && (#[trigger] before[k])@ == rows[j].name;
                            let to = if k < p { k } else { k + 1 };
                            assert(out@[to] == before[k]);
                        } else {
                            assert(out@[p as int]@ == rows[j].name);
                        }
                    }
                }
            }
            i += 1;
        }
        assert(rows.take(i as int) =~= rows);
        out
    }

    /// Refuses a run that both retires a name and mints an id, which is what
    /// a rename looks like, unless the operator calls the two unrelated.
    pub fn assert_rename_resolved(&self, allow_retire_and_mint: bool) -> (r: Result<(), Refusal>)
        ensures
            r is Err <==> !allow_retire_and_mint && listing(self@, Pick::NewlyRetired).len() > 0
                && listing(self@, Pick::Minted).len() > 0,
            r matches Err(e) ==> e == Refusal::RetireAndMint,
    {
        if allow_retire_and_mint || self.newly_retired().len() == 0 || self.minted().len() == 0 {
            Ok(())
        } else {
            Err(Refusal::RetireAndMint)
        }
    }

    /// Refuses a run that hands a retired id back, unless the operator calls
    /// it the same colour.
    pub fn assert_revival_approved(&self, allow_revival: bool) -> (r: Result<(), Refusal>)
        ensures
            r is Err <==> !allow_revival && listing(self@, Pick::Reactivated).len() > 0,
            r matches Err(e) ==> e == Refusal::Revival,
    {
        if allow_revival || self.reactivated().len() == 0 {
            Ok(())
        } else {
            Err(Refusal::Revival)
        }
    }
}

/// The column names of the file.
pub open spec fn column_names() -> Fields {
    ("id"@, "xkcd_color"@, "retired"@)
}

/// A row as the file holds it: id, name, and whether it is retired.
pub open spec fn file_fields(row: Row) -> Fields {
    (decimal(row.id as nat), row.name, bool_word(!row.live))
}

/// The rows as the file holds them, in ascending order of id.
pub open spec fn file_rows(rows: Seq<Row>) -> Seq<Fields> {
    listing(rows, Pick::All).map_values(|row: Row| file_fields(row))
}

/// The file for the given rows: the prologue, then the column names and every
/// row, live and retired, unless there is none.
pub open spec fn ledger_text(rows: Seq<Row>) -> Seq<char> {
    if rows.len() == 0 {
        LEDGER_HEADER@
    } else {
        LEDGER_HEADER@ + csv_lines(seq![column_names()] + file_rows(rows))
    }
}

/// The one place of `name` in `header`, if there is just one.
pub open spec fn column(header: Seq<Seq<char>>, name: Seq<char>) -> Option<int> {
    if exists|i: int| #[trigger] is_column(header, name, i) {
        Some(choose|i: int| #[trigger] is_column(header, name, i))
    } else {
        None
    }
}

/// Whether `i` is the one place of `name` in `header`.
pub open spec fn is_column(header: Seq<Seq<char>>, name: Seq<char>, i: int) -> bool {
    &&& 0 <= i < header.len()
    &&& header[i] == name
    &&& forall|j: int| 0 <= j < header.len() && #[trigger] header[j] == name ==> j == i
}

/// A read row as data, given the places of the three columns.
pub open spec fn row_data(row: Seq<Seq<char>>, at: (int, int, int)) -> Option<RowData> {
    if at.0 < row.len() && at.1 < row.len() && at.2 < row.len() {
        match csv_fields_of(row[at.0], row[at.2]) {
            Some((id, retired)) => Some((id, row[at.1], retired)),
            None => None,
        }
    } else {
        None
    }
}

/// The places of the three columns.
pub open spec fn columns(header: Seq<Seq<char>>) -> Option<(int, int, int)> {
    match (
        column(header, "id"@),
        column(header, "xkcd_color"@),
        column(header, "retired"@),
    ) {
        (Some(a), Some(b), Some(c)) => Some((a, b, c)),
        _ => None,
    }
}

/// Whether `out` are the read rows as data.
pub open spec fn table_data(
    header: Seq<Seq<char>>,
    rows: Seq<Seq<Seq<char>>>,
    out: Seq<RowData>,
) -> bool {
    &&& out.len() == rows.len()
    &&& rows.len() > 0 ==> columns(header) is Some && forall|i: int|
        0 <= i < rows.len() ==> #[trigger] row_data(rows[i], columns(header)->0) == Some(out[i])
}

/// Whether `out` are the rows of a ledger file as data.
pub open spec fn file_data(text: Seq<char>, out: Seq<RowData>) -> bool {
    csv_rows_of(text) matches Some((header, rows)) && table_data(header, rows, out)
}

/// Whether a file was cut short: it holds something and does not end in a
/// line feed.
pub open spec fn cut_short(text: Seq<char>) -> bool {
    text.len() > 0 && text.last() != '\n'
}

/// Whether the header is that of a ledger file and the rows say `d`.
pub open spec fn written_as(
    header: Seq<Seq<char>>,
    rows: Seq<Seq<Seq<char>>>,
    d: Seq<RowData>,
) -> bool {
    &&& header == listed(column_names())
    &&& rows.len() == d.len()
    &&& forall|i: int|
        0 <= i < rows.len() ==> #[trigger] rows[i] == listed(
            (decimal(d[i].0 as nat), d[i].1, bool_word(d[i].2)),
        )
}

/// The places of the columns in the header of a ledger file.
proof fn lemma_columns()
    ensures
        columns(listed(column_names())) == Some((0int, 1int, 2int)),
{
    reveal_strlit("id");
    reveal_strlit("xkcd_color");
    reveal_strlit("retired");
    let h = listed(column_names());
    assert(h[0].len() == 2 && h[1].len() == 10 && h[2].len() == 7);
    assert(is_column(h, "id"@, 0));
    assert(is_column(h, "xkcd_color"@, 1));
    assert(is_column(h, "retired"@, 2));
}

fn find_column(header: &Vec<String>, name: &str) -> (at: Option<usize>)
    ensures
        column(texts(header@), name@) == (match at {
            Some(i) => Some(i as int),
            None => None,
        }),
{
    let ghost h = texts(header@);
    let mut found: Option<usize> = None;
    let mut i: usize = 0;
    while i < header.len()
        invariant
            i <= header@.len(),
            h == texts(header@),
            found is None ==> forall|j: int| 0 <= j < i ==> #[trigger] h[j] != name@,
            found matches Some(f) ==> f < i && h[f as int] == name@ && forall|j: int|
                0 <= j < i && #[trigger] h[j] == name@ ==> j == f,
        decreases header@.len() - i,
    {
        assert(h[i as int] == header@[i as int]@);
        if str_eq(header[i].as_str(), name) {
            if let Some(f) = found {
                assert(h[f as int] == name@ && h[i as int] == name@);
                assert forall|k: int| !#[trigger] is_column(h, name@, k) by {}
                return None;
            }
            found = Some(i);
        }
        i += 1;
    }
    proof {
        if let Some(f) = found {
            assert(is_column(h, name@, f as int));
            let k = choose|k: int| #[trigger] is_column(h, name@, k);
            assert(k == f);
        } else {
            assert forall|k: int| !#[trigger] is_column(h, name@, k) by {}
        }
    }
    found
}

/// Converts the rows read from a ledger file. The columns are found by name;
/// a file without rows needs none.
pub fn parse_rows(header: &Vec<String>, rows: &Vec<Vec<String>>) -> (r: Result<
    Vec<LedgerRow>,
    LedgerError,
>)
    ensures
        r matches Ok(out) ==> table_data(texts(header@), text_rows(rows@), data(out@)),
        r is Err <==> forall|out: Seq<RowData>|
            !#[trigger] table_data(texts(header@), text_rows(rows@), out),
        r matches Err(e) ==> e is Malformed,
        forall|d: Seq<RowData>| #[trigger]
            written_as(texts(header@), text_rows(rows@), d) ==> (r matches Ok(out) && data(out@)
                == d),
{
    let ghost h = texts(header@);
    let ghost rs = text_rows(rows@);
    proof {
        lemma_columns();
    }
    let mut out: Vec<LedgerRow> = Vec::new();
    if rows.len() == 0 {
        assert(table_data(h, rs, data(out@)));
        return Ok(out);
    }
    let (a, b, c) = match (
        find_column(header, "id"),
        find_column(header, "xkcd_color"),
        find_column(header, "retired"),
    ) {
        (Some(a), Some(b), Some(c)) => (a, b, c),
        _ => {
            return Err(LedgerError::Malformed);
        },
    };
    let mut i: usize = 0;
    while i < rows.len()
        invariant
            i <= rows@.len(),
            rs == text_rows(rows@),
            columns(h) == Some((a as int, b as int, c as int)),
            out@.len() == i,
            rows@.len() > 0,
            h == texts(header@),
            forall|k: int|
                0 <= k < i ==> #[trigger] row_data(rs[k], (a as int, b as int, c as int)) == Some(
                    data(out@)[k],
                ),
            columns(listed(column_names())) == Some((0int, 1int, 2int)),
            forall|d: Seq<RowData>, k: int|
                #[trigger] written_as(h, rs, d) && 0 <= k < i ==> #[trigger] data(out@)[k] == d[k],
        decreases rows@.len() - i,
    {
        let row: &Vec<String> = &rows[i];
        let ghost at = (a as int, b as int, c as int);
        proof {
            assert(rs[i as int] == texts(row@));
            assert forall|want: Seq<RowData>| row_data(rs[i as int], at) is None implies !#[trigger] table_data(h, rs, want) by {
                if table_data(h, rs, want) {
                    assert(row_data(rs[i as int], columns(h)->0) == Some(want[i as int]));
                }
            }
        }
        proof {
            assert forall|d: Seq<RowData>| #[trigger] written_as(h, rs, d) implies row@.len() == 3
                && at == (0int, 1int, 2int) && row@[0]@ == decimal(d[i as int].0 as nat)
                && row@[1]@ == d[i as int].1 && row@[2]@ == bool_word(d[i as int].2) by {
                let f = (decimal(d[i as int].0 as nat), d[i as int].1, bool_word(d[i as int].2));
                assert(rs[i as int] == listed(f));
                assert(texts(row@).len() == row@.len());
                assert(texts(row@)[0] == row@[0]@);
                assert(texts(row@)[1] == row@[1]@);
                assert(texts(row@)[2] == row@[2]@);
            }
        }
        if a >= row.len() || b >= row.len() || c >= row.len() {
            return Err(LedgerError::Malformed);
        }
        proof {
            assert(texts(row@)[a as int] == row@[a as int]@);
            assert(texts(row@)[b as int] == row@[b as int]@);
            assert(texts(row@)[c as int] == row@[c as int]@);
        }
        let (id, retired) = match convert_csv_fields(row[a].as_str(), row[c].as_str()) {
            Ok(v) => v,
            Err(_) => {
                return Err(LedgerError::Malformed);
            },
        };
        let xkcd_color: String = row[b].clone();
        let ghost before = out@;
        out.push(LedgerRow { id, xkcd_color, retired });
        proof {
            assert(data(out@)[i as int] == (id, row@[b as int]@, retired));
            assert(forall|k: int| 0 <= k < i ==> data(out@)[k] == data(before)[k]);
            assert forall|d: Seq<RowData>, k: int|
                #[trigger] written_as(h, rs, d) && 0 <= k < i + 1 implies #[trigger] data(out@)[k]
                == d[k] by {
                if k == i {
                    assert(bool_word(d[i as int].2) == row@[2]@);
                    assert((id, retired) == (d[i as int].0, d[i as int].2));
                } else {
                    assert(data(before)[k] == d[k]);
                }
            }
        }
        i += 1;
    }
    assert(table_data(h, rs, data(out@)));
    Ok(out)
}

proof fn lemma_csv_lines_push(rows: Seq<Fields>, f: Fields)
    ensures
        csv_lines(rows.push(f)) == csv_lines(rows) + csv_line(f),
{
    assert(rows.push(f).drop_last() =~= rows);
}

/// What `load` makes of a file's text.
pub open spec fn loaded(
    text: Seq<char>,
    bootstrap: bool,
    source: Seq<char>,
    r: Result<Ledger, LedgerError>,
) -> bool {
    if cut_short(text) {
        r matches Err(e) && e is Truncated
    } else if exists|d: Seq<RowData>| #[trigger] file_data(text, d) {
        exists|d: Seq<RowData>| #[trigger]
            file_data(text, d) && (if d.len() == 0 && !bootstrap {
                r matches Err(e) && e is NoRows
            } else {
                match r {
                    Ok(ledger) => {
                        &&& faultless(d)
                        &&& ledger.wf()
                        &&& ledger@ == loaded_rows(d)
                        &&& ledger.file() == Some(text)
                        &&& ledger.origin() == source
                    },
                    Err(e) => first_fault(d, e),
                }
            })
    } else {
        r matches Err(e) && e is Malformed
    }
}

/// The text of a file that may be missing.
pub open spec fn raw_text(raw: Option<String>) -> Option<Seq<char>> {
    match raw {
        Some(text) => Some(text@),
        None => None,
    }
}

/// What `load` makes of a file that may be missing.
pub open spec fn load_gives(
    raw: Option<Seq<char>>,
    bootstrap: bool,
    source: Seq<char>,
    r: Result<Ledger, LedgerError>,
) -> bool {
    match raw {
        Some(text) => loaded(text, bootstrap, source, r),
        None => match r {
            Ok(ledger) => {
                &&& bootstrap
                &&& ledger.wf()
                &&& ledger@ == Seq::<Row>::empty()
                &&& ledger.file() is None
                &&& ledger.origin() == source
            },
            Err(e) => !bootstrap && e is Missing,
        },
    }
}

/// What the ledger for `rows` is at the start of the next run: the same ids
/// and names, in ascending order of id, with this run's liveness on record.
pub open spec fn next_run(rows: Seq<Row>) -> Seq<Row> {
    listing(rows, Pick::All).map_values(
        |row: Row|
            Row { id: row.id, name: row.name, loaded: true, was_live: row.live, live: false },
    )
}

/// Whether `r` is the ledger that `text` was written from, if it was written
/// from a sound ledger with rows.
pub open spec fn restores(text: Seq<char>, r: Result<Ledger, LedgerError>) -> bool {
    forall|rows: Seq<Row>|
        sound(rows) && rows.len() > 0 && text == #[trigger] ledger_text(rows) ==> (
        r matches Ok(ledger) && ledger@ == next_run(rows))
}

impl Ledger {
    /// The ledger file: the prologue, then every row, live and retired, in
    /// ascending order of id.
    pub fn to_csv(&self) -> (s: String)
        ensures
            s@ == ledger_text(self@),
    {
        let mut s: String = LEDGER_HEADER.to_owned();
        if self.entries.len() == 0 {
            return s;
        }
        let head: String = write_csv_row("id", "xkcd_color", "retired");
        s.append(head.as_str());
        let at: Vec<usize> = self.sorted_positions(Pick::All);
        let ghost order = listing(self@, Pick::All);
        let ghost fields = file_rows(self@);
        let ghost top = seq![column_names()];
        proof {
            lemma_csv_lines_push(Seq::empty(), column_names());
            assert(Seq::<Fields>::empty().push(column_names()) =~= top);
            assert(csv_lines(Seq::<Fields>::empty()) =~= Seq::empty());
            assert(top + fields.take(0) =~= top);
            assert(s@ =~= LEDGER_HEADER@ + csv_lines(top + fields.take(0)));
        }
        let mut k: usize = 0;
        while k < at.len()
            invariant
                k <= at@.len(),
                positions(self@, at@, order),
                fields == order.map_values(|row: Row| file_fields(row)),
                s@ == LEDGER_HEADER@ + csv_lines(top + fields.take(k as int)),
            decreases at@.len() - k,
        {
            assert(self@[at@[k as int] as int] == order[k as int]);
            let e: &Entry = &self.entries[at[k]];
            let id: String = decimal_string(e.id as u64);
            let flag: &str = if e.live {
                "false"
            } else {
                "true"
            };
            let line: String = write_csv_row(id.as_str(), e.name.as_str(), flag);
            let ghost before = s@;
            s.append(line.as_str());
            proof {
                assert(fields[k as int] == file_fields(order[k as int]));
                assert(line@ == csv_line(fields[k as int]));
                lemma_csv_lines_push(top + fields.take(k as int), fields[k as int]);
                assert((top + fields.take(k as int)).push(fields[k as int]) =~= top + fields.take(
                    k + 1,
                ));
                assert(s@ =~= LEDGER_HEADER@ + csv_lines(top + fields.take(k + 1)));
            }
            k += 1;
        }
        assert(fields.take(k as int) =~= fields);
        s
    }

    /// What is to be written over the ledger file.
    pub fn stage(&self) -> (s: String)
        ensures
            s@ == ledger_text(self@),
    {
        self.to_csv()
    }

    /// Takes in the ledger file, whose text is `raw` or which is missing.
    /// A missing file and one without rows are refused unless `bootstrap` is
    /// set; a file that was cut short always is.
    pub fn load(raw: Option<String>, bootstrap: bool, source: &str) -> (r: Result<
        Ledger,
        LedgerError,
    >)
        ensures
            load_gives(raw_text(raw), bootstrap, source@, r),
            raw matches Some(text) ==> restores(text@, r),
    {
        let text: String = match raw {
            None => {
                if !bootstrap {
                    return Err(LedgerError::Missing);
                }
                let none: Vec<LedgerRow> = Vec::new();
                assert(loaded_rows(data(none@)) =~= Seq::<Row>::empty());
                return Ledger::from_rows(none, source);
            },
            Some(text) => text,
        };
        let chars: Vec<char> = chars_of(text.as_str());
        if chars.len() > 0 && chars[chars.len() - 1] != '\n' {
            proof {
                lemma_not_cut_short(text@);
            }
            return Err(LedgerError::Truncated);
        }
        let read: Result<(Vec<String>, Vec<Vec<String>>), csv::Error> = read_csv_rows(
            text.as_str(),
        );
        proof {
            lemma_written_as(text@, read);
        }
        let (header, body) = match read {
            Ok(table) => table,
            Err(_) => {
                return Err(LedgerError::Malformed);
            },
        };
        let rows: Vec<LedgerRow> = match parse_rows(&header, &body) {
            Ok(rows) => rows,
            Err(e) => {
                return Err(e);
            },
        };
        let ghost d = data(rows@);
        assert(file_data(text@, d));
        if rows.len() == 0 && !bootstrap {
            return Err(LedgerError::NoRows);
        }
        match Ledger::from_rows(rows, source) {
            Err(e) => Err(e),
            Ok(ledger) => {
                let mut ledger: Ledger = ledger;
                let ghost before = ledger@;
                ledger.loaded_source = Some(text);
                assert(ledger@ == before);
                Ok(ledger)
            },
        }
    }
}

/// The rows as the next run reads them.
pub open spec fn next_data(rows: Seq<Row>) -> Seq<RowData> {
    listing(rows, Pick::All).map_values(|row: Row| (row.id, row.name, !row.live))
}

/// A ledger file with rows ends in a line feed.
proof fn lemma_not_cut_short(text: Seq<char>)
    ensures
        forall|rows: Seq<Row>|
            rows.len() > 0 && text == #[trigger] ledger_text(rows) ==> !cut_short(text),
{
    assert forall|rows: Seq<Row>|
        rows.len() > 0 && text == #[trigger] ledger_text(rows) implies !cut_short(text) by {
        let all = seq![column_names()] + file_rows(rows);
        let lines = csv_lines(all);
        assert(all.len() > 0);
        assert(csv_line(all.last()).last() == '\n');
        assert(lines.last() == '\n');
        assert(text.last() == lines.last());
    }
}

proof fn lemma_decimal_starts(n: nat)
    ensures
        decimal(n).len() > 0,
        '0' <= decimal(n)[0] <= '9',
    decreases n,
{
    if n >= 10 {
        lemma_decimal_starts(n / 10);
    }
}

/// The listing of all rows is sound if they are.
pub proof fn lemma_listing_sound(rows: Seq<Row>)
    requires
        sound(rows),
    ensures
        sound(listing(rows, Pick::All)),
        listing(rows, Pick::All).len() == rows.len(),
        listing(rows, Pick::All).to_multiset() == rows.to_multiset(),
{
    let key = |row: Row| row.id as int;
    lemma_filter_all(|row: Row| Pick::All.picks(row), rows);
    law_sort_by(key, rows);
    let out = listing(rows, Pick::All);
    lemma_sort_keeps(|row: Row| row.id != 0, key, rows);
    let differ = |a: Row, b: Row| a.id != b.id && a.name != b.name;
    assert forall|i: int, j: int| 0 <= i < j < rows.len() implies differ(
        #[trigger] rows[i],
        #[trigger] rows[j],
    ) by {
        assert(rows[i].id != rows[j].id && rows[i].name != rows[j].name);
    }
    lemma_sort_distinct(differ, key, rows);
    assert forall|i: int, j: int| 0 <= i < j < out.len() implies (#[trigger] out[i]).id != (
    #[trigger] out[j]).id && out[i].name != out[j].name by {
        assert(differ(out[i], out[j]));
    }
}

/// Sound rows are read without fault.
proof fn lemma_next_data(rows: Seq<Row>)
    requires
        sound(rows),
    ensures
        faultless(next_data(rows)),
        loaded_rows(next_data(rows)) == next_run(rows),
{
    lemma_listing_sound(rows);
    let order = listing(rows, Pick::All);
    let d = next_data(rows);
    assert forall|j: int| 0 <= j < d.len() implies !#[trigger] row_fault(d, j) by {
        assert(order[j].id != 0);
        assert forall|i: int| 0 <= i < j implies (#[trigger] d[i]).0 != d[j].0 && d[i].1 != d[j].1 by {
            assert(order[i].id != order[j].id);
            assert(order[i].name != order[j].name);
        }
    }
    assert(loaded_rows(d) =~= next_run(rows));
}

/// What was written from a sound ledger is read as its rows.
proof fn lemma_written_as(
    text: Seq<char>,
    read: Result<(Vec<String>, Vec<Vec<String>>), csv::Error>,
)
    requires
        reads_back(text, read),
    ensures
        forall|rows: Seq<Row>|
            rows.len() > 0 && sound(rows) && text == #[trigger] ledger_text(rows) ==> {
                &&& read matches Ok((header, body)) && written_as(
                    texts(header@),
                    text_rows(body@),
                    next_data(rows),
                )
                &&& faultless(next_data(rows))
                &&& next_data(rows).len() > 0
                &&& loaded_rows(next_data(rows)) == next_run(rows)
                &&& !cut_short(text)
            },
{
    lemma_not_cut_short(text);
    assert forall|rows: Seq<Row>|
        rows.len() > 0 && sound(rows) && text == #[trigger] ledger_text(rows) implies {
        &&& read matches Ok((header, body)) && written_as(
            texts(header@),
            text_rows(body@),
            next_data(rows),
        )
        &&& faultless(next_data(rows))
        &&& next_data(rows).len() > 0
        &&& loaded_rows(next_data(rows)) == next_run(rows)
        &&& !cut_short(text)
    } by {
        lemma_next_data(rows);
        lemma_listing_sound(rows);
        let first = column_names();
        let fields = file_rows(rows);
        reveal_strlit("id");
        assert(starts_plainly(first));
        assert forall|i: int| 0 <= i < fields.len() implies starts_plainly(#[trigger] fields[i]) by {
            lemma_decimal_starts(listing(rows, Pick::All)[i].id as nat);
        }
        assert(text == LEDGER_HEADER@ + csv_lines(seq![first] + fields));
        if let Ok((header, body)) = read {
            let d = next_data(rows);
            let rs = text_rows(body@);
            assert(rs == fields.map_values(|f: Fields| listed(f)));
            assert forall|i: int| 0 <= i < rs.len() implies #[trigger] rs[i] == listed(
                (decimal(d[i].0 as nat), d[i].1, bool_word(d[i].2)),
            ) by {
                assert(fields[i] == file_fields(listing(rows, Pick::All)[i]));
            }
        }
    }
}

fn same_text(one: &Option<String>, other: Option<&str>) -> (same: bool)
    ensures
        same == (match (*one, other) {
            (Some(a), Some(b)) => a@ == b@,
            (None, None) => true,
            _ => false,
        }),
{
    match one {
        Some(a) => match other {
            Some(b) => str_eq(a.as_str(), b),
            None => false,
        },
        None => match other {
            Some(_) => false,
            None => true,
        },
    }
}

impl Ledger {
    /// Refuses to go on unless the ledger on disk is still the one that was
    /// read, character for character, or is still missing.
    pub fn assert_unchanged_on_disk(&self, on_disk: Option<&str>) -> (r: Result<(), Refusal>)
        ensures
            r is Ok <==> self.file() == (match on_disk {
                Some(text) => Some(text@),
                None => None,
            }),
            r matches Err(e) ==> e == Refusal::LedgerChanged,
    {
        if same_text(&self.loaded_source, on_disk) {
            Ok(())
        } else {
            Err(Refusal::LedgerChanged)
        }
    }
}

/// Refuses to go on unless the upstream table on disk is still the one that
/// was read.
pub fn assert_input_unchanged(on_disk: Option<&str>, snapshot: &str) -> (r: Result<(), Refusal>)
    ensures
        r is Ok <==> (on_disk matches Some(text) && text@ == snapshot@),
        r matches Err(e) ==> e == Refusal::InputChanged,
{
    match on_disk {
        Some(text) => if str_eq(text, snapshot) {
            Ok(())
        } else {
            Err(Refusal::InputChanged)
        },
        None => Err(Refusal::InputChanged),
    }
}

} // verus!
