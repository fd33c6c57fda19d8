//! What holds of a run as a whole, and of running it again.

use vstd::prelude::*;

verus! {

use crate::codegen::ledger::{
    Pick, Row, file_fields, file_rows, has_name, id_of, ledger_text, lemma_listing_sound,
    lemma_name_at, listing, next_run, sound,
};
use crate::codegen::ledger_laws::{
    can_see_all, law_the_next_run_knows_all_ids, lemma_seen_sound, seen_all,
};
use crate::codegen::options::CodegenOptions;
use crate::codegen::plan::gate;
use crate::sorting::{
    law_sort_by, lemma_filter_all, lemma_rising_unique, lemma_sort_ascending, rising,
};

/// Whether no name has been seen in this run yet.
pub open spec fn fresh(rows: Seq<Row>) -> bool {
    forall|i: int| 0 <= i < rows.len() ==> !(#[trigger] rows[i]).live
}

/// The live rows of a run are those whose names were seen.
pub proof fn law_live_is_seen(start: Seq<Row>, names: Seq<Seq<char>>)
    requires
        sound(start),
        fresh(start),
        can_see_all(start, names),
    ensures
        sound(seen_all(start, names)),
        forall|i: int|
            0 <= i < seen_all(start, names).len() ==> (#[trigger] seen_all(start, names)[i]).live
                == names.contains(seen_all(start, names)[i].name),
        forall|k: int| 0 <= k < names.len() ==> has_name(seen_all(start, names), #[trigger] names[k]),
    decreases names.len(),
{
    if names.len() > 0 {
        let before_names = names.drop_last();
        let name = names.last();
        let before = seen_all(start, before_names);
        let end = seen_all(start, names);
        law_live_is_seen(start, before_names);
        lemma_seen_sound(before, name);
        assert forall|x: Seq<char>| names.contains(x) <==> before_names.contains(x) || x == name by {
            lemma_last_contains(names, x);
        }
        assert forall|i: int| 0 <= i < end.len() implies (#[trigger] end[i]).live == names.contains(
            end[i].name,
        ) by {
            if i < before.len() {
                assert(end[i].name == before[i].name);
                assert(before[i].live == before_names.contains(before[i].name));
                if before[i].name == name {
                    lemma_name_at(before, i);
                    let k = choose|k: int|
                        0 <= k < before.len() && (#[trigger] before[k]).name == name;
                    assert(k == i);
                }
            }
        }
        assert forall|k: int| 0 <= k < names.len() implies has_name(end, #[trigger] names[k]) by {
            if k < before_names.len() {
                assert(has_name(before, before_names[k]));
                let i = choose|i: int|
                    0 <= i < before.len() && (#[trigger] before[i]).name == names[k];
                assert(end[i].name == names[k]);
            }
        }
    }
}

proof fn lemma_last_contains(names: Seq<Seq<char>>, x: Seq<char>)
    requires
        names.len() > 0,
    ensures
        names.contains(x) <==> names.drop_last().contains(x) || x == names.last(),
{
    let rest = names.drop_last();
    if names.contains(x) {
        let k = choose|k: int| 0 <= k < names.len() && names[k] == x;
        if k < rest.len() {
            assert(rest[k] == x);
        }
    }
    if rest.contains(x) {
        let k = choose|k: int| 0 <= k < rest.len() && rest[k] == x;
        assert(names[k] == x);
    }
    if x == names.last() {
        assert(names[names.len() - 1] == x);
    }
}

/// A run over names that are all known changes nothing but liveness.
proof fn lemma_known_run(start: Seq<Row>, names: Seq<Seq<char>>)
    requires
        sound(start),
        forall|k: int| 0 <= k < names.len() ==> has_name(start, #[trigger] names[k]),
    ensures
        can_see_all(start, names),
        seen_all(start, names).len() == start.len(),
        forall|i: int|
            0 <= i < start.len() ==> {
                &&& (#[trigger] seen_all(start, names)[i]).id == start[i].id
                &&& seen_all(start, names)[i].name == start[i].name
                &&& seen_all(start, names)[i].loaded == start[i].loaded
                &&& seen_all(start, names)[i].was_live == start[i].was_live
            },
    decreases names.len(),
{
    if names.len() > 0 {
        let rest = names.drop_last();
        assert forall|k: int| 0 <= k < rest.len() implies has_name(start, #[trigger] rest[k]) by {
            assert(has_name(start, names[k]));
        }
        lemma_known_run(start, rest);
        let before = seen_all(start, rest);
        assert(has_name(start, names[names.len() - 1]));
        let i = choose|i: int|
            0 <= i < start.len() && (#[trigger] start[i]).name == names.last();
        assert(before[i].name == names.last());
        assert(has_name(before, names.last()));
    }
}

/// A listing is as long as there are rows that it picks.
pub proof fn lemma_nothing_listed(rows: Seq<Row>, pick: Pick)
    ensures
        listing(rows, pick).len() == 0 <==> forall|i: int|
            0 <= i < rows.len() ==> !pick.picks(#[trigger] rows[i]),
{
    let f = |row: Row| pick.picks(row);
    law_sort_by(|row: Row| row.id as int, rows.filter(f));
    lemma_filter_none(f, rows);
    if forall|i: int| 0 <= i < rows.len() ==> !pick.picks(#[trigger] rows[i]) {
        assert forall|i: int| 0 <= i < rows.len() implies !f(#[trigger] rows[i]) by {}
    }
    if listing(rows, pick).len() == 0 {
        assert forall|i: int| 0 <= i < rows.len() implies !pick.picks(#[trigger] rows[i]) by {
            assert(!f(rows[i]));
        }
    }
}

proof fn lemma_filter_none(f: spec_fn(Row) -> bool, rows: Seq<Row>)
    ensures
        rows.filter(f).len() == 0 <==> forall|i: int| 0 <= i < rows.len() ==> !f(#[trigger] rows[i]),
    decreases rows.len(),
{
    reveal(Seq::filter);
    if rows.len() > 0 {
        let rest = rows.drop_last();
        lemma_filter_none(f, rest);
        if rows.filter(f).len() == 0 {
            assert forall|i: int| 0 <= i < rows.len() implies !f(#[trigger] rows[i]) by {
                if i < rest.len() {
                    assert(rest[i] == rows[i]);
                }
            }
        }
        if forall|i: int| 0 <= i < rows.len() ==> !f(#[trigger] rows[i]) {
            assert forall|i: int| 0 <= i < rest.len() implies !f(#[trigger] rest[i]) by {
                assert(rest[i] == rows[i]);
            }
            assert(!f(rows[rows.len() - 1]));
        }
    }
}

/// Sound rows are listed in rising order of id.
proof fn lemma_listing_rising(rows: Seq<Row>)
    requires
        sound(rows),
    ensures
        rising(|row: Row| row.id as int, listing(rows, Pick::All)),
{
    let key = |row: Row| row.id as int;
    let out = listing(rows, Pick::All);
    lemma_listing_sound(rows);
    law_sort_by(key, rows.filter(|row: Row| Pick::All.picks(row)));
    assert forall|i: int, j: int| 0 <= i < j < out.len() implies key(#[trigger] out[i]) < key(
        #[trigger] out[j],
    ) by {
        assert(out[i].id != out[j].id);
        assert(key(out[i]) <= key(out[j]));
    }
}

/// Ledgers with the same rows give the same file, in whatever order the rows
/// came in.
pub proof fn law_file_ignores_row_order(one: Seq<Row>, other: Seq<Row>)
    requires
        sound(one),
        sound(other),
        one.to_multiset() == other.to_multiset(),
    ensures
        ledger_text(one) == ledger_text(other),
{
    broadcast use vstd::seq_lib::group_to_multiset_ensures;

    let key = |row: Row| row.id as int;
    let (a, b) = (listing(one, Pick::All), listing(other, Pick::All));
    lemma_listing_sound(one);
    lemma_listing_sound(other);
    lemma_listing_rising(one);
    lemma_listing_rising(other);
    assert forall|x: Row| a.contains(x) == #[trigger] b.contains(x) by {
        assert(a.contains(x) <==> a.to_multiset().count(x) > 0);
        assert(b.contains(x) <==> b.to_multiset().count(x) > 0);
    }
    lemma_rising_unique(key, a, b);
    assert(one.to_multiset().len() == one.len());
    assert(other.to_multiset().len() == other.len());
}

/// Running again over the same names, from the file that the run wrote, gives
/// every name the id it had, mints, retires and revives nothing, and writes
/// the same file.
pub proof fn law_running_again_changes_nothing(start: Seq<Row>, names: Seq<Seq<char>>)
    requires
        sound(start),
        fresh(start),
        can_see_all(start, names),
    ensures
        ({
            let end = seen_all(start, names);
            let again = seen_all(next_run(end), names);
            &&& can_see_all(next_run(end), names)
            &&& forall|name: Seq<char>| #[trigger] id_of(again, name) == id_of(end, name)
            &&& listing(again, Pick::Minted).len() == 0
            &&& listing(again, Pick::NewlyRetired).len() == 0
            &&& listing(again, Pick::Reactivated).len() == 0
            &&& ledger_text(again) == ledger_text(end)
        }),
{
    let end = seen_all(start, names);
    law_live_is_seen(start, names);
    let order = listing(end, Pick::All);
    lemma_listing_sound(end);
    let next = next_run(end);
    law_the_next_run_knows_all_ids(end, Seq::empty());
    assert forall|k: int| 0 <= k < names.len() implies has_name(next, #[trigger] names[k]) by {
        law_the_next_run_knows_all_ids(end, names[k]);
        assert(has_name(end, names[k]));
    }
    lemma_known_run(next, names);
    law_live_is_seen(next, names);
    let again = seen_all(next, names);
    assert forall|i: int| 0 <= i < again.len() implies {
        &&& (#[trigger] again[i]).id == order[i].id
        &&& again[i].name == order[i].name
        &&& again[i].live == order[i].live
        &&& again[i].loaded
        &&& again[i].was_live == order[i].live
    } by {
        broadcast use vstd::seq_lib::group_to_multiset_ensures;

        assert(again[i].id == next[i].id);
        assert(order.contains(order[i]));
        assert(order.to_multiset().count(order[i]) > 0);
        assert(end.contains(order[i]));
        let k = choose|k: int| 0 <= k < end.len() && end[k] == order[i];
        assert(end[k].live == names.contains(end[k].name));
    }
    lemma_nothing_listed(again, Pick::Minted);
    lemma_nothing_listed(again, Pick::NewlyRetired);
    lemma_nothing_listed(again, Pick::Reactivated);
    assert forall|name: Seq<char>| #[trigger] id_of(again, name) == id_of(end, name) by {
        law_the_next_run_knows_all_ids(end, name);
        lemma_same_id(next, again, name);
    }
    lemma_listing_rising(end);
    let key = |row: Row| row.id as int;
    assert forall|i: int, j: int| 0 <= i <= j < again.len() implies key(#[trigger] again[i])
        <= key(#[trigger] again[j]) by {
        if i < j {
            assert(key(order[i]) < key(order[j]));
        }
    }
    lemma_filter_all(|row: Row| Pick::All.picks(row), again);
    lemma_sort_ascending(key, again);
    assert(file_rows(again) =~= file_rows(end)) by {
        assert forall|i: int| 0 <= i < again.len() implies file_fields(#[trigger] again[i])
            == file_fields(order[i]) by {}
    }
}

/// Rows that agree on names and ids give a name the same id.
proof fn lemma_same_id(one: Seq<Row>, other: Seq<Row>, name: Seq<char>)
    requires
        sound(one),
        sound(other),
        one.len() == other.len(),
        forall|i: int|
            0 <= i < one.len() ==> (#[trigger] other[i]).id == one[i].id && other[i].name
                == one[i].name,
    ensures
        id_of(one, name) == id_of(other, name),
{
    if has_name(one, name) {
        let k = choose|k: int| 0 <= k < one.len() && (#[trigger] one[k]).name == name;
        assert(other[k].name == name);
        lemma_name_at(one, k);
        lemma_name_at(other, k);
    } else if has_name(other, name) {
        let k = choose|k: int| 0 <= k < other.len() && (#[trigger] other[k]).name == name;
        assert(one[k].name == name);
    }
}

/// Without the operator's word, a run that passes the gates hands no retired
/// id back, and does not both retire a name and mint an id.
pub proof fn law_an_unattended_run_is_safe(end: Seq<Row>)
    requires
        gate(
            end,
            (CodegenOptions {
                bootstrap_ledger: false,
                allow_retire_and_mint: false,
                allow_revival: false,
            }),
        ) is None,
    ensures
        forall|i: int|
            0 <= i < end.len() && (#[trigger] end[i]).live ==> end[i].was_live || !end[i].loaded,
        forall|i: int, j: int|
            0 <= i < end.len() && 0 <= j < end.len() ==> !((#[trigger] end[i]).was_live
                && !end[i].live && !(#[trigger] end[j]).loaded),
{
    lemma_nothing_listed(end, Pick::Reactivated);
    lemma_nothing_listed(end, Pick::NewlyRetired);
    lemma_nothing_listed(end, Pick::Minted);
    assert forall|i: int| 0 <= i < end.len() && (#[trigger] end[i]).live implies end[i].was_live
        || !end[i].loaded by {
        assert(!Pick::Reactivated.picks(end[i]));
    }
    assert forall|i: int, j: int| 0 <= i < end.len() && 0 <= j < end.len() implies !((
    #[trigger] end[i]).was_live && !end[i].live && !(#[trigger] end[j]).loaded) by {
        if Pick::NewlyRetired.picks(end[i]) && Pick::Minted.picks(end[j]) {
            assert(listing(end, Pick::NewlyRetired).len() > 0);
            assert(listing(end, Pick::Minted).len() > 0);
        }
    }
}

} // verus!
