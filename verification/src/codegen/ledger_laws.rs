//! What holds of permanent ids, within a run and from run to run.

use vstd::prelude::*;

verus! {

use crate::codegen::ledger::{
    Pick, Row, flags_fit, has_name, highest, id_of, lemma_highest, lemma_highest_is,
    lemma_listing_sound, lemma_name_at, lemma_same_ids, listing, next_run, seen, sound,
};

/// Whether `name` can be given an id: it has one, or there is one left.
pub open spec fn can_see(rows: Seq<Row>, name: Seq<char>) -> bool {
    has_name(rows, name) || highest(rows) < u16::MAX
}

/// The rows after the names of a run were seen in turn.
pub open spec fn seen_all(rows: Seq<Row>, names: Seq<Seq<char>>) -> Seq<Row>
    decreases names.len(),
{
    if names.len() == 0 {
        rows
    } else {
        seen(seen_all(rows, names.drop_last()), names.last())
    }
}

/// Whether every name of a run can be given an id.
pub open spec fn can_see_all(rows: Seq<Row>, names: Seq<Seq<char>>) -> bool
    decreases names.len(),
{
    names.len() == 0 || (can_see_all(rows, names.drop_last()) && can_see(
        seen_all(rows, names.drop_last()),
        names.last(),
    ))
}

/// Seeing a name keeps rows sound and every id that was assigned.
pub proof fn law_ids_never_change(rows: Seq<Row>, name: Seq<char>, other: Seq<char>)
    requires
        sound(rows),
        can_see(rows, name),
        has_name(rows, other),
    ensures
        sound(seen(rows, name)),
        has_name(seen(rows, name), other),
        id_of(seen(rows, name), other) == id_of(rows, other),
        highest(seen(rows, name)) >= highest(rows),
{
    lemma_seen_sound(rows, name);
    let next = seen(rows, name);
    let k = choose|k: int| 0 <= k < rows.len() && (#[trigger] rows[k]).name == other;
    assert(next[k].name == other && next[k].id == rows[k].id);
    lemma_name_at(rows, k);
    lemma_name_at(next, k);
}

/// Seeing a name keeps rows sound.
pub proof fn lemma_seen_sound(rows: Seq<Row>, name: Seq<char>)
    requires
        sound(rows),
        can_see(rows, name),
    ensures
        sound(seen(rows, name)),
        has_name(seen(rows, name), name),
        highest(seen(rows, name)) >= highest(rows),
{
    lemma_highest(rows);
    let next = seen(rows, name);
    if has_name(rows, name) {
        let i = choose|i: int| 0 <= i < rows.len() && (#[trigger] rows[i]).name == name;
        lemma_same_ids(rows, next);
        assert(next[i].name == name);
    } else {
        assert(next.drop_last() =~= rows);
        assert(next[rows.len() as int].name == name);
        assert(sound(next));
    }
}

/// A name seen for the first time gets an id above every id ever assigned,
/// those of retired names among them; so no id is handed out twice.
pub proof fn law_new_ids_are_fresh(rows: Seq<Row>, name: Seq<char>)
    requires
        sound(rows),
        !has_name(rows, name),
        highest(rows) < u16::MAX,
    ensures
        id_of(seen(rows, name), name) == Some((highest(rows) + 1) as u16),
        highest(seen(rows, name)) == highest(rows) + 1,
        forall|i: int| 0 <= i < rows.len() ==> (#[trigger] rows[i]).id < highest(rows) + 1,
{
    lemma_seen_sound(rows, name);
    lemma_highest(rows);
    let next = seen(rows, name);
    lemma_name_at(next, rows.len() as int);
    assert(next.drop_last() =~= rows);
}

/// Over a whole run, ids that were assigned stay as they were.
pub proof fn law_a_run_keeps_ids(rows: Seq<Row>, names: Seq<Seq<char>>, other: Seq<char>)
    requires
        sound(rows),
        can_see_all(rows, names),
        has_name(rows, other),
    ensures
        sound(seen_all(rows, names)),
        has_name(seen_all(rows, names), other),
        id_of(seen_all(rows, names), other) == id_of(rows, other),
        highest(seen_all(rows, names)) >= highest(rows),
    decreases names.len(),
{
    if names.len() > 0 {
        law_a_run_keeps_ids(rows, names.drop_last(), other);
        law_ids_never_change(seen_all(rows, names.drop_last()), names.last(), other);
    }
}

/// The order in which known names are seen does not matter: each has the id
/// that the ledger gives it.
pub proof fn law_order_does_not_renumber(
    rows: Seq<Row>,
    one: Seq<Seq<char>>,
    other: Seq<Seq<char>>,
    name: Seq<char>,
)
    requires
        sound(rows),
        can_see_all(rows, one),
        can_see_all(rows, other),
        has_name(rows, name),
    ensures
        id_of(seen_all(rows, one), name) == id_of(seen_all(rows, other), name),
{
    law_a_run_keeps_ids(rows, one, name);
    law_a_run_keeps_ids(rows, other, name);
}

/// From one run to the next, through the file, every name keeps its id and
/// the highest id stays, so that retired ids are not handed out again.
pub proof fn law_the_next_run_knows_all_ids(rows: Seq<Row>, name: Seq<char>)
    requires
        sound(rows),
    ensures
        sound(next_run(rows)),
        highest(next_run(rows)) == highest(rows),
        id_of(next_run(rows), name) == id_of(rows, name),
{
    lemma_listing_sound(rows);
    let order = listing(rows, Pick::All);
    let next = next_run(rows);
    lemma_same_ids(order, next);
    lemma_same_members(rows, order);
    lemma_members_highest(rows, order);
    if has_name(rows, name) {
        let k = choose|k: int| 0 <= k < rows.len() && (#[trigger] rows[k]).name == name;
        assert(order.contains(rows[k]));
        let m = choose|m: int| 0 <= m < order.len() && order[m] == rows[k];
        assert(next[m].name == name && next[m].id == rows[k].id);
        lemma_name_at(rows, k);
        lemma_name_at(next, m);
    } else if has_name(next, name) {
        let m = choose|m: int| 0 <= m < next.len() && (#[trigger] next[m]).name == name;
        assert(order.contains(order[m]));
        assert(rows.contains(order[m]));
        let k = choose|k: int| 0 <= k < rows.len() && rows[k] == order[m];
        assert(rows[k].name == name);
    }
}

/// Rows with the same members have the same highest id.
proof fn lemma_members_highest(one: Seq<Row>, other: Seq<Row>)
    requires
        forall|x: Row| one.contains(x) == #[trigger] other.contains(x),
    ensures
        highest(one) == highest(other),
{
    lemma_highest(one);
    lemma_highest(other);
    let top = highest(one);
    assert forall|i: int| 0 <= i < other.len() implies (#[trigger] other[i]).id <= top by {
        assert(other.contains(other[i]));
        assert(one.contains(other[i]));
        let j = choose|j: int| 0 <= j < one.len() && one[j] == other[i];
        assert(one[j].id <= top);
    }
    if one.len() > 0 {
        let k = choose|k: int| 0 <= k < one.len() && (#[trigger] one[k]).id == top;
        assert(one.contains(one[k]));
        assert(other.contains(one[k]));
        let m = choose|m: int| 0 <= m < other.len() && other[m] == one[k];
        assert(other[m].id == top);
    }
    lemma_highest_is(other, top);
}

/// Rows with the same count of each member have the same members.
proof fn lemma_same_members(one: Seq<Row>, other: Seq<Row>)
    requires
        one.to_multiset() == other.to_multiset(),
    ensures
        forall|x: Row| one.contains(x) == #[trigger] other.contains(x),
{
    broadcast use vstd::seq_lib::group_to_multiset_ensures;

    assert forall|x: Row| one.contains(x) == #[trigger] other.contains(x) by {
        assert(one.contains(x) <==> one.to_multiset().count(x) > 0);
        assert(other.contains(x) <==> other.to_multiset().count(x) > 0);
    }
}

/// A live name holds the id it held in the last run, or is among the revived,
/// or among the minted: the gates on revivals and on mints see every name
/// that comes by an id it did not hold.
pub proof fn law_gates_see_every_new_holder(rows: Seq<Row>, i: int)
    requires
        flags_fit(rows),
        0 <= i < rows.len(),
        rows[i].live,
    ensures
        rows[i].was_live || Pick::Reactivated.picks(rows[i]) || Pick::Minted.picks(rows[i]),
{
}

} // verus!
