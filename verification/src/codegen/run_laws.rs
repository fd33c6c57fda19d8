//! What a run plans, and what it refuses.

use vstd::prelude::*;

verus! {

use crate::codegen::enums::{MAX_VARIANTS, as_str_doc, enum_doc};
use crate::codegen::hierarchy::{Column, HierarchyRow, row_names};
use crate::codegen::ident_laws::cleaned;
use crate::codegen::idents::{const_ident, shouty_snake, slashed};
use crate::codegen::ledger::{
    Ledger, LedgerError, Pick, Refusal, Row, id_of, listing, load_gives, raw_text,
};
use crate::codegen::ledger_file::texts;
use crate::codegen::ledger_laws::seen_all;
use crate::codegen::options::CodegenOptions;
use crate::codegen::plan::{
    CodegenError, Plan, RowFault, clear_until, codegen, fills, gate, generated, names_fit,
    plan_tables, planned, row_fault, row_filled, row_idents,
};
use crate::codegen::plan_laws::lemma_nothing_listed;
use crate::codegen::record_laws::law_loading_is_repeatable;
use crate::codegen::variants::{
    Variant, VariantError, all_fit, collect_enum_variants, column_values, fault_at,
    law_row_order_does_not_matter, pairs, reports_fault, value_idents, variants_of,
};
use crate::text::trimmed;

/// Whether a row was retired in this run: live in the last, not in this one.
pub open spec fn retired_now(row: Row) -> bool {
    row.was_live && !row.live
}

/// Whether a row was minted in this run: the file did not have it.
pub open spec fn minted_now(row: Row) -> bool {
    !row.loaded
}

/// Whether a retired id was handed back in this run: the file had the row, as
/// retired, and its name is live.
pub open spec fn revived_now(row: Row) -> bool {
    row.loaded && !row.was_live && row.live
}

/// Whether some row is as `p` says.
pub open spec fn some_row(rows: Seq<Row>, p: spec_fn(Row) -> bool) -> bool {
    exists|i: int| 0 <= i < rows.len() && p(#[trigger] rows[i])
}

proof fn lemma_gate(end: Seq<Row>, options: CodegenOptions)
    ensures
        gate(end, options) is None <==> {
            &&& options.allow_revival || !some_row(end, |row: Row| revived_now(row))
            &&& options.allow_retire_and_mint || !some_row(end, |row: Row| retired_now(row))
                || !some_row(end, |row: Row| minted_now(row))
        },
        gate(end, options) == Some(Refusal::RetireAndMint) ==> {
            &&& !options.allow_retire_and_mint
            &&& some_row(end, |row: Row| retired_now(row))
            &&& some_row(end, |row: Row| minted_now(row))
        },
        gate(end, options) == Some(Refusal::Revival) ==> {
            &&& !options.allow_revival
            &&& some_row(end, |row: Row| revived_now(row))
            &&& options.allow_retire_and_mint || !some_row(end, |row: Row| retired_now(row))
                || !some_row(end, |row: Row| minted_now(row))
        },
        gate(end, options) matches Some(refusal) ==> refusal is RetireAndMint || refusal is Revival,
{
    lemma_some_listed(end, Pick::Reactivated, |row: Row| revived_now(row));
    lemma_some_listed(end, Pick::NewlyRetired, |row: Row| retired_now(row));
    lemma_some_listed(end, Pick::Minted, |row: Row| minted_now(row));
}

proof fn lemma_some_listed(rows: Seq<Row>, pick: Pick, p: spec_fn(Row) -> bool)
    requires
        forall|row: Row| #[trigger] pick.picks(row) == p(row),
    ensures
        listing(rows, pick).len() > 0 <==> some_row(rows, p),
{
    lemma_nothing_listed(rows, pick);
    if some_row(rows, p) {
        let i = choose|i: int| 0 <= i < rows.len() && p(#[trigger] rows[i]);
        assert(pick.picks(rows[i]));
    }
    if listing(rows, pick).len() > 0 {
        let i = choose|i: int| 0 <= i < rows.len() && pick.picks(#[trigger] rows[i]);
        assert(p(rows[i]));
    }
}

/// Each gate is lifted by its own flag and by nothing else: a run that hands
/// a retired id back is planned only with `allow_revival`, and one that both
/// retires and mints only with `allow_retire_and_mint`; a run that is refused
/// did what its refusal says, without the flag for it.
pub proof fn law_each_gate_has_its_own_flag(
    rows: Vec<HierarchyRow>,
    idents: Vec<String>,
    families: Vec<Variant>,
    kinds: Vec<Variant>,
    ledger: Ledger,
    options: CodegenOptions,
    r: Result<Plan, CodegenError>,
)
    requires
        call_ensures(plan_tables, (&rows, idents, &families, &kinds, ledger, options), r),
    ensures
        ({
            let end = seen_all(ledger@, row_names(rows@));
            let revived = some_row(end, |row: Row| revived_now(row));
            let retired = some_row(end, |row: Row| retired_now(row));
            let minted = some_row(end, |row: Row| minted_now(row));
            &&& r is Ok ==> options.allow_revival || !revived
            &&& r is Ok ==> options.allow_retire_and_mint || !retired || !minted
            &&& r matches Ok(plan) ==> plan.ledger@ == end
            &&& r matches Err(CodegenError::Refused(Refusal::Revival)) ==> revived
                && !options.allow_revival
            &&& r matches Err(CodegenError::Refused(Refusal::RetireAndMint)) ==> retired && minted
                && !options.allow_retire_and_mint
            &&& r matches Err(CodegenError::Refused(refusal)) ==> refusal is RetireAndMint
                || refusal is Revival
        }),
{
    assert(planned(rows@, texts(idents@), families@, kinds@, ledger, options, r));
    lemma_gate(seen_all(ledger@, row_names(rows@)), options);
}

/// A whole run that comes to a plan passed both gates, each by its own flag
/// or because there was nothing to refuse.
pub proof fn law_plans_passed_the_gates(
    rows: Vec<HierarchyRow>,
    file: Option<String>,
    options: CodegenOptions,
    source: &str,
    plan: Plan,
)
    requires
        call_ensures(codegen, (&rows, file, options, source), Ok(plan)),
    ensures
        options.allow_revival || forall|i: int|
            0 <= i < plan.ledger@.len() ==> !((#[trigger] plan.ledger@[i]).loaded
                && !plan.ledger@[i].was_live && plan.ledger@[i].live),
        options.allow_retire_and_mint || (forall|i: int|
            0 <= i < plan.ledger@.len() ==> !((#[trigger] plan.ledger@[i]).was_live
                && !plan.ledger@[i].live)) || (forall|i: int|
            0 <= i < plan.ledger@.len() ==> (#[trigger] plan.ledger@[i]).loaded),
{
    let (f, k, start) = lemma_run(rows@, raw_text(file), options, source@, plan);
    let end = plan.ledger@;
    lemma_gate(end, options);
    let revived = |row: Row| revived_now(row);
    let retired = |row: Row| retired_now(row);
    let minted = |row: Row| minted_now(row);
    if !options.allow_revival {
        assert forall|i: int| 0 <= i < end.len() implies !((#[trigger] end[i]).loaded
            && !end[i].was_live && end[i].live) by {
            if revived(end[i]) {
                assert(some_row(end, revived));
            }
        }
    }
    if !options.allow_retire_and_mint {
        if !some_row(end, retired) {
            assert forall|i: int| 0 <= i < end.len() implies !((#[trigger] end[i]).was_live
                && !end[i].live) by {
                if retired(end[i]) {
                    assert(some_row(end, retired));
                }
            }
        } else {
            assert forall|i: int| 0 <= i < end.len() implies (#[trigger] end[i]).loaded by {
                if minted(end[i]) {
                    assert(some_row(end, minted));
                }
            }
        }
    }
}

/// The ledger and the variants that a plan was made from.
proof fn lemma_run(
    rows: Seq<HierarchyRow>,
    file: Option<Seq<char>>,
    options: CodegenOptions,
    source: Seq<char>,
    plan: Plan,
) -> (from: (Seq<Variant>, Seq<Variant>, Ledger))
    requires
        generated(rows, file, options, source, Ok(plan)),
    ensures
        load_gives(file, options.bootstrap_ledger, source, Ok(from.2)),
        planned(rows, row_idents(rows), from.0, from.1, from.2, options, Ok(plan)),
        rows.len() > 0,
{
    let families = column_values(rows, Column::Family);
    let kinds = column_values(rows, Column::Kind);
    let r = Ok::<Plan, CodegenError>(plan);
    let (found, f, k) = choose|found: Result<Ledger, LedgerError>, f: Seq<Variant>, k: Seq<Variant>|
        {
            &&& #[trigger] load_gives(file, options.bootstrap_ledger, source, found)
            &&& #[trigger] variants_of(families, value_idents(families), pairs(f))
            &&& #[trigger] variants_of(kinds, value_idents(kinds), pairs(k))
            &&& match found {
                Err(e) => r == Err::<Plan, CodegenError>(CodegenError::Ledger(e)),
                Ok(start) => planned(rows, row_idents(rows), f, k, start, options, r),
            }
        };
    (f, k, found->Ok_0)
}

/// What is planned for a row: a constant made of its name, unlike any other
/// row's; an id unlike any other row's, under which the ledger has its name,
/// live, and the table from ids has the row; whether it is a neutral, as its
/// last column says; and its family and its kind as they are written.
pub proof fn law_what_is_planned_for_a_row(
    rows: Vec<HierarchyRow>,
    file: Option<String>,
    options: CodegenOptions,
    source: &str,
    plan: Plan,
    i: int,
    j: int,
)
    requires
        call_ensures(codegen, (&rows, file, options, source), Ok(plan)),
        0 <= i < rows@.len(),
        0 <= j < rows@.len(),
        i != j,
    ensures
        plan.idents@.len() == rows@.len(),
        cleaned(
            seq!['C', '_'],
            shouty_snake(slashed(rows@[i].xkcd_color@)),
            plan.idents@[i]@,
        ),
        plan.idents@[i]@.len() > 0,
        plan.idents@[i]@ != plan.idents@[j]@,
        plan.ids@.len() == rows@.len(),
        plan.ids@[i] != 0,
        plan.ids@[i] != plan.ids@[j],
        exists|k: int|
            0 <= k < plan.ledger@.len() && (#[trigger] plan.ledger@[k]).name
                == rows@[i].xkcd_color@ && plan.ledger@[k].id == plan.ids@[i],
        plan.ids@[i] < plan.by_id@.len(),
        plan.by_id@[plan.ids@[i] as int] == Some(i as usize),
        plan.by_id@[0] is None,
        forall|k: int|
            0 <= k < plan.by_id@.len() ==> (#[trigger] plan.by_id@[k] matches Some(x) ==> x
                < rows@.len() && plan.ids@[x as int] == k),
        exists|x: int| 0 <= x < rows@.len() && #[trigger] plan.ids@[x] == plan.by_id@.len() - 1,
        plan.neutral@.len() == rows@.len(),
        plan.neutral@[i] ==> trimmed(rows@[i].color_or_neutral@) == "neutral"@,
        !plan.neutral@[i] ==> trimmed(rows@[i].color_or_neutral@) == "color"@,
        plan.family_at@.len() == rows@.len(),
        plan.family_at@[i] < plan.family_enum.variants@.len(),
        plan.family_enum.variants@[plan.family_at@[i] as int].value@ == rows@[i].color_family@,
        plan.kind_at@.len() == rows@.len(),
        plan.kind_at@[i] < plan.kind_enum.variants@.len(),
        plan.kind_enum.variants@[plan.kind_at@[i] as int].value@ == rows@[i].color_type@,
        plan.family_enum.name@ == "Family"@,
        plan.kind_enum.name@ == "Kind"@,
        plan.family_enum.variants@.len() <= 256,
        plan.kind_enum.variants@.len() <= 256,
{
    let (f, k, start) = lemma_run(rows@, raw_text(file), options, source@, plan);
    let d = row_idents(rows@);
    let names = row_names(rows@);
    assert(fills(rows@, d, f, k, start, plan));
    assert(texts(plan.idents@).len() == d.len());
    assert(plan.idents@.len() == texts(plan.idents@).len());
    assert(texts(plan.idents@)[i] == plan.idents@[i]@);
    assert(texts(plan.idents@)[j] == plan.idents@[j]@);
    assert(names[i] == rows@[i].xkcd_color@);
    assert(names[j] == rows@[j].xkcd_color@);
    assert(d[i] == const_ident(shouty_snake(slashed(names[i]))));
    crate::codegen::ident_laws::lemma_constant(shouty_snake(slashed(names[i])));
    assert(row_fault(rows@, d, f, k, start@, i) is None);
    assert(row_fault(rows@, d, f, k, start@, j) is None);
    plan.ledger.law_ledger();
    assert(id_of(plan.ledger@, names[i]) == Some(plan.ids@[i]));
    let at = choose|at: int|
        0 <= at < plan.ledger@.len() && (#[trigger] plan.ledger@[at]).name == names[i];
    assert(plan.ledger@[at].id == plan.ids@[i]);
    assert(plan.ids@[i] < plan.by_id@.len());
    assert(plan.ids@[j] < plan.by_id@.len());
    assert(row_filled(
        rows@,
        f,
        k,
        plan.neutral@,
        plan.family_at@,
        plan.kind_at@,
        i,
    ));
    if let Some(x) = plan.by_id@[0] {
        assert(plan.ids@[x as int] == 0);
        assert(id_of(plan.ledger@, names[x as int]) == Some(plan.ids@[x as int]));
        let at = choose|at: int|
            0 <= at < plan.ledger@.len() && (#[trigger] plan.ledger@[at]).name == names[x as int];
        assert(plan.ledger@[at].id == 0);
    }
}

/// The two enums of a plan are those of the values of their columns, with
/// texts of their own.
pub proof fn law_planned_enums_are_the_columns(
    rows: Vec<HierarchyRow>,
    file: Option<String>,
    options: CodegenOptions,
    source: &str,
    plan: Plan,
    families: Vec<Variant>,
    kinds: Vec<Variant>,
)
    requires
        call_ensures(codegen, (&rows, file, options, source), Ok(plan)),
        call_ensures(collect_enum_variants, (&rows, Column::Family), Ok(families)),
        call_ensures(collect_enum_variants, (&rows, Column::Kind), Ok(kinds)),
    ensures
        plan.family_enum.variants@.len() == families@.len(),
        forall|k: int|
            0 <= k < families@.len() ==> (#[trigger] plan.family_enum.variants@[k]).value@
                == families@[k].value@ && plan.family_enum.variants@[k].ident@
                == families@[k].ident@,
        plan.kind_enum.variants@.len() == kinds@.len(),
        forall|k: int|
            0 <= k < kinds@.len() ==> (#[trigger] plan.kind_enum.variants@[k]).value@
                == kinds@[k].value@ && plan.kind_enum.variants@[k].ident@ == kinds@[k].ident@,
        plan.family_enum.enum_doc@ == enum_doc(
            "Family"@,
            "Color family classification"@,
            "color_family"@,
        ),
        plan.kind_enum.enum_doc@ == enum_doc(
            "Kind"@,
            "Color kind / texture classification"@,
            "color_type"@,
        ),
        plan.family_enum.as_str_doc@ == as_str_doc("color_family"@),
        plan.kind_enum.as_str_doc@ == as_str_doc("color_type"@),
{
    let fv = column_values(rows@, Column::Family);
    let kv = column_values(rows@, Column::Kind);
    let r = Ok::<Plan, CodegenError>(plan);
    assert(generated(rows@, raw_text(file), options, source@, r));
    let (found, f, k) = choose|found: Result<Ledger, LedgerError>, f: Seq<Variant>, k: Seq<Variant>|
        {
            &&& #[trigger] load_gives(raw_text(file), options.bootstrap_ledger, source@, found)
            &&& #[trigger] variants_of(fv, value_idents(fv), pairs(f))
            &&& #[trigger] variants_of(kv, value_idents(kv), pairs(k))
            &&& match found {
                Err(e) => r == Err::<Plan, CodegenError>(CodegenError::Ledger(e)),
                Ok(start) => planned(rows@, row_idents(rows@), f, k, start, options, r),
            }
        };
    lemma_same_variants(fv, f, families@);
    lemma_same_variants(kv, k, kinds@);
}

proof fn lemma_same_variants(values: Seq<Seq<char>>, one: Seq<Variant>, other: Seq<Variant>)
    requires
        variants_of(values, value_idents(values), pairs(one)),
        variants_of(values, value_idents(values), pairs(other)),
    ensures
        one.len() == other.len(),
        forall|k: int|
            0 <= k < one.len() ==> (#[trigger] one[k]).value@ == other[k].value@ && one[k].ident@
                == other[k].ident@,
{
    let idents = value_idents(values);
    law_row_order_does_not_matter(values, idents, values, idents, pairs(one), pairs(other));
    assert(pairs(one).len() == one.len() && pairs(other).len() == other.len());
    assert forall|k: int| 0 <= k < one.len() implies (#[trigger] one[k]).value@ == other[k].value@
        && one[k].ident@ == other[k].ident@ by {
        assert(pairs(one)[k] == one[k]@ && pairs(other)[k] == other[k]@);
    }
}

/// Ids that were on file stay as they were: each row that was loaded is in
/// the ledger after the run, with its id and name and what was on record of
/// it, and the rows that follow are new. A row is live exactly if its name is
/// among those of the table.
pub proof fn law_a_plan_keeps_the_ledger(
    rows: Vec<HierarchyRow>,
    file: Option<String>,
    options: CodegenOptions,
    source: &str,
    plan: Plan,
    start: Ledger,
)
    requires
        call_ensures(codegen, (&rows, file, options, source), Ok(plan)),
        call_ensures(Ledger::load, (file, options.bootstrap_ledger, source), Ok(start)),
    ensures
        plan.ledger@.len() >= start@.len(),
        forall|k: int|
            0 <= k < start@.len() ==> {
                &&& (#[trigger] plan.ledger@[k]).id == start@[k].id
                &&& plan.ledger@[k].name == start@[k].name
                &&& plan.ledger@[k].was_live == start@[k].was_live
                &&& plan.ledger@[k].loaded
            },
        forall|k: int|
            start@.len() <= k < plan.ledger@.len() ==> !(#[trigger] plan.ledger@[k]).loaded
                && !plan.ledger@[k].was_live,
        forall|k: int|
            0 <= k < plan.ledger@.len() ==> ((#[trigger] plan.ledger@[k]).live
                <==> names_a_row(rows@, plan.ledger@[k].name)),
        plan.ledger.file() == start.file(),
{
    let (f, k, begin) = lemma_run(rows@, raw_text(file), options, source@, plan);
    law_loading_is_repeatable(
        raw_text(file),
        options.bootstrap_ledger,
        source@,
        begin,
        Ok(start),
    );
    let names = row_names(rows@);
    lemma_start(raw_text(file), options.bootstrap_ledger, source@, begin);
    begin.law_ledger();
    lemma_all_can_be_seen(rows@, row_idents(rows@), f, k, begin@, names.len() as int);
    assert(names.take(names.len() as int) =~= names);
    crate::codegen::plan_laws::law_live_is_seen(begin@, names);
    lemma_run_keeps_rows(begin@, names);
    assert forall|m: int| 0 <= m < plan.ledger@.len() implies ((#[trigger] plan.ledger@[m]).live
        <==> names_a_row(rows@, plan.ledger@[m].name)) by {
        let name = plan.ledger@[m].name;
        if names.contains(name) {
            let i = choose|i: int| 0 <= i < names.len() && names[i] == name;
            assert(rows@[i].xkcd_color@ == name);
        }
        if names_a_row(rows@, name) {
            let i = choose|i: int| 0 <= i < rows@.len() && (#[trigger] rows@[i]).xkcd_color@ == name;
            assert(names[i] == name);
        }
    }
}

/// Whether a row of the table has the name.
pub open spec fn names_a_row(rows: Seq<HierarchyRow>, name: Seq<char>) -> bool {
    exists|i: int| 0 <= i < rows.len() && (#[trigger] rows[i]).xkcd_color@ == name
}

proof fn lemma_start(
    file: Option<Seq<char>>,
    bootstrap: bool,
    source: Seq<char>,
    start: Ledger,
)
    requires
        load_gives(file, bootstrap, source, Ok(start)),
    ensures
        start.wf(),
        forall|k: int|
            0 <= k < start@.len() ==> (#[trigger] start@[k]).loaded && !start@[k].live,
{
}

proof fn lemma_all_can_be_seen(
    rows: Seq<HierarchyRow>,
    idents: Seq<Seq<char>>,
    families: Seq<Variant>,
    kinds: Seq<Variant>,
    start: Seq<Row>,
    n: int,
)
    requires
        0 <= n <= rows.len(),
        clear_until(rows, idents, families, kinds, start, rows.len() as int),
    ensures
        crate::codegen::ledger_laws::can_see_all(start, row_names(rows).take(n)),
    decreases n,
{
    let names = row_names(rows);
    if n > 0 {
        lemma_all_can_be_seen(rows, idents, families, kinds, start, n - 1);
        assert(names.take(n).drop_last() =~= names.take(n - 1));
        assert(row_fault(rows, idents, families, kinds, start, n - 1) is None);
        assert(names.take(n).last() == names[n - 1]);
    }
}

proof fn lemma_run_keeps_rows(start: Seq<Row>, names: Seq<Seq<char>>)
    requires
        forall|k: int| 0 <= k < start.len() ==> (#[trigger] start[k]).loaded,
    ensures
        seen_all(start, names).len() >= start.len(),
        forall|k: int|
            0 <= k < start.len() ==> {
                &&& (#[trigger] seen_all(start, names)[k]).id == start[k].id
                &&& seen_all(start, names)[k].name == start[k].name
                &&& seen_all(start, names)[k].was_live == start[k].was_live
                &&& seen_all(start, names)[k].loaded
            },
        forall|k: int|
            start.len() <= k < seen_all(start, names).len() ==> !(#[trigger] seen_all(
                start,
                names,
            )[k]).loaded && !seen_all(start, names)[k].was_live,
    decreases names.len(),
{
    if names.len() > 0 {
        lemma_run_keeps_rows(start, names.drop_last());
    }
}

/// What is wrong with a row that is refused, the first that anything is wrong
/// with.
pub proof fn law_why_a_row_is_refused(
    rows: Vec<HierarchyRow>,
    idents: Vec<String>,
    families: Vec<Variant>,
    kinds: Vec<Variant>,
    ledger: Ledger,
    options: CodegenOptions,
    row: usize,
    fault: RowFault,
)
    requires
        call_ensures(
            plan_tables,
            (&rows, idents, &families, &kinds, ledger, options),
            Err(CodegenError::Row { row, fault }),
        ),
        names_fit(rows@, texts(idents@)),
    ensures
        row < rows@.len(),
        fault is NoIdent ==> idents@[row as int]@.len() == 0,
        fault is DuplicateIdent ==> exists|i: int|
            0 <= i < row && (#[trigger] idents@[i])@ == idents@[row as int]@,
        fault is UnlistedFamily ==> forall|k: int|
            0 <= k < families@.len() ==> (#[trigger] families@[k]).value@
                != rows@[row as int].color_family@,
        fault is UnlistedKind ==> forall|k: int|
            0 <= k < kinds@.len() ==> (#[trigger] kinds@[k]).value@
                != rows@[row as int].color_type@,
        fault is NotColorOrNeutral ==> trimmed(rows@[row as int].color_or_neutral@) != "color"@
            && trimmed(rows@[row as int].color_or_neutral@) != "neutral"@,
        fault is IdsExhausted ==> {
            let before = seen_all(ledger@, row_names(rows@).take(row as int));
            &&& forall|k: int|
                0 <= k < before.len() ==> (#[trigger] before[k]).name
                    != rows@[row as int].xkcd_color@
            &&& exists|k: int| 0 <= k < before.len() && (#[trigger] before[k]).id == u16::MAX
        },
        !(fault is NoIdent) ==> idents@[row as int]@.len() > 0,
        !(fault is NoIdent || fault is DuplicateIdent) ==> unlike_before(idents@, row as int),
        !(fault is NoIdent || fault is DuplicateIdent || fault is UnlistedFamily) ==> has_value(
            families@,
            rows@[row as int].color_family@,
        ),
        fault is NotColorOrNeutral || fault is IdsExhausted ==> has_value(
            kinds@,
            rows@[row as int].color_type@,
        ),
        fault is IdsExhausted ==> trimmed(rows@[row as int].color_or_neutral@) == "color"@
            || trimmed(rows@[row as int].color_or_neutral@) == "neutral"@,
        forall|i: int|
            0 <= i < row ==> {
                &&& (#[trigger] idents@[i])@.len() > 0
                &&& unlike_before(idents@, i)
                &&& has_value(families@, rows@[i].color_family@)
                &&& has_value(kinds@, rows@[i].color_type@)
                &&& trimmed(rows@[i].color_or_neutral@) == "color"@ || trimmed(
                    rows@[i].color_or_neutral@,
                ) == "neutral"@
            },
{
    let d = texts(idents@);
    assert(d.len() == idents@.len());
    assert(planned(
        rows@,
        d,
        families@,
        kinds@,
        ledger,
        options,
        Err(CodegenError::Row { row, fault }),
    ));
    assert(d[row as int] == idents@[row as int]@);
    if fault is DuplicateIdent {
        let i = choose|i: int| 0 <= i < row && #[trigger] d[i] == d[row as int];
        assert(idents@[i]@ == d[i]);
    }
    if fault is IdsExhausted {
        let before = seen_all(ledger@, row_names(rows@).take(row as int));
        assert(row_names(rows@)[row as int] == rows@[row as int].xkcd_color@);
        crate::codegen::record_laws::law_when_ids_run_out(
            before,
            rows@[row as int].xkcd_color@,
        );
    }
    if !(fault is NoIdent || fault is DuplicateIdent) {
        lemma_unlike(idents@, row as int);
    }
    assert forall|i: int| 0 <= i < row implies {
        &&& (#[trigger] idents@[i])@.len() > 0
        &&& unlike_before(idents@, i)
        &&& has_value(families@, rows@[i].color_family@)
        &&& has_value(kinds@, rows@[i].color_type@)
        &&& trimmed(rows@[i].color_or_neutral@) == "color"@ || trimmed(
            rows@[i].color_or_neutral@,
        ) == "neutral"@
    } by {
        assert(d[i] == idents@[i]@);
        assert(row_fault(rows@, d, families@, kinds@, ledger@, i) is None);
        lemma_unlike(idents@, i);
    }
}

/// Whether the identifier at place `i` is unlike those before it.
pub open spec fn unlike_before(idents: Seq<String>, i: int) -> bool {
    forall|k: int| 0 <= k < i ==> (#[trigger] idents[k])@ != idents[i]@
}

/// Whether a variant has the value.
pub open spec fn has_value(variants: Seq<Variant>, value: Seq<char>) -> bool {
    exists|k: int| 0 <= k < variants.len() && (#[trigger] variants[k]).value@ == value
}

proof fn lemma_unlike(idents: Seq<String>, i: int)
    requires
        0 <= i < idents.len(),
        !(exists|k: int| 0 <= k < i && #[trigger] texts(idents)[k] == texts(idents)[i]),
    ensures
        unlike_before(idents, i),
{
    assert forall|k: int| 0 <= k < i implies (#[trigger] idents[k])@ != idents[i]@ by {
        assert(texts(idents)[k] != texts(idents)[i]);
    }
}

/// What a run looks at, in this order: whether there are rows, the families,
/// the kinds, the ledger; and only then the rows themselves.
pub proof fn law_order_of_a_run(
    rows: Vec<HierarchyRow>,
    file: Option<String>,
    options: CodegenOptions,
    source: &str,
    families: Result<Vec<Variant>, VariantError>,
    kinds: Result<Vec<Variant>, VariantError>,
    ledger: Result<Ledger, LedgerError>,
    whole: Result<Plan, CodegenError>,
)
    requires
        call_ensures(collect_enum_variants, (&rows, Column::Family), families),
        call_ensures(collect_enum_variants, (&rows, Column::Kind), kinds),
        call_ensures(Ledger::load, (file, options.bootstrap_ledger, source), ledger),
        call_ensures(codegen, (&rows, file, options, source), whole),
    ensures
        rows@.len() == 0 <==> (whole matches Err(CodegenError::NoEntries)),
        rows@.len() > 0 && families is Err <==> (whole matches Err(CodegenError::Family(e))),
        rows@.len() > 0 && families is Ok && kinds is Err <==> (whole matches Err(
            CodegenError::Kind(e),
        )),
        rows@.len() > 0 && families is Ok && kinds is Ok && ledger is Err <==> (whole matches Err(
            CodegenError::Ledger(e),
        )),
{
    let f = column_values(rows@, Column::Family);
    let k = column_values(rows@, Column::Kind);
    if families is Err {
        lemma_not_all_fit(f, value_idents(f), families->Err_0);
    }
    if kinds is Err {
        lemma_not_all_fit(k, value_idents(k), kinds->Err_0);
    }
    assert(generated(rows@, raw_text(file), options, source@, whole));
    if rows@.len() > 0 && families is Ok && kinds is Ok {
        let (found, fs, ks) = choose|
            found: Result<Ledger, LedgerError>,
            fs: Seq<Variant>,
            ks: Seq<Variant>,
        |
            {
                &&& #[trigger] load_gives(
                    raw_text(file),
                    options.bootstrap_ledger,
                    source@,
                    found,
                )
                &&& #[trigger] variants_of(f, value_idents(f), pairs(fs))
                &&& #[trigger] variants_of(k, value_idents(k), pairs(ks))
                &&& match found {
                    Err(e) => whole == Err::<Plan, CodegenError>(CodegenError::Ledger(e)),
                    Ok(start) => planned(rows@, row_idents(rows@), fs, ks, start, options, whole),
                }
            };
        match (found, ledger) {
            (Ok(start), Err(e)) => {
                law_loading_is_repeatable(
                    raw_text(file),
                    options.bootstrap_ledger,
                    source@,
                    start,
                    ledger,
                );
            },
            (Err(e), Ok(start)) => {
                law_loading_is_repeatable(
                    raw_text(file),
                    options.bootstrap_ledger,
                    source@,
                    start,
                    found,
                );
            },
            _ => {},
        }
    }
}

proof fn lemma_not_all_fit(values: Seq<Seq<char>>, idents: Seq<Seq<char>>, e: VariantError)
    requires
        reports_fault(values, idents, e),
    ensures
        !all_fit(values, idents),
{
    let row = match e {
        VariantError::Empty { row } => row,
        VariantError::NoIdent { row } => row,
        VariantError::Collision { row, ident } => row,
    };
    assert(fault_at(values, idents, row as int) is Some);
}

/// A column with more than 256 values is refused as such, the family before
/// the kind; a table without rows is refused before anything else.
pub proof fn law_limits_of_a_run(
    rows: Vec<HierarchyRow>,
    idents: Vec<String>,
    families: Vec<Variant>,
    kinds: Vec<Variant>,
    ledger: Ledger,
    options: CodegenOptions,
    r: Result<Plan, CodegenError>,
    file: Option<String>,
    source: &str,
    whole: Result<Plan, CodegenError>,
)
    requires
        call_ensures(plan_tables, (&rows, idents, &families, &kinds, ledger, options), r),
        call_ensures(codegen, (&rows, file, options, source), whole),
    ensures
        r matches Err(CodegenError::TooManyVariants(column)) ==> match column {
            Column::Family => families@.len() > 256,
            Column::Kind => families@.len() <= 256 && kinds@.len() > 256,
        },
        r is Ok ==> families@.len() <= 256 && kinds@.len() <= 256,
        r matches Err(e) ==> e is Row || e is Refused || e is TooManyVariants,
        rows@.len() == 0 <==> (whole matches Err(e) && e is NoEntries),
{
    assert(planned(rows@, texts(idents@), families@, kinds@, ledger, options, r));
    assert(generated(rows@, raw_text(file), options, source@, whole));
    assert(MAX_VARIANTS == 256);
}

} // verus!
