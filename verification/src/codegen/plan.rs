//! Planning the generated tables from the upstream table and the ledger.

use vstd::prelude::*;

verus! {

use crate::codegen::enums::{EnumPlan, MAX_VARIANTS, plan_enum, plans};
use crate::codegen::hierarchy::{
    Column, HierarchyRow, neutrality, parse_color_or_neutral, row_names,
};
use crate::codegen::idents::{const_ident, name_to_const_ident, shouty_snake, slashed};
use crate::codegen::ledger::{
    Ledger, LedgerError, Pick, Refusal, Row, id_of, listing, load_gives, raw_text, seen, sound,
};
use crate::codegen::ledger_file::texts;
use crate::codegen::ledger_laws::{can_see, law_ids_never_change, seen_all};
use crate::codegen::options::CodegenOptions;
use crate::codegen::variants::{
    Variant, VariantError, all_fit, collect_enum_variants, column_values, find_variant, pairs,
    reports_fault, value_idents, variants_of,
};
use crate::palette::{index_by_id, places_ids};
use crate::text::str_eq;

/// What is wrong with a row of the upstream table.
#[derive(Clone, Copy, Debug, PartialEq, Eq, Structural)]
pub enum RowFault {
    /// The name makes no identifier.
    NoIdent,
    /// A row before it makes the same identifier.
    DuplicateIdent,
    /// The family is not written as it is listed.
    UnlistedFamily,
    /// The kind is not written as it is listed.
    UnlistedKind,
    /// The last column says neither `color` nor `neutral`.
    NotColorOrNeutral,
    /// Every id has been handed out.
    IdsExhausted,
}

/// Why there is nothing to generate.
#[derive(Debug, PartialEq, Eq)]
pub enum CodegenError {
    /// The upstream table has no rows.
    NoEntries,
    /// The families make no enum.
    Family(VariantError),
    /// The kinds make no enum.
    Kind(VariantError),
    /// The ledger is refused.
    Ledger(LedgerError),
    /// A row is refused.
    Row { row: usize, fault: RowFault },
    /// The run may not be committed.
    Refused(Refusal),
    /// A column has more values than an enum holds.
    TooManyVariants(Column),
}

/// What is to be generated.
pub struct Plan {
    /// Each row's constant.
    pub idents: Vec<String>,
    /// Each row's permanent id.
    pub ids: Vec<u16>,
    /// Whether each row is a neutral.
    pub neutral: Vec<bool>,
    /// Each row's place among the families.
    pub family_at: Vec<usize>,
    /// Each row's place among the kinds.
    pub kind_at: Vec<usize>,
    /// The table from ids to rows.
    pub by_id: Vec<Option<usize>>,
    /// The enum of families.
    pub family_enum: EnumPlan,
    /// The enum of kinds.
    pub kind_enum: EnumPlan,
    /// The ledger after the run.
    pub ledger: Ledger,
}

/// Whether `value` is a variant's value.
pub open spec fn lists(variants: Seq<Variant>, value: Seq<char>) -> bool {
    exists|k: int| 0 <= k < variants.len() && (#[trigger] variants[k]).value@ == value
}

/// What is wrong with row `j`, given the constants, the variants and the
/// ledger at the start of the run.
pub open spec fn row_fault(
    rows: Seq<HierarchyRow>,
    idents: Seq<Seq<char>>,
    families: Seq<Variant>,
    kinds: Seq<Variant>,
    start: Seq<Row>,
    j: int,
) -> Option<RowFault> {
    let names = row_names(rows);
    if idents[j].len() == 0 {
        Some(RowFault::NoIdent)
    } else if exists|i: int| 0 <= i < j && #[trigger] idents[i] == idents[j] {
        Some(RowFault::DuplicateIdent)
    } else if !lists(families, rows[j].color_family@) {
        Some(RowFault::UnlistedFamily)
    } else if !lists(kinds, rows[j].color_type@) {
        Some(RowFault::UnlistedKind)
    } else if neutrality(rows[j].color_or_neutral@) is None {
        Some(RowFault::NotColorOrNeutral)
    } else if !can_see(seen_all(start, names.take(j)), names[j]) {
        Some(RowFault::IdsExhausted)
    } else {
        None
    }
}

/// Whether the rows before `n` are in order.
pub open spec fn clear_until(
    rows: Seq<HierarchyRow>,
    idents: Seq<Seq<char>>,
    families: Seq<Variant>,
    kinds: Seq<Variant>,
    start: Seq<Row>,
    n: int,
) -> bool {
    forall|i: int|
        0 <= i < n ==> #[trigger] row_fault(rows, idents, families, kinds, start, i) is None
}

/// Which gate refuses a run that ends with the given ledger rows: one that
/// both retires and mints before one that revives.
pub open spec fn gate(end: Seq<Row>, options: CodegenOptions) -> Option<Refusal> {
    if !options.allow_retire_and_mint && listing(end, Pick::NewlyRetired).len() > 0 && listing(
        end,
        Pick::Minted,
    ).len() > 0 {
        Some(Refusal::RetireAndMint)
    } else if !options.allow_revival && listing(end, Pick::Reactivated).len() > 0 {
        Some(Refusal::Revival)
    } else {
        None
    }
}

/// Whether `plan` says of every row what the table and the ledger say.
pub open spec fn fills(
    rows: Seq<HierarchyRow>,
    idents: Seq<Seq<char>>,
    families: Seq<Variant>,
    kinds: Seq<Variant>,
    start: Ledger,
    plan: Plan,
) -> bool {
    let names = row_names(rows);
    &&& texts(plan.idents@) == idents
    &&& plan.ledger.wf()
    &&& plan.ledger@ == seen_all(start@, names)
    &&& plan.ledger.file() == start.file()
    &&& plan.ledger.origin() == start.origin()
    &&& plan.ids@.len() == rows.len()
    &&& plan.neutral@.len() == rows.len()
    &&& plan.family_at@.len() == rows.len()
    &&& plan.kind_at@.len() == rows.len()
    &&& forall|i: int|
        0 <= i < rows.len() ==> id_of(plan.ledger@, #[trigger] names[i]) == Some(plan.ids@[i])
    &&& forall|i: int| #[trigger]
        row_filled(
            rows,
            families,
            kinds,
            plan.neutral@,
            plan.family_at@,
            plan.kind_at@,
            i,
        )
    &&& places_ids(plan.ids@, plan.by_id@)
    &&& plans(plan.family_enum, "Family"@, families, "Color family classification"@, "color_family"@)
    &&& plans(plan.kind_enum, "Kind"@, kinds, "Color kind / texture classification"@, "color_type"@)
}

/// Whether what is planned for row `i`, if there is one, is what the table
/// says of it.
pub open spec fn row_filled(
    rows: Seq<HierarchyRow>,
    families: Seq<Variant>,
    kinds: Seq<Variant>,
    neutral: Seq<bool>,
    family_at: Seq<usize>,
    kind_at: Seq<usize>,
    i: int,
) -> bool {
    0 <= i < neutral.len() ==> {
        &&& neutrality(rows[i].color_or_neutral@) == Some(neutral[i])
        &&& family_at[i] < families.len()
        &&& families[family_at[i] as int].value@ == rows[i].color_family@
        &&& kind_at[i] < kinds.len()
        &&& kinds[kind_at[i] as int].value@ == rows[i].color_type@
    }
}

/// Whether `r` is the plan for the given rows, constants, variants and ledger,
/// or the first reason against it: a row at fault, then a gate, then an enum
/// that is too large.
pub open spec fn planned(
    rows: Seq<HierarchyRow>,
    idents: Seq<Seq<char>>,
    families: Seq<Variant>,
    kinds: Seq<Variant>,
    start: Ledger,
    options: CodegenOptions,
    r: Result<Plan, CodegenError>,
) -> bool {
    let clear = clear_until(rows, idents, families, kinds, start@, rows.len() as int);
    let stopped_by = gate(seen_all(start@, row_names(rows)), options);
    match r {
        Err(CodegenError::Row { row, fault }) => {
            &&& row < rows.len()
            &&& row_fault(rows, idents, families, kinds, start@, row as int) == Some(fault)
            &&& clear_until(rows, idents, families, kinds, start@, row as int)
        },
        Err(CodegenError::Refused(refusal)) => clear && stopped_by == Some(refusal),
        Err(CodegenError::TooManyVariants(column)) => clear && stopped_by is None && (
        match column {
            Column::Family => families.len() > MAX_VARIANTS,
            Column::Kind => families.len() <= MAX_VARIANTS && kinds.len() > MAX_VARIANTS,
        }),
        Err(_) => false,
        Ok(plan) => {
            &&& clear
            &&& stopped_by is None
            &&& families.len() <= MAX_VARIANTS
            &&& kinds.len() <= MAX_VARIANTS
            &&& fills(rows, idents, families, kinds, start, plan)
        },
    }
}

/// Whether rows of the same name have the same constant.
pub open spec fn names_fit(rows: Seq<HierarchyRow>, idents: Seq<Seq<char>>) -> bool {
    &&& idents.len() == rows.len()
    &&& forall|i: int, j: int|
        0 <= i < rows.len() && 0 <= j < rows.len() && (#[trigger] rows[i]).xkcd_color@ == (
        #[trigger] rows[j]).xkcd_color@ ==> idents[i] == idents[j]
}

fn stands_before(idents: &Vec<String>, j: usize) -> (b: bool)
    requires
        j < idents@.len(),
    ensures
        b == exists|i: int|
            0 <= i < j && #[trigger] texts(idents@)[i] == texts(idents@)[j as int],
{
    let ghost d = texts(idents@);
    let mut i: usize = 0;
    while i < j
        invariant
            i <= j < idents@.len(),
            d == texts(idents@),
            forall|k: int| 0 <= k < i ==> #[trigger] d[k] != d[j as int],
        decreases j - i,
    {
        assert(d[i as int] == idents@[i as int]@ && d[j as int] == idents@[j as int]@);
        if str_eq(idents[i].as_str(), idents[j].as_str()) {
            return true;
        }
        i += 1;
    }
    false
}

/// In sound rows different names have different ids.
proof fn lemma_ids_differ(rows: Seq<Row>, one: Seq<char>, other: Seq<char>)
    requires
        sound(rows),
        id_of(rows, one) is Some,
        id_of(rows, other) is Some,
        one != other,
    ensures
        id_of(rows, one) != id_of(rows, other),
        id_of(rows, one) != Some(0u16),
{
    let a = choose|a: int| 0 <= a < rows.len() && (#[trigger] rows[a]).name == one;
    let b = choose|b: int| 0 <= b < rows.len() && (#[trigger] rows[b]).name == other;
    assert(rows[a].id != rows[b].id);
}

/// Plans the tables, given each row's constant and the variants of the two
/// columns.
pub fn plan_tables(
    rows: &Vec<HierarchyRow>,
    idents: Vec<String>,
    families: &Vec<Variant>,
    kinds: &Vec<Variant>,
    ledger: Ledger,
    options: CodegenOptions,
) -> (r: Result<Plan, CodegenError>)
    requires
        ledger.wf(),
        names_fit(rows@, texts(idents@)),
    ensures
        planned(rows@, texts(idents@), families@, kinds@, ledger, options, r),
{
    let ghost start = ledger;
    let ghost names = row_names(rows@);
    let ghost d = texts(idents@);
    let mut book: Ledger = ledger;
    let mut ids: Vec<u16> = Vec::new();
    let mut neutral: Vec<bool> = Vec::new();
    let mut family_at: Vec<usize> = Vec::new();
    let mut kind_at: Vec<usize> = Vec::new();
    let mut j: usize = 0;
    assert(names.take(0) =~= Seq::empty());
    while j < rows.len()
        invariant
            j <= rows@.len(),
            names == row_names(rows@),
            d == texts(idents@),
            names_fit(rows@, d),
            start == ledger,
            book.wf(),
            book@ == seen_all(start@, names.take(j as int)),
            book.file() == start.file(),
            book.origin() == start.origin(),
            clear_until(rows@, d, families@, kinds@, start@, j as int),
            ids@.len() == j,
            neutral@.len() == j,
            family_at@.len() == j,
            kind_at@.len() == j,
            forall|i: int| 0 <= i < j ==> id_of(book@, #[trigger] names[i]) == Some(ids@[i]),
            forall|i: int| #[trigger]
                row_filled(rows@, families@, kinds@, neutral@, family_at@, kind_at@, i),
        decreases rows@.len() - j,
    {
        let row: &HierarchyRow = &rows[j];
        let ghost before = book@;
        proof {
            book.law_ledger();
        }
        assert(names[j as int] == row.xkcd_color@);
        assert(d[j as int] == idents@[j as int]@);
        proof {
            reveal_strlit("");
            if d[j as int].len() == 0 {
                assert(d[j as int] =~= ""@);
            }
        }
        if str_eq(idents[j].as_str(), "") {
            return Err(CodegenError::Row { row: j, fault: RowFault::NoIdent });
        }
        if stands_before(&idents, j) {
            return Err(CodegenError::Row { row: j, fault: RowFault::DuplicateIdent });
        }
        let family: usize = match find_variant(families, row.color_family.as_str()) {
            Some(k) => k,
            None => {
                return Err(CodegenError::Row { row: j, fault: RowFault::UnlistedFamily });
            },
        };
        assert(lists(families@, row.color_family@));
        let kind: usize = match find_variant(kinds, row.color_type.as_str()) {
            Some(k) => k,
            None => {
                return Err(CodegenError::Row { row: j, fault: RowFault::UnlistedKind });
            },
        };
        assert(lists(kinds@, row.color_type@));
        let is_neutral: bool = match parse_color_or_neutral(row.color_or_neutral.as_str()) {
            Some(b) => b,
            None => {
                return Err(CodegenError::Row { row: j, fault: RowFault::NotColorOrNeutral });
            },
        };
        let id: u16 = match book.id_for(row.xkcd_color.as_str()) {
            Ok(id) => id,
            Err(_) => {
                return Err(CodegenError::Row { row: j, fault: RowFault::IdsExhausted });
            },
        };
        let ghost (n0, f0, k0, i0) = (neutral@, family_at@, kind_at@, ids@);
        ids.push(id);
        neutral.push(is_neutral);
        family_at.push(family);
        kind_at.push(kind);
        proof {
            let next = names.take(j + 1);
            assert(next.drop_last() =~= names.take(j as int));
            assert(next.last() == names[j as int]);
            assert(book@ == seen(before, names[j as int]));
            assert forall|i: int| 0 <= i < j + 1 implies id_of(book@, #[trigger] names[i]) == Some(
                ids@[i],
            ) by {
                if i < j {
                    assert(id_of(before, names[i]) == Some(i0[i]));
                    law_ids_never_change(before, names[j as int], names[i]);
                }
            }
            assert forall|i: int| #[trigger]
                row_filled(rows@, families@, kinds@, neutral@, family_at@, kind_at@, i) by {
                assert(row_filled(rows@, families@, kinds@, n0, f0, k0, i));
            }
        }
        j += 1;
    }
    assert(names.take(j as int) =~= names);
    if let Err(refusal) = book.assert_rename_resolved(options.allow_retire_and_mint) {
        return Err(CodegenError::Refused(refusal));
    }
    if let Err(refusal) = book.assert_revival_approved(options.allow_revival) {
        return Err(CodegenError::Refused(refusal));
    }
    proof {
        book.law_ledger();
        assert forall|a: int| 0 <= a < ids@.len() implies #[trigger] ids@[a] != 0 by {
            assert(id_of(book@, names[a]) == Some(ids@[a]));
            let k = choose|k: int| 0 <= k < book@.len() && (#[trigger] book@[k]).name == names[a];
            assert(book@[k].id != 0);
        }
        assert forall|a: int, b: int| 0 <= a < b < ids@.len() implies #[trigger] ids@[a]
            != #[trigger] ids@[b] by {
            assert(row_fault(rows@, d, families@, kinds@, start@, b) is None);
            assert(d[a] != d[b]);
            assert(rows@[a].xkcd_color@ != rows@[b].xkcd_color@);
            assert(names[a] != names[b]);
            lemma_ids_differ(book@, names[a], names[b]);
        }
    }
    let by_id: Vec<Option<usize>> = match index_by_id(ids.as_slice()) {
        Ok(table) => table,
        Err(_) => vstd::pervasive::unreached(),
    };
    let family_enum: EnumPlan = match plan_enum(
        "Family",
        families,
        "Color family classification",
        "color_family",
    ) {
        Some(plan) => plan,
        None => {
            return Err(CodegenError::TooManyVariants(Column::Family));
        },
    };
    let kind_enum: EnumPlan = match plan_enum(
        "Kind",
        kinds,
        "Color kind / texture classification",
        "color_type",
    ) {
        Some(plan) => plan,
        None => {
            return Err(CodegenError::TooManyVariants(Column::Kind));
        },
    };
    Ok(
        Plan {
            idents,
            ids,
            neutral,
            family_at,
            kind_at,
            by_id,
            family_enum,
            kind_enum,
            ledger: book,
        },
    )
}

/// The constants of the rows.
pub open spec fn row_idents(rows: Seq<HierarchyRow>) -> Seq<Seq<char>> {
    row_names(rows).map_values(|name: Seq<char>| const_ident(shouty_snake(slashed(name))))
}

/// What `codegen` makes of an upstream table and a ledger file that may be
/// missing: the first reason against a plan, or the plan.
pub open spec fn generated(
    rows: Seq<HierarchyRow>,
    ledger: Option<Seq<char>>,
    options: CodegenOptions,
    source: Seq<char>,
    r: Result<Plan, CodegenError>,
) -> bool {
    let families = column_values(rows, Column::Family);
    let kinds = column_values(rows, Column::Kind);
    if rows.len() == 0 {
        r matches Err(e) && e is NoEntries
    } else if !all_fit(families, value_idents(families)) {
        r matches Err(CodegenError::Family(e)) && reports_fault(families, value_idents(families), e)
    } else if !all_fit(kinds, value_idents(kinds)) {
        r matches Err(CodegenError::Kind(e)) && reports_fault(kinds, value_idents(kinds), e)
    } else {
        exists|found: Result<Ledger, LedgerError>, f: Seq<Variant>, k: Seq<Variant>|
            {
                &&& #[trigger] load_gives(ledger, options.bootstrap_ledger, source, found)
                &&& #[trigger] variants_of(families, value_idents(families), pairs(f))
                &&& #[trigger] variants_of(kinds, value_idents(kinds), pairs(k))
                &&& match found {
                    Err(e) => r == Err::<Plan, CodegenError>(CodegenError::Ledger(e)),
                    Ok(start) => planned(rows, row_idents(rows), f, k, start, options, r),
                }
            }
    }
}

/// Plans the tables for an upstream table and a ledger file that may be
/// missing. Nothing is planned unless every row, the ledger and the gates
/// allow it.
pub fn codegen(
    rows: &Vec<HierarchyRow>,
    ledger: Option<String>,
    options: CodegenOptions,
    source: &str,
) -> (r: Result<Plan, CodegenError>)
    ensures
        generated(rows@, raw_text(ledger), options, source@, r),
{
    let ghost families_want = column_values(rows@, Column::Family);
    let ghost kinds_want = column_values(rows@, Column::Kind);
    if rows.len() == 0 {
        return Err(CodegenError::NoEntries);
    }
    let families: Vec<Variant> = match collect_enum_variants(rows, Column::Family) {
        Ok(out) => out,
        Err(e) => {
            return Err(CodegenError::Family(e));
        },
    };
    let kinds: Vec<Variant> = match collect_enum_variants(rows, Column::Kind) {
        Ok(out) => out,
        Err(e) => {
            return Err(CodegenError::Kind(e));
        },
    };
    let found: Result<Ledger, LedgerError> = Ledger::load(
        ledger,
        options.bootstrap_ledger,
        source,
    );
    let ghost seen_file = found;
    let start: Ledger = match found {
        Ok(start) => start,
        Err(e) => {
            let r: Result<Plan, CodegenError> = Err(CodegenError::Ledger(e));
            assert(load_gives(raw_text(ledger), options.bootstrap_ledger, source@, seen_file));
            assert(variants_of(families_want, value_idents(families_want), pairs(families@)));
            assert(variants_of(kinds_want, value_idents(kinds_want), pairs(kinds@)));
            return r;
        },
    };
    let mut idents: Vec<String> = Vec::new();
    let ghost want = row_idents(rows@);
    let mut i: usize = 0;
    while i < rows.len()
        invariant
            i <= rows@.len(),
            want == row_idents(rows@),
            texts(idents@) == want.take(i as int),
        decreases rows@.len() - i,
    {
        let ident: String = name_to_const_ident(rows[i].xkcd_color.as_str());
        let ghost before = idents@;
        proof {
            assert(row_names(rows@)[i as int] == rows@[i as int].xkcd_color@);
            assert(want[i as int] == ident@);
        }
        idents.push(ident);
        i += 1;
        proof {
            assert(texts(idents@) =~= texts(before).push(want[i - 1]));
            assert(texts(idents@) =~= want.take(i as int));
        }
    }
    assert(want.take(i as int) =~= want);
    proof {
        assert forall|a: int, b: int|
            0 <= a < rows@.len() && 0 <= b < rows@.len() && (#[trigger] rows@[a]).xkcd_color@ == (
            #[trigger] rows@[b]).xkcd_color@ implies want[a] == want[b] by {
            assert(row_names(rows@)[a] == row_names(rows@)[b]);
        }
    }
    let ghost begin = start;
    let r: Result<Plan, CodegenError> = plan_tables(
        rows,
        idents,
        &families,
        &kinds,
        start,
        options,
    );
    proof {
        assert(load_gives(raw_text(ledger), options.bootstrap_ledger, source@, Ok(begin)));
        assert(variants_of(families_want, value_idents(families_want), pairs(families@)));
        assert(variants_of(kinds_want, value_idents(kinds_want), pairs(kinds@)));
        assert(planned(rows@, row_idents(rows@), families@, kinds@, begin, options, r));
    }
    r
}

} // verus!
