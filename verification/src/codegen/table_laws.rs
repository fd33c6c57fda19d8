//! What is taken from the command line and from the upstream table.

use vstd::prelude::*;

verus! {

use crate::codegen::enums::{EnumPlan, plan_enum};
use crate::codegen::hierarchy::{Column, HierarchyRow, parse_color_or_neutral};
use crate::codegen::idents::{upper_camel, variant_ident};
use crate::codegen::ledger_file::texts;
use crate::codegen::options::{CodegenOptions, USAGE, known};
use crate::codegen::variants::{
    Variant, VariantError, collect_enum_variants, column_values, fault_at, pairs, value_idents,
    variants_of,
};
use crate::text::{text_below, trim, trimmed};

/// The arguments are accepted exactly if each is one of the four known words,
/// and each flag is set exactly if its own word is among them; else the first
/// word that is not known comes back.
pub proof fn law_each_flag_has_its_word(args: Vec<String>, r: Result<CodegenOptions, String>)
    requires
        call_ensures(CodegenOptions::parse, (&args,), r),
    ensures
        r is Ok <==> forall|i: int| 0 <= i < args@.len() ==> an_option((#[trigger] args@[i])@),
        r matches Ok(options) ==> {
            &&& options.bootstrap_ledger <==> exists|i: int|
                0 <= i < args@.len() && (#[trigger] args@[i])@ == "--bootstrap-ledger"@
            &&& options.allow_retire_and_mint <==> exists|i: int|
                0 <= i < args@.len() && (#[trigger] args@[i])@ == "--allow-retire-and-mint"@
            &&& options.allow_revival <==> exists|i: int|
                0 <= i < args@.len() && (#[trigger] args@[i])@ == "--allow-revival"@
        },
        r matches Err(word) ==> exists|i: int|
            {
                &&& 0 <= i < args@.len()
                &&& (#[trigger] args@[i])@ == word@
                &&& !an_option(word@)
                &&& forall|k: int| 0 <= k < i ==> an_option((#[trigger] args@[k])@)
            },
{
    let words = texts(args@);
    assert forall|i: int| 0 <= i < args@.len() implies #[trigger] words[i] == args@[i]@ by {}
    assert forall|w: Seq<char>| #[trigger] an_option(w) == known(w) by {}
    match r {
        Ok(options) => {
            assert forall|i: int| 0 <= i < args@.len() implies an_option(
                (#[trigger] args@[i])@,
            ) by {
                assert(known(words[i]));
            }
            lemma_among(args@, "--bootstrap-ledger"@);
            lemma_among(args@, "--allow-retire-and-mint"@);
            lemma_among(args@, "--allow-revival"@);
        },
        Err(word) => {
            let i = choose|i: int|
                {
                    &&& 0 <= i < args@.len()
                    &&& #[trigger] words[i] == word@
                    &&& !known(word@)
                    &&& forall|k: int| 0 <= k < i ==> known(#[trigger] words[k])
                };
            assert(args@[i]@ == word@);
            assert forall|k: int| 0 <= k < i implies an_option((#[trigger] args@[k])@) by {
                assert(known(words[k]));
            }
        },
    }
}

/// The usage names every word that the program takes.
pub proof fn law_usage()
    ensures
        USAGE@ == "usage: cargo xtask [codegen] [--bootstrap-ledger] [--allow-retire-and-mint] [--allow-revival]"@,
{
}

/// Whether `w` is a word that the program takes.
pub open spec fn an_option(w: Seq<char>) -> bool {
    w == "--allow-revival"@ || w == "--allow-retire-and-mint"@ || w == "--bootstrap-ledger"@ || w
        == "codegen"@
}

proof fn lemma_among(args: Seq<String>, word: Seq<char>)
    ensures
        texts(args).contains(word) <==> exists|i: int|
            0 <= i < args.len() && (#[trigger] args[i])@ == word,
{
    if texts(args).contains(word) {
        let i = choose|i: int| 0 <= i < texts(args).len() && texts(args)[i] == word;
        assert(args[i]@ == word);
    }
    if exists|i: int| 0 <= i < args.len() && (#[trigger] args[i])@ == word {
        let i = choose|i: int| 0 <= i < args.len() && (#[trigger] args[i])@ == word;
        assert(texts(args)[i] == word);
    }
}

/// An entry is a colour if the value says `color`, a neutral if it says
/// `neutral`, white space at the ends aside, and neither otherwise.
pub proof fn law_color_or_neutral(value: &str, t: String, r: Option<bool>)
    requires
        call_ensures(trim, (value,), t),
        call_ensures(parse_color_or_neutral, (value,), r),
    ensures
        r == Some(false) <==> t@ == "color"@,
        r == Some(true) <==> t@ == "neutral"@,
{
    reveal_strlit("color");
    reveal_strlit("neutral");
    assert("color"@.len() == 5 && "neutral"@.len() == 7);
}

/// Each column is read from its own field.
pub proof fn law_columns_are_read_from_their_fields<'a>(
    row: &'a HierarchyRow,
    family: &'a str,
    kind: &'a str,
)
    requires
        call_ensures(Column::value, (&Column::Family, row), family),
        call_ensures(Column::value, (&Column::Kind, row), kind),
    ensures
        family@ == row.color_family@,
        kind@ == row.color_type@,
{
}

/// What is planned of an enum: its variants as they are, in their order, at
/// most 256, and texts that name the enum, the column and each value.
pub proof fn law_planned_enums(
    name: &str,
    values: Vec<Variant>,
    summary: &str,
    column: &str,
    r: Option<EnumPlan>,
)
    requires
        call_ensures(plan_enum, (name, &values, summary, column), r),
    ensures
        r is None <==> values@.len() > 256,
        r matches Some(plan) ==> {
            &&& plan.name@ == name@
            &&& plan.variants@.len() == values@.len()
            &&& forall|k: int|
                0 <= k < values@.len() ==> {
                    &&& (#[trigger] plan.variants@[k]).value@ == values@[k].value@
                    &&& plan.variants@[k].ident@ == values@[k].ident@
                    &&& plan.variants@[k].doc@ == " Variant for `"@ + values@[k].value@ + "`."@
                }
            &&& plan.enum_doc@ == " "@ + summary@
                + " sourced from the upstream `color_hierarchy.csv` \n`"@ + column@
                + "` column. Marked `#[non_exhaustive]` so adding a \nnew upstream value is a non-breaking change for downstream \nconsumers; call [`"@
                + name@
                + "::as_str`] to get the original \nstring back when you need to feed it into a search index."@
            &&& plan.as_str_doc@ == " The original `"@ + column@
                + "` string for this variant — exactly what appears in `color_hierarchy.csv`."@
        },
{
}

/// A row's value in a column, white space at its ends aside.
pub open spec fn value_in(row: HierarchyRow, column: Column) -> Seq<char> {
    match column {
        Column::Family => trimmed(row.color_family@),
        Column::Kind => trimmed(row.color_type@),
    }
}

/// The identifier of a row's value in a column.
pub open spec fn ident_in(row: HierarchyRow, column: Column) -> Seq<char> {
    variant_ident(upper_camel(value_in(row, column)))
}

/// Whether nothing is wrong with row `j` of a column: its value and its
/// identifier are not empty, and no row before it has another value with its
/// identifier.
pub open spec fn row_is_fine(rows: Seq<HierarchyRow>, column: Column, j: int) -> bool {
    &&& value_in(rows[j], column).len() > 0
    &&& ident_in(rows[j], column).len() > 0
    &&& forall|i: int|
        0 <= i < j && ident_in(#[trigger] rows[i], column) == ident_in(rows[j], column)
            ==> value_in(rows[i], column) == value_in(rows[j], column)
}

proof fn lemma_row_is_fine(rows: Seq<HierarchyRow>, column: Column, j: int)
    requires
        0 <= j < rows.len(),
    ensures
        ({
            let values = column_values(rows, column);
            let idents = value_idents(values);
            &&& values[j] == value_in(rows[j], column)
            &&& idents[j] == ident_in(rows[j], column)
            &&& fault_at(values, idents, j) is None <==> row_is_fine(rows, column, j)
        }),
{
    let values = column_values(rows, column);
    let idents = value_idents(values);
    assert forall|i: int| 0 <= i < rows.len() implies #[trigger] values[i] == value_in(
        rows[i],
        column,
    ) && idents[i] == ident_in(rows[i], column) by {}
    if row_is_fine(rows, column, j) {
        assert forall|i: int| 0 <= i < j implies #[trigger] values[i] == values[j] || idents[i]
            != idents[j] by {
            assert(ident_in(rows[i], column) == idents[i]);
        }
    }
    if fault_at(values, idents, j) is None {
        assert forall|i: int|
            0 <= i < j && ident_in(#[trigger] rows[i], column) == ident_in(
                rows[j],
                column,
            ) implies value_in(rows[i], column) == value_in(rows[j], column) by {
            assert(values[i] == value_in(rows[i], column));
        }
    }
}

/// What the variants of a column are: each value that occurs, white space at
/// its ends aside, once, with the identifier made of it, in dictionary order,
/// and nothing else. There are variants exactly if nothing is wrong with any
/// row.
pub proof fn law_variants_are_the_values(
    rows: Vec<HierarchyRow>,
    column: Column,
    r: Result<Vec<Variant>, VariantError>,
)
    requires
        call_ensures(collect_enum_variants, (&rows, column), r),
    ensures
        r is Ok <==> forall|j: int| 0 <= j < rows@.len() ==> #[trigger] row_is_fine(
            rows@,
            column,
            j,
        ),
        r matches Ok(out) ==> {
            &&& forall|k: int, l: int|
                0 <= k < l < out@.len() ==> text_below(
                    (#[trigger] out@[k]).value@,
                    (#[trigger] out@[l]).value@,
                )
            &&& forall|i: int| 0 <= i < rows@.len() ==> has_variant(out@, #[trigger] rows@[i], column)
            &&& forall|k: int|
                0 <= k < out@.len() ==> is_of_a_row(rows@, column, #[trigger] out@[k])
        },
        r matches Err(VariantError::Empty { row }) ==> {
            &&& row < rows@.len()
            &&& value_in(rows@[row as int], column).len() == 0
            &&& forall|j: int| 0 <= j < row ==> #[trigger] row_is_fine(rows@, column, j)
        },
        r matches Err(VariantError::NoIdent { row }) ==> {
            &&& row < rows@.len()
            &&& value_in(rows@[row as int], column).len() > 0
            &&& ident_in(rows@[row as int], column).len() == 0
            &&& forall|j: int| 0 <= j < row ==> #[trigger] row_is_fine(rows@, column, j)
        },
        r matches Err(VariantError::Collision { row, ident }) ==> {
            &&& row < rows@.len()
            &&& ident@ == ident_in(rows@[row as int], column)
            &&& !row_is_fine(rows@, column, row as int)
            &&& value_in(rows@[row as int], column).len() > 0
            &&& ident@.len() > 0
            &&& forall|j: int| 0 <= j < row ==> #[trigger] row_is_fine(rows@, column, j)
        },
{
    let values = column_values(rows@, column);
    let idents = value_idents(values);
    assert forall|j: int| 0 <= j < rows@.len() implies {
        &&& #[trigger] values[j] == value_in(rows@[j], column)
        &&& idents[j] == ident_in(rows@[j], column)
        &&& fault_at(values, idents, j) is None <==> row_is_fine(rows@, column, j)
    } by {
        lemma_row_is_fine(rows@, column, j);
    }
    match r {
        Ok(out) => {
            assert forall|j: int| 0 <= j < rows@.len() implies #[trigger] row_is_fine(
                rows@,
                column,
                j,
            ) by {
                assert(values[j] == value_in(rows@[j], column));
                assert(fault_at(values, idents, j) is None);
            }
            let ps = pairs(out@);
            assert(variants_of(values, idents, ps));
            assert forall|k: int, l: int| 0 <= k < l < out@.len() implies text_below(
                (#[trigger] out@[k]).value@,
                (#[trigger] out@[l]).value@,
            ) by {
                assert(text_below(ps[k].0, ps[l].0));
            }
            assert forall|i: int| 0 <= i < rows@.len() implies has_variant(
                out@,
                #[trigger] rows@[i],
                column,
            ) by {
                assert(ps.contains((values[i], idents[i])));
                let k = choose|k: int| 0 <= k < ps.len() && ps[k] == (values[i], idents[i]);
                assert(out@[k]@ == ps[k]);
            }
            assert forall|k: int| 0 <= k < out@.len() implies is_of_a_row(
                rows@,
                column,
                #[trigger] out@[k],
            ) by {
                assert(ps[k] == out@[k]@);
                let i = choose|i: int|
                    0 <= i < values.len() && (#[trigger] values[i], idents[i]) == ps[k];
                assert(value_in(rows@[i], column) == out@[k].value@);
            }
        },
        Err(e) => {
            let row = match e {
                VariantError::Empty { row } => row,
                VariantError::NoIdent { row } => row,
                VariantError::Collision { row, ident } => row,
            };
            assert(values[row as int] == value_in(rows@[row as int], column));
            assert(!row_is_fine(rows@, column, row as int));
            assert forall|j: int| 0 <= j < row implies #[trigger] row_is_fine(rows@, column, j) by {
                assert(values[j] == value_in(rows@[j], column));
                assert(fault_at(values, idents, j) is None);
            }
        },
    }
}

/// Whether a variant for the row's value is there, with its identifier.
pub open spec fn has_variant(out: Seq<Variant>, row: HierarchyRow, column: Column) -> bool {
    exists|k: int|
        0 <= k < out.len() && (#[trigger] out[k]).value@ == value_in(row, column) && out[k].ident@
            == ident_in(row, column)
}

/// Whether a variant is for the value of some row, with its identifier.
pub open spec fn is_of_a_row(rows: Seq<HierarchyRow>, column: Column, v: Variant) -> bool {
    exists|i: int|
        0 <= i < rows.len() && value_in(#[trigger] rows[i], column) == v.value@ && ident_in(
            rows[i],
            column,
        ) == v.ident@
}

} // verus!
