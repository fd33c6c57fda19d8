//! What the source of a generated enum is made of.

use vstd::prelude::*;

verus! {

use crate::codegen::variants::Variant;

/// The most variants that a one-byte representation holds.
pub const MAX_VARIANTS: usize = 256;

/// A generated enum: its name, its documentation, that of its `as_str`, and
/// its variants, each with its documentation.
#[derive(Debug)]
pub struct EnumPlan {
    pub name: String,
    pub enum_doc: String,
    pub as_str_doc: String,
    pub variants: Vec<VariantPlan>,
}

/// A variant of a generated enum.
#[derive(Debug)]
pub struct VariantPlan {
    pub doc: String,
    pub ident: String,
    pub value: String,
}

/// The documentation of the enum.
pub open spec fn enum_doc(
    name: Seq<char>,
    summary: Seq<char>,
    column: Seq<char>,
) -> Seq<char> {
    " "@ + summary + " sourced from the upstream `color_hierarchy.csv` \n`"@ + column
        + "` column. Marked `#[non_exhaustive]` so adding a \nnew upstream value is a non-breaking change for downstream \nconsumers; call [`"@
        + name
        + "::as_str`] to get the original \nstring back when you need to feed it into a search index."@
}

/// The documentation of the enum's `as_str`.
pub open spec fn as_str_doc(column: Seq<char>) -> Seq<char> {
    " The original `"@ + column
        + "` string for this variant — exactly what appears in `color_hierarchy.csv`."@
}

/// The documentation of a variant.
pub open spec fn variant_doc(value: Seq<char>) -> Seq<char> {
    " Variant for `"@ + value + "`."@
}

/// Whether `plan` is that of the enum for the given variants, in their order.
pub open spec fn plans(
    plan: EnumPlan,
    name: Seq<char>,
    values: Seq<Variant>,
    summary: Seq<char>,
    column: Seq<char>,
) -> bool {
    &&& plan.name@ == name
    &&& plan.enum_doc@ == enum_doc(name, summary, column)
    &&& plan.as_str_doc@ == as_str_doc(column)
    &&& plan.variants@.len() == values.len()
    &&& forall|k: int|
        0 <= k < values.len() ==> {
            &&& (#[trigger] plan.variants@[k]).value@ == values[k].value@
            &&& plan.variants@[k].ident@ == values[k].ident@
            &&& plan.variants@[k].doc@ == variant_doc(values[k].value@)
        }
}

/// Plans the enum for the given variants, in their order; `None` if there are
/// more than a one-byte representation holds.
pub fn plan_enum(
    name: &str,
    values: &Vec<Variant>,
    summary: &str,
    column: &str,
) -> (r: Option<EnumPlan>)
    ensures
        r is Some <==> values@.len() <= MAX_VARIANTS,
        r matches Some(plan) ==> plans(plan, name@, values@, summary@, column@),
{
    if values.len() > MAX_VARIANTS {
        return None;
    }
    let mut doc: String = " ".to_owned();
    doc.append(summary);
    doc.append(" sourced from the upstream `color_hierarchy.csv` \n`");
    doc.append(column);
    doc.append(
        "` column. Marked `#[non_exhaustive]` so adding a \nnew upstream value is a non-breaking change for downstream \nconsumers; call [`",
    );
    doc.append(name);
    doc.append(
        "::as_str`] to get the original \nstring back when you need to feed it into a search index.",
    );
    let mut method_doc: String = " The original `".to_owned();
    method_doc.append(column);
    method_doc.append(
        "` string for this variant — exactly what appears in `color_hierarchy.csv`.",
    );
    let mut variants: Vec<VariantPlan> = Vec::new();
    let mut k: usize = 0;
    while k < values.len()
        invariant
            k <= values@.len(),
            variants@.len() == k,
            forall|l: int|
                0 <= l < k ==> {
                    &&& (#[trigger] variants@[l]).value@ == values@[l].value@
                    &&& variants@[l].ident@ == values@[l].ident@
                    &&& variants@[l].doc@ == variant_doc(values@[l].value@)
                },
        decreases values@.len() - k,
    {
        let mut line: String = " Variant for `".to_owned();
        line.append(values[k].value.as_str());
        line.append("`.");
        variants.push(
            VariantPlan {
                doc: line,
                ident: values[k].ident.clone(),
                value: values[k].value.clone(),
            },
        );
        k += 1;
    }
    Some(
        EnumPlan {
            name: name.to_owned(),
            enum_doc: doc,
            as_str_doc: method_doc,
            variants,
        },
    )
}

} // verus!
