//! Enum variants collected from a column of the upstream table.

use vstd::prelude::*;

verus! {

use crate::codegen::hierarchy::{Column, HierarchyRow};
use crate::codegen::idents::{enum_variant_ident, upper_camel, variant_ident};
use crate::codegen::ledger_file::texts;
use crate::text::{
    lemma_text_order, lemma_text_order_chain, str_eq, text_below, text_less, trim, trimmed,
};

/// A variant: the column value and the identifier made of it.
#[derive(Debug, PartialEq, Eq)]
pub struct Variant {
    pub value: String,
    pub ident: String,
}

impl View for Variant {
    type V = (Seq<char>, Seq<char>);

    open spec fn view(&self) -> (Seq<char>, Seq<char>) {
        (self.value@, self.ident@)
    }
}

/// Why the values of a column cannot become an enum.
#[derive(Debug, PartialEq, Eq)]
pub enum VariantError {
    /// A row has no value.
    Empty { row: usize },
    /// A row's value makes no identifier.
    NoIdent { row: usize },
    /// A row's value makes the identifier of another value before it.
    Collision { row: usize, ident: String },
}

/// What is wrong with a row of a column, if anything.
pub enum Fault {
    Empty,
    NoIdent,
    Collision,
}

/// What is wrong with row `j`, given every row's value and the identifier
/// made of it.
pub open spec fn fault_at(
    values: Seq<Seq<char>>,
    idents: Seq<Seq<char>>,
    j: int,
) -> Option<Fault> {
    if values[j].len() == 0 {
        Some(Fault::Empty)
    } else if idents[j].len() == 0 {
        Some(Fault::NoIdent)
    } else if exists|i: int| 0 <= i < j && #[trigger] values[i] != values[j] && idents[i]
        == idents[j] {
        Some(Fault::Collision)
    } else {
        None
    }
}

/// Whether `e` reports the first row at fault, and what is wrong with it.
pub open spec fn reports_fault(
    values: Seq<Seq<char>>,
    idents: Seq<Seq<char>>,
    e: VariantError,
) -> bool {
    let (row, fault) = match e {
        VariantError::Empty { row } => (row, Fault::Empty),
        VariantError::NoIdent { row } => (row, Fault::NoIdent),
        VariantError::Collision { row, ident } => (row, Fault::Collision),
    };
    &&& row < values.len()
    &&& fault_at(values, idents, row as int) == Some(fault)
    &&& forall|i: int| 0 <= i < row ==> #[trigger] fault_at(values, idents, i) is None
    &&& e matches VariantError::Collision { row, ident } ==> ident@ == idents[row as int]
}

/// Whether no row is at fault.
pub open spec fn all_fit(values: Seq<Seq<char>>, idents: Seq<Seq<char>>) -> bool {
    forall|i: int| 0 <= i < values.len() ==> #[trigger] fault_at(values, idents, i) is None
}

/// The variants as values and identifiers.
pub open spec fn pairs(variants: Seq<Variant>) -> Seq<(Seq<char>, Seq<char>)> {
    variants.map_values(|v: Variant| v@)
}

/// Whether `out` holds every value once with its identifier, in dictionary
/// order, and nothing else.
pub open spec fn variants_of(
    values: Seq<Seq<char>>,
    idents: Seq<Seq<char>>,
    out: Seq<(Seq<char>, Seq<char>)>,
) -> bool {
    &&& forall|k: int, l: int|
        0 <= k < l < out.len() ==> text_below((#[trigger] out[k]).0, (#[trigger] out[l]).0)
    &&& forall|k: int|
        0 <= k < out.len() ==> exists|i: int|
            0 <= i < values.len() && (#[trigger] values[i], idents[i]) == #[trigger] out[k]
    &&& forall|i: int| 0 <= i < values.len() ==> out.contains((#[trigger] values[i], idents[i]))
}

/// Whether equal values come with equal identifiers.
pub open spec fn idents_fit(values: Seq<Seq<char>>, idents: Seq<Seq<char>>) -> bool {
    &&& values.len() == idents.len()
    &&& forall|i: int, j: int|
        0 <= i < values.len() && 0 <= j < values.len() && #[trigger] values[i]
            == #[trigger] values[j] ==> idents[i] == idents[j]
}

/// The place of `value` among variants in dictionary order: every variant
/// before it has a lesser value, none from it on has.
fn place_of(variants: &Vec<Variant>, value: &str) -> (p: usize)
    requires
        forall|k: int, l: int|
            0 <= k < l < variants@.len() ==> text_below(
                (#[trigger] variants@[k]).value@,
                (#[trigger] variants@[l]).value@,
            ),
    ensures
        p <= variants@.len(),
        forall|k: int| 0 <= k < p ==> text_below((#[trigger] variants@[k]).value@, value@),
        forall|k: int|
            p <= k < variants@.len() ==> !text_below((#[trigger] variants@[k]).value@, value@),
{
    let mut p: usize = 0;
    while p < variants.len() && text_less(variants[p].value.as_str(), value)
        invariant
            p <= variants@.len(),
            forall|k: int| 0 <= k < p ==> text_below((#[trigger] variants@[k]).value@, value@),
        decreases variants@.len() - p,
    {
        p += 1;
    }
    proof {
        assert forall|k: int| p <= k < variants@.len() implies !text_below(
            (#[trigger] variants@[k]).value@,
            value@,
        ) by {
            if k > p && text_below(variants@[k].value@, value@) {
                lemma_text_order_chain(variants@[p as int].value@, variants@[k].value@, value@);
            }
        }
    }
    p
}

/// The variants for the given values and the identifiers made of them, in
/// dictionary order of the values.
pub fn merge_variants(values: &Vec<String>, idents: &Vec<String>) -> (r: Result<
    Vec<Variant>,
    VariantError,
>)
    requires
        idents_fit(texts(values@), texts(idents@)),
    ensures
        match r {
            Ok(out) => {
                &&& all_fit(texts(values@), texts(idents@))
                &&& variants_of(texts(values@), texts(idents@), pairs(out@))
            },
            Err(e) => reports_fault(texts(values@), texts(idents@), e),
        },
{
    let ghost v = texts(values@);
    let ghost d = texts(idents@);
    let mut out: Vec<Variant> = Vec::new();
    let mut j: usize = 0;
    while j < values.len()
        invariant
            j <= values@.len(),
            v == texts(values@),
            d == texts(idents@),
            idents_fit(v, d),
            forall|i: int| 0 <= i < j ==> #[trigger] fault_at(v, d, i) is None,
            variants_of(v.take(j as int), d.take(j as int), pairs(out@)),
        decreases values@.len() - j,
    {
        let ghost vt = v.take(j as int);
        let ghost dt = d.take(j as int);
        let ghost before = pairs(out@);
        let value: &String = &values[j];
        let ident: &String = &idents[j];
        assert(v[j as int] == value@ && d[j as int] == ident@);
        proof {
            assert forall|k: int, l: int| 0 <= k < l < out@.len() implies text_below(
                (#[trigger] out@[k]).value@,
                (#[trigger] out@[l]).value@,
            ) by {
                assert(text_below(before[k].0, before[l].0));
            }
        }
        if str_eq(value.as_str(), "") {
            proof {
                reveal_strlit("");
            }
            return Err(VariantError::Empty { row: j });
        }
        if str_eq(ident.as_str(), "") {
            proof {
                reveal_strlit("");
                lemma_not_empty(value@);
            }
            return Err(VariantError::NoIdent { row: j });
        }
        proof {
            lemma_not_empty(value@);
            lemma_not_empty(ident@);
        }
        let p: usize = place_of(&out, value.as_str());
        if p < out.len() && str_eq(out[p].value.as_str(), value.as_str()) {
            proof {
                assert(before[p as int] == out@[p as int]@);
                lemma_known_value(v, d, j as int, before, p as int);
            }
            j += 1;
            continue;
        }
        proof {
            lemma_new_value(before, p as int, value@);
        }
        let mut k: usize = 0;
        while k < out.len()
            invariant
                k <= out@.len(),
                before == pairs(out@),
                j < values@.len(),
                value@ == v[j as int],
                ident@ == d[j as int],
                v == texts(values@),
                d == texts(idents@),
                vt == v.take(j as int),
                dt == d.take(j as int),
                v.len() == d.len(),
                value@.len() > 0,
                ident@.len() > 0,
                variants_of(vt, dt, before),
                forall|i: int| 0 <= i < j ==> #[trigger] fault_at(v, d, i) is None,
                forall|l: int| 0 <= l < before.len() ==> (#[trigger] before[l]).0 != value@,
                forall|l: int| 0 <= l < k ==> (#[trigger] before[l]).1 != ident@,
            decreases out@.len() - k,
        {
            assert(before[k as int] == out@[k as int]@);
            if str_eq(out[k].ident.as_str(), ident.as_str()) {
                proof {
                    let i = choose|i: int|
                        0 <= i < vt.len() && (#[trigger] vt[i], dt[i]) == before[k as int];
                    assert(v[i] == vt[i] && d[i] == dt[i]);
                    assert(v[i] != v[j as int] && d[i] == d[j as int]);
                }
                return Err(VariantError::Collision { row: j, ident: ident.clone() });
            }
            k += 1;
        }
        proof {
            lemma_no_collision(v, d, j as int, before);
        }
        let new: Variant = Variant { value: value.clone(), ident: ident.clone() };
        out.insert(p, new);
        proof {
            let after = pairs(out@);
            assert(after =~= before.insert(p as int, (value@, ident@)));
            lemma_inserted(v, d, j as int, before, p as int);
        }
        j += 1;
    }
    assert(v.take(j as int) =~= v);
    assert(d.take(j as int) =~= d);
    Ok(out)
}

proof fn lemma_not_empty(s: Seq<char>)
    ensures
        s.len() == 0 <==> s == ""@,
{
    reveal_strlit("");
    if s.len() == 0 {
        assert(s =~= ""@);
    }
}

/// A value that is there already keeps the variants as they are.
proof fn lemma_known_value(
    v: Seq<Seq<char>>,
    d: Seq<Seq<char>>,
    j: int,
    out: Seq<(Seq<char>, Seq<char>)>,
    p: int,
)
    requires
        0 <= j < v.len(),
        idents_fit(v, d),
        v[j].len() > 0,
        d[j].len() > 0,
        forall|i: int| 0 <= i < j ==> #[trigger] fault_at(v, d, i) is None,
        variants_of(v.take(j), d.take(j), out),
        0 <= p < out.len(),
        out[p].0 == v[j],
    ensures
        fault_at(v, d, j) is None,
        variants_of(v.take(j + 1), d.take(j + 1), out),
{
    let (vt, dt) = (v.take(j), d.take(j));
    let (vn, dn) = (v.take(j + 1), d.take(j + 1));
    let i = choose|i: int| 0 <= i < vt.len() && (#[trigger] vt[i], dt[i]) == out[p];
    assert(v[i] == v[j] && d[i] == d[j]);
    if exists|a: int| 0 <= a < j && #[trigger] v[a] != v[j] && d[a] == d[j] {
        let a = choose|a: int| 0 <= a < j && #[trigger] v[a] != v[j] && d[a] == d[j];
        if a < i {
            assert(v[a] != v[i] && d[a] == d[i]);
            assert(fault_at(v, d, i) is None);
        } else {
            assert(v[i] != v[a] && d[i] == d[a]);
            assert(fault_at(v, d, a) is None);
        }
        assert(false);
    }
    assert forall|k: int| 0 <= k < out.len() implies exists|i: int|
        0 <= i < vn.len() && (#[trigger] vn[i], dn[i]) == #[trigger] out[k] by {
        let i = choose|i: int| 0 <= i < vt.len() && (#[trigger] vt[i], dt[i]) == out[k];
        assert((vn[i], dn[i]) == out[k]);
    }
    assert forall|i: int| 0 <= i < vn.len() implies out.contains((#[trigger] vn[i], dn[i])) by {
        if i < j {
            assert(vt[i] == vn[i] && dt[i] == dn[i]);
            assert(out.contains((vt[i], dt[i])));
        } else {
            assert(out[p] == (vn[i], dn[i]));
        }
    }
}

/// A value whose place is not its own is not there.
proof fn lemma_new_value(out: Seq<(Seq<char>, Seq<char>)>, p: int, value: Seq<char>)
    requires
        0 <= p <= out.len(),
        forall|k: int, l: int|
            0 <= k < l < out.len() ==> text_below((#[trigger] out[k]).0, (#[trigger] out[l]).0),
        forall|k: int| 0 <= k < p ==> text_below((#[trigger] out[k]).0, value),
        forall|k: int| p <= k < out.len() ==> !text_below((#[trigger] out[k]).0, value),
        p < out.len() ==> out[p].0 != value,
    ensures
        forall|k: int| p <= k < out.len() ==> text_below(value, (#[trigger] out[k]).0),
        forall|k: int| 0 <= k < out.len() ==> (#[trigger] out[k]).0 != value,
{
    lemma_text_order(value, value);
    if p < out.len() {
        lemma_text_order(value, out[p].0);
    }
    assert forall|k: int| p <= k < out.len() implies text_below(value, (#[trigger] out[k]).0) by {
        if k > p {
            assert(text_below(out[p].0, out[k].0));
            lemma_text_order_chain(value, out[p].0, out[k].0);
        }
    }
}

/// A value whose identifier no variant has is not at fault.
proof fn lemma_no_collision(
    v: Seq<Seq<char>>,
    d: Seq<Seq<char>>,
    j: int,
    out: Seq<(Seq<char>, Seq<char>)>,
)
    requires
        0 <= j < v.len() == d.len(),
        v[j].len() > 0,
        d[j].len() > 0,
        variants_of(v.take(j), d.take(j), out),
        forall|l: int| 0 <= l < out.len() ==> (#[trigger] out[l]).1 != d[j],
    ensures
        fault_at(v, d, j) is None,
{
    let (vt, dt) = (v.take(j), d.take(j));
    assert forall|i: int| 0 <= i < j implies d[i] != d[j] || #[trigger] v[i] == v[j] by {
        assert(out.contains((vt[i], dt[i])));
        let l = choose|l: int| 0 <= l < out.len() && out[l] == (vt[i], dt[i]);
        assert(out[l].1 == d[i]);
    }
}

/// A new value is put in its place.
proof fn lemma_inserted(
    v: Seq<Seq<char>>,
    d: Seq<Seq<char>>,
    j: int,
    out: Seq<(Seq<char>, Seq<char>)>,
    p: int,
)
    requires
        0 <= j < v.len() == d.len(),
        variants_of(v.take(j), d.take(j), out),
        0 <= p <= out.len(),
        forall|k: int| 0 <= k < p ==> text_below((#[trigger] out[k]).0, v[j]),
        forall|k: int| p <= k < out.len() ==> text_below(v[j], (#[trigger] out[k]).0),
    ensures
        variants_of(v.take(j + 1), d.take(j + 1), out.insert(p, (v[j], d[j]))),
{
    let (vt, dt) = (v.take(j), d.take(j));
    let (vn, dn) = (v.take(j + 1), d.take(j + 1));
    let after = out.insert(p, (v[j], d[j]));
    let from = |k: int|
        if k < p {
            k
        } else {
            k - 1
        };
    assert(forall|k: int| 0 <= k < after.len() && k != p ==> (#[trigger] after[k]) == out[from(k)]);
    assert(after[p] == (v[j], d[j]));
    assert forall|k: int, l: int| 0 <= k < l < after.len() implies text_below(
        (#[trigger] after[k]).0,
        (#[trigger] after[l]).0,
    ) by {
        if k != p && l != p {
            assert(text_below(out[from(k)].0, out[from(l)].0));
        }
    }
    assert forall|k: int| 0 <= k < after.len() implies exists|i: int|
        0 <= i < vn.len() && (#[trigger] vn[i], dn[i]) == #[trigger] after[k] by {
        if k == p {
            assert((vn[j], dn[j]) == after[k]);
        } else {
            let q = from(k);
            assert(after[k] == out[q]);
            let i = choose|i: int| 0 <= i < vt.len() && (#[trigger] vt[i], dt[i]) == out[q];
            assert((vn[i], dn[i]) == after[k]);
        }
    }
    assert forall|i: int| 0 <= i < vn.len() implies after.contains((#[trigger] vn[i], dn[i])) by {
        if i < j {
            assert(out.contains((vt[i], dt[i])));
            let q = choose|q: int| 0 <= q < out.len() && out[q] == (vt[i], dt[i]);
            let k = if q < p {
                q
            } else {
                q + 1
            };
            assert(after[k] == out[q]);
        } else {
            assert(after[p] == (vn[i], dn[i]));
        }
    }
}

/// The values of a column, without white space around them.
pub open spec fn column_values(rows: Seq<HierarchyRow>, column: Column) -> Seq<Seq<char>> {
    rows.map_values(|row: HierarchyRow| trimmed(column.of(row)))
}

/// The identifiers made of the given values.
pub open spec fn value_idents(values: Seq<Seq<char>>) -> Seq<Seq<char>> {
    values.map_values(|value: Seq<char>| variant_ident(upper_camel(value)))
}

/// Every distinct value of a column with the identifier made of it, in
/// dictionary order of the values. Two values that make the same identifier
/// are refused, and so is a row without a value.
pub fn collect_enum_variants(rows: &Vec<HierarchyRow>, column: Column) -> (r: Result<
    Vec<Variant>,
    VariantError,
>)
    ensures
        ({
            let values = column_values(rows@, column);
            match r {
                Ok(out) => {
                    &&& all_fit(values, value_idents(values))
                    &&& variants_of(values, value_idents(values), pairs(out@))
                },
                Err(e) => reports_fault(values, value_idents(values), e),
            }
        }),
{
    let ghost want = column_values(rows@, column);
    let mut values: Vec<String> = Vec::new();
    let mut idents: Vec<String> = Vec::new();
    let mut i: usize = 0;
    while i < rows.len()
        invariant
            i <= rows@.len(),
            want == column_values(rows@, column),
            texts(values@) == want.take(i as int),
            texts(idents@) == value_idents(want).take(i as int),
        decreases rows@.len() - i,
    {
        let value: String = trim(column.value(&rows[i]));
        let ident: String = enum_variant_ident(value.as_str());
        let ghost (v, d) = (values@, idents@);
        proof {
            assert(want[i as int] == value@);
            assert(value_idents(want)[i as int] == ident@);
        }
        values.push(value);
        idents.push(ident);
        i += 1;
        proof {
            assert(texts(values@) =~= texts(v).push(want[i - 1]));
            assert(texts(idents@) =~= texts(d).push(value_idents(want)[i - 1]));
            assert(texts(values@) =~= want.take(i as int));
            assert(texts(idents@) =~= value_idents(want).take(i as int));
        }
    }
    assert(want.take(i as int) =~= want);
    assert(value_idents(want).take(i as int) =~= value_idents(want));
    merge_variants(&values, &idents)
}

/// The place of the variant for `value`, if there is one.
pub fn find_variant(variants: &Vec<Variant>, value: &str) -> (r: Option<usize>)
    ensures
        match r {
            Some(k) => k < variants@.len() && variants@[k as int].value@ == value@ && forall|l: int|
                0 <= l < k ==> (#[trigger] variants@[l]).value@ != value@,
            None => forall|l: int|
                0 <= l < variants@.len() ==> (#[trigger] variants@[l]).value@ != value@,
        },
{
    let mut k: usize = 0;
    while k < variants.len()
        invariant
            k <= variants@.len(),
            forall|l: int| 0 <= l < k ==> (#[trigger] variants@[l]).value@ != value@,
        decreases variants@.len() - k,
    {
        if str_eq(variants[k].value.as_str(), value) {
            return Some(k);
        }
        k += 1;
    }
    None
}

/// What the variants of a column are does not depend on the order of its
/// rows.
pub proof fn law_row_order_does_not_matter(
    values: Seq<Seq<char>>,
    idents: Seq<Seq<char>>,
    others: Seq<Seq<char>>,
    other_idents: Seq<Seq<char>>,
    one: Seq<(Seq<char>, Seq<char>)>,
    other: Seq<(Seq<char>, Seq<char>)>,
)
    requires
        values.len() == idents.len(),
        others.len() == other_idents.len(),
        values.zip_with(idents).to_multiset() == others.zip_with(other_idents).to_multiset(),
        variants_of(values, idents, one),
        variants_of(others, other_idents, other),
    ensures
        one == other,
{
    assert forall|x: (Seq<char>, Seq<char>)| one.contains(x) == #[trigger] other.contains(x) by {
        lemma_members(values, idents, one, x);
        lemma_members(others, other_idents, other, x);
        broadcast use vstd::seq_lib::group_to_multiset_ensures;

        let (a, b) = (values.zip_with(idents), others.zip_with(other_idents));
        assert(a.contains(x) <==> a.to_multiset().count(x) > 0);
        assert(b.contains(x) <==> b.to_multiset().count(x) > 0);
    }
    lemma_ascending_same_members(one, other);
}

/// The variants are the rows' values with their identifiers.
proof fn lemma_members(
    values: Seq<Seq<char>>,
    idents: Seq<Seq<char>>,
    out: Seq<(Seq<char>, Seq<char>)>,
    x: (Seq<char>, Seq<char>),
)
    requires
        values.len() == idents.len(),
        variants_of(values, idents, out),
    ensures
        out.contains(x) == values.zip_with(idents).contains(x),
{
    let z = values.zip_with(idents);
    if out.contains(x) {
        let k = choose|k: int| 0 <= k < out.len() && out[k] == x;
        let i = choose|i: int| 0 <= i < values.len() && (#[trigger] values[i], idents[i]) == out[k];
        assert(z[i] == x);
    }
    if z.contains(x) {
        let i = choose|i: int| 0 <= i < z.len() && z[i] == x;
        assert(out.contains((values[i], idents[i])));
    }
}

/// Two strictly ascending sequences with the same members are the same.
proof fn lemma_ascending_same_members(
    one: Seq<(Seq<char>, Seq<char>)>,
    other: Seq<(Seq<char>, Seq<char>)>,
)
    requires
        forall|k: int, l: int|
            0 <= k < l < one.len() ==> text_below((#[trigger] one[k]).0, (#[trigger] one[l]).0),
        forall|k: int, l: int|
            0 <= k < l < other.len() ==> text_below(
                (#[trigger] other[k]).0,
                (#[trigger] other[l]).0,
            ),
        forall|x: (Seq<char>, Seq<char>)| one.contains(x) == #[trigger] other.contains(x),
    ensures
        one == other,
    decreases one.len(),
{
    if one.len() == 0 {
        if other.len() > 0 {
            assert(other.contains(other[0]));
        }
        assert(one =~= other);
    } else {
        assert(one.contains(one.last()));
        assert(other.contains(one.last()));
        let m = other.len() - 1;
        assert(other.contains(other[m]));
        assert(one.contains(other[m]));
        let a = choose|a: int| 0 <= a < one.len() && one[a] == other[m];
        let b = choose|b: int| 0 <= b < other.len() && other[b] == one.last();
        lemma_text_order(one.last().0, other[m].0);
        assert(one.last() == other[m]);
        let (x, y) = (one.drop_last(), other.drop_last());
        assert forall|z: (Seq<char>, Seq<char>)| x.contains(z) == #[trigger] y.contains(z) by {
            lemma_text_order(one.last().0, one.last().0);
            if x.contains(z) {
                let i = choose|i: int| 0 <= i < x.len() && x[i] == z;
                assert(text_below(one[i].0, one.last().0));
                assert(one.contains(z));
                assert(other.contains(z));
                let q = choose|q: int| 0 <= q < other.len() && other[q] == z;
                assert(q != m);
                assert(y[q] == z);
            }
            if y.contains(z) {
                let i = choose|i: int| 0 <= i < y.len() && y[i] == z;
                assert(text_below(other[i].0, other[m].0));
                assert(other.contains(z));
                assert(one.contains(z));
                let q = choose|q: int| 0 <= q < one.len() && one[q] == z;
                assert(q != one.len() - 1);
                assert(x[q] == z);
            }
        }
        lemma_ascending_same_members(x, y);
        assert(one =~= x.push(one.last()));
        assert(other =~= y.push(other[m]));
    }
}

} // verus!
