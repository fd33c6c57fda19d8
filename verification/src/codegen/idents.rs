//! Identifiers made of names.

use heck::{ToShoutySnakeCase, ToUpperCamelCase};

use vstd::prelude::*;

verus! {

use crate::text::chars_of;

/// What `heck` makes of a text in SHOUTY_SNAKE_CASE.
pub uninterp spec fn shouty_snake(s: Seq<char>) -> Seq<char>;

/// What `heck` makes of a text in UpperCamelCase.
pub uninterp spec fn upper_camel(s: Seq<char>) -> Seq<char>;

/// `heck::ToShoutySnakeCase`: the result is named, and depends on the text
/// alone.
#[verifier::external_body]
fn to_shouty_snake(s: &str) -> (r: String)
    ensures
        r@ == shouty_snake(s@),
{
    s.to_shouty_snake_case()
}

/// `heck::ToUpperCamelCase`: the result is named, and depends on the text
/// alone.
#[verifier::external_body]
fn to_upper_camel(s: &str) -> (r: String)
    ensures
        r@ == upper_camel(s@),
{
    s.to_upper_camel_case()
}

/// `s` with every slash made a word of its own.
pub open spec fn slashed(s: Seq<char>) -> Seq<char>
    decreases s.len(),
{
    if s.len() == 0 {
        s
    } else if s.last() == '/' {
        slashed(s.drop_last()) + " slash "@
    } else {
        slashed(s.drop_last()).push(s.last())
    }
}

/// Whether `c` is an ASCII digit.
pub open spec fn ascii_digit(c: char) -> bool {
    '0' <= c <= '9'
}

/// Whether `c` is an ASCII letter or digit.
pub open spec fn ascii_alphanumeric(c: char) -> bool {
    ascii_digit(c) || 'A' <= c <= 'Z' || 'a' <= c <= 'z'
}

/// `s` with everything but ASCII letters and digits made an underscore.
pub open spec fn ident_chars(s: Seq<char>) -> Seq<char> {
    s.map_values(
        |c: char|
            if ascii_alphanumeric(c) {
                c
            } else {
                '_'
            },
    )
}

/// `s`, behind `prefix` if it starts with a digit.
pub open spec fn unless_digit_first(prefix: Seq<char>, s: Seq<char>) -> Seq<char> {
    if s.len() > 0 && ascii_digit(s[0]) {
        prefix + s
    } else {
        s
    }
}

/// The constant's identifier for a name in SHOUTY_SNAKE_CASE.
pub open spec fn const_ident(raw: Seq<char>) -> Seq<char> {
    unless_digit_first("C_"@, ident_chars(raw))
}

/// The variant's identifier for a value in UpperCamelCase.
pub open spec fn variant_ident(camel: Seq<char>) -> Seq<char> {
    unless_digit_first("V_"@, ident_chars(camel))
}

fn is_digit(c: char) -> (b: bool)
    ensures
        b == ascii_digit(c),
{
    let n: u32 = c as u32;
    48 <= n && n <= 57
}

fn is_alphanumeric(c: char) -> (b: bool)
    ensures
        b == ascii_alphanumeric(c),
{
    let n: u32 = c as u32;
    (48 <= n && n <= 57) || (65 <= n && n <= 90) || (97 <= n && n <= 122)
}

fn clean_ident(prefix: &str, raw: &str) -> (r: String)
    ensures
        r@ == unless_digit_first(prefix@, ident_chars(raw@)),
{
    let v: Vec<char> = chars_of(raw);
    let mut r: String = String::new();
    let ghost want = ident_chars(v@);
    if v.len() > 0 && is_digit(v[0]) {
        r.append(prefix);
    }
    let ghost head = r@;
    proof {
        if v@.len() > 0 {
            assert(ascii_digit(want[0]) == ascii_digit(v@[0]));
        }
    }
    let mut i: usize = 0;
    assert(r@ =~= head + want.take(0));
    while i < v.len()
        invariant
            i <= v@.len(),
            want == ident_chars(v@),
            r@ == head + want.take(i as int),
        decreases v@.len() - i,
    {
        let c: char = if is_alphanumeric(v[i]) {
            v[i]
        } else {
            '_'
        };
        r.push(c);
        assert(want[i as int] == c);
        i += 1;
        assert(r@ =~= head + want.take(i as int));
    }
    assert(want.take(i as int) =~= want);
    assert(r@ =~= unless_digit_first(prefix@, want));
    r
}

/// The constant's identifier for a name in SHOUTY_SNAKE_CASE: everything but
/// ASCII letters and digits made an underscore, and a prefix if it starts
/// with a digit.
pub fn const_ident_from(raw: &str) -> (r: String)
    ensures
        r@ == const_ident(raw@),
{
    clean_ident("C_", raw)
}

/// The variant's identifier for a value in UpperCamelCase, cleaned likewise.
pub fn variant_ident_from(camel: &str) -> (r: String)
    ensures
        r@ == variant_ident(camel@),
{
    clean_ident("V_", camel)
}

/// `name` with every slash made a word of its own.
pub fn spell_slashes(name: &str) -> (r: String)
    ensures
        r@ == slashed(name@),
{
    let v: Vec<char> = chars_of(name);
    let mut r: String = String::new();
    let mut i: usize = 0;
    while i < v.len()
        invariant
            i <= v@.len(),
            r@ == slashed(v@.take(i as int)),
        decreases v@.len() - i,
    {
        assert(v@.take(i + 1).drop_last() =~= v@.take(i as int));
        if v[i] == '/' {
            r.append(" slash ");
        } else {
            r.push(v[i]);
        }
        i += 1;
    }
    assert(v@.take(i as int) =~= v@);
    r
}

/// The constant's identifier for a colour's name. A slash is spelled out
/// first, so that names that differ in a slash and a space stay apart.
pub fn name_to_const_ident(name: &str) -> (r: String)
    ensures
        r@ == const_ident(shouty_snake(slashed(name@))),
{
    let spelled: String = spell_slashes(name);
    let raw: String = to_shouty_snake(spelled.as_str());
    const_ident_from(raw.as_str())
}

/// The enum variant's identifier for a column value.
pub fn enum_variant_ident(value: &str) -> (r: String)
    ensures
        r@ == variant_ident(upper_camel(value@)),
{
    let camel: String = to_upper_camel(value);
    variant_ident_from(camel.as_str())
}

/// A made identifier holds only ASCII letters, digits and underscores, and
/// does not start with a digit.
pub proof fn law_idents_are_plain(raw: Seq<char>)
    ensures
        forall|i: int|
            0 <= i < const_ident(raw).len() ==> ascii_alphanumeric(
                #[trigger] const_ident(raw)[i],
            ) || const_ident(raw)[i] == '_',
        const_ident(raw).len() > 0 ==> !ascii_digit(const_ident(raw)[0]),
        forall|i: int|
            0 <= i < variant_ident(raw).len() ==> ascii_alphanumeric(
                #[trigger] variant_ident(raw)[i],
            ) || variant_ident(raw)[i] == '_',
        variant_ident(raw).len() > 0 ==> !ascii_digit(variant_ident(raw)[0]),
{
    reveal_strlit("C_");
    reveal_strlit("V_");
    let s = ident_chars(raw);
    assert forall|i: int| 0 <= i < s.len() implies ascii_alphanumeric(#[trigger] s[i]) || s[i]
        == '_' by {}
    if s.len() > 0 && ascii_digit(s[0]) {
        assert forall|i: int| 0 <= i < const_ident(raw).len() implies ascii_alphanumeric(
            #[trigger] const_ident(raw)[i],
        ) || const_ident(raw)[i] == '_' by {
            if i >= 2 {
                assert(const_ident(raw)[i] == s[i - 2]);
            }
        }
        assert forall|i: int| 0 <= i < variant_ident(raw).len() implies ascii_alphanumeric(
            #[trigger] variant_ident(raw)[i],
        ) || variant_ident(raw)[i] == '_' by {
            if i >= 2 {
                assert(variant_ident(raw)[i] == s[i - 2]);
            }
        }
    }
}

} // verus!
