//! What identifiers keep of the names they are made of.

use vstd::prelude::*;

verus! {

use crate::codegen::idents::{
    const_ident_from, enum_variant_ident, ident_chars, name_to_const_ident, shouty_snake, slashed,
    spell_slashes, upper_camel, variant_ident_from,
};

/// Whether `c` may stand in an identifier as it is: A to Z, a to z, 0 to 9.
pub open spec fn plain(c: char) -> bool {
    let n = c as int;
    (65 <= n && n <= 90) || (97 <= n && n <= 122) || (48 <= n && n <= 57)
}

/// Whether `out` is `s` with an underscore for each character that may not
/// stand in an identifier.
pub open spec fn underscored(s: Seq<char>, out: Seq<char>) -> bool {
    &&& out.len() == s.len()
    &&& forall|i: int|
        0 <= i < s.len() ==> if plain(s[i]) {
            #[trigger] out[i] == s[i]
        } else {
            out[i] == '_'
        }
}

/// Whether `out` is the identifier for `raw` with `prefix` for those that
/// would start with a digit.
pub open spec fn cleaned(prefix: Seq<char>, raw: Seq<char>, out: Seq<char>) -> bool {
    if raw.len() > 0 && 48 <= raw[0] as int <= 57 {
        &&& out.len() == prefix.len() + raw.len()
        &&& out.take(prefix.len() as int) == prefix
        &&& underscored(raw, out.skip(prefix.len() as int))
    } else {
        underscored(raw, out)
    }
}

proof fn lemma_cleaned(prefix: Seq<char>, raw: Seq<char>)
    ensures
        cleaned(prefix, raw, crate::codegen::idents::unless_digit_first(prefix, ident_chars(raw))),
{
    let s = ident_chars(raw);
    assert(underscored(raw, s));
    if raw.len() > 0 {
        assert(plain(raw[0]) ==> s[0] == raw[0]);
        if 48 <= raw[0] as int <= 57 {
            let out = prefix + s;
            assert(out.take(prefix.len() as int) =~= prefix);
            assert(out.skip(prefix.len() as int) =~= s);
        }
    }
}

/// A constant's identifier is cleaned.
pub proof fn lemma_constant(raw: Seq<char>)
    ensures
        cleaned(seq!['C', '_'], raw, crate::codegen::idents::const_ident(raw)),
{
    reveal_strlit("C_");
    assert("C_"@ =~= seq!['C', '_']);
    lemma_cleaned("C_"@, raw);
}

/// Cleaning keeps letters and digits of ASCII, puts an underscore for
/// everything else, and puts `C_` or `V_` before a digit at the start.
pub proof fn law_cleaning_keeps_letters_and_digits(raw: &str, constant: String, variant: String)
    requires
        call_ensures(const_ident_from, (raw,), constant),
        call_ensures(variant_ident_from, (raw,), variant),
    ensures
        cleaned(seq!['C', '_'], raw@, constant@),
        cleaned(seq!['V', '_'], raw@, variant@),
{
    reveal_strlit("C_");
    reveal_strlit("V_");
    assert("C_"@ =~= seq!['C', '_']);
    assert("V_"@ =~= seq!['V', '_']);
    lemma_cleaned("C_"@, raw@);
    lemma_cleaned("V_"@, raw@);
}

/// A text of letters, digits and underscores that does not start with a digit
/// is its own identifier.
pub proof fn law_identifiers_stay_as_they_are(raw: &str, constant: String, variant: String)
    requires
        call_ensures(const_ident_from, (raw,), constant),
        call_ensures(variant_ident_from, (raw,), variant),
        forall|i: int| 0 <= i < raw@.len() ==> plain(#[trigger] raw@[i]) || raw@[i] == '_',
        raw@.len() > 0 ==> !(48 <= raw@[0] as int <= 57),
    ensures
        constant@ == raw@,
        variant@ == raw@,
{
    law_cleaning_keeps_letters_and_digits(raw, constant, variant);
    assert(constant@ =~= raw@);
    assert(variant@ =~= raw@);
}

/// Slashes are spelled out one by one: a text in two parts is spelled as its
/// parts are, a text without a slash stays as it is, and a slash becomes
/// ` slash `.
pub proof fn law_slashes_are_spelled_out(
    one: &str,
    other: &str,
    both: &str,
    a: String,
    b: String,
    c: String,
)
    requires
        call_ensures(spell_slashes, (one,), a),
        call_ensures(spell_slashes, (other,), b),
        call_ensures(spell_slashes, (both,), c),
        both@ == one@ + other@,
    ensures
        c@ == a@ + b@,
        !one@.contains('/') ==> a@ == one@,
        one@ == seq!['/'] ==> a@ == seq![' ', 's', 'l', 'a', 's', 'h', ' '],
{
    lemma_slashed_add(one@, other@);
    if !one@.contains('/') {
        lemma_unslashed(one@);
    }
    if one@ == seq!['/'] {
        reveal_strlit(" slash ");
        reveal_with_fuel(slashed, 2);
        assert(one@.drop_last() =~= Seq::empty());
        assert(a@ =~= seq![' ', 's', 'l', 'a', 's', 'h', ' ']);
    }
}

proof fn lemma_slashed_add(one: Seq<char>, other: Seq<char>)
    ensures
        slashed(one + other) == slashed(one) + slashed(other),
    decreases other.len(),
{
    if other.len() == 0 {
        assert(one + other =~= one);
        assert(slashed(one) + slashed(other) =~= slashed(one));
    } else {
        lemma_slashed_add(one, other.drop_last());
        assert((one + other).drop_last() =~= one + other.drop_last());
        assert(slashed(one + other) =~= slashed(one) + slashed(other));
    }
}

proof fn lemma_unslashed(s: Seq<char>)
    requires
        !s.contains('/'),
    ensures
        slashed(s) == s,
    decreases s.len(),
{
    if s.len() > 0 {
        assert(s[s.len() - 1] != '/');
        assert forall|i: int| 0 <= i < s.drop_last().len() implies s.drop_last()[i] != '/' by {
            assert(s[i] != '/');
        }
        lemma_unslashed(s.drop_last());
        assert(slashed(s) =~= s);
    }
}

/// A name's constant is its words in SHOUTY_SNAKE_CASE, with slashes spelled
/// out before and cleaned after.
pub proof fn law_constants_of_names(name: &str, spelled: String, r: String)
    requires
        call_ensures(name_to_const_ident, (name,), r),
        call_ensures(spell_slashes, (name,), spelled),
    ensures
        cleaned(seq!['C', '_'], shouty_snake(spelled@), r@),
{
    reveal_strlit("C_");
    assert("C_"@ =~= seq!['C', '_']);
    lemma_cleaned("C_"@, shouty_snake(spelled@));
}

/// A value's variant is its words in UpperCamelCase, cleaned.
pub proof fn law_variants_of_values(value: &str, r: String)
    requires
        call_ensures(enum_variant_ident, (value,), r),
    ensures
        cleaned(seq!['V', '_'], upper_camel(value@), r@),
{
    reveal_strlit("V_");
    assert("V_"@ =~= seq!['V', '_']);
    lemma_cleaned("V_"@, upper_camel(value@));
}

} // verus!
