//! What the words and formulas of the algorithms are.

use vstd::prelude::*;

verus! {

use crate::algorithm::{Algorithm, ParseAlgorithmError, roster};
use crate::distance::Metric;
use crate::text::{same_ignoring_case, str_eq_ignore_ascii_case};

/// Each algorithm has its word, and measures by its own formula.
pub proof fn law_words_and_formulas(a: Algorithm, word: &'static str, metric: Metric)
    requires
        call_ensures(Algorithm::as_str, (&a,), word),
        call_ensures(Algorithm::metric, (&a,), metric),
    ensures
        a is DeltaE76 <==> word@ == "delta-e-76"@,
        a is Cie94 <==> word@ == "cie94"@,
        a is Ciede2000 <==> word@ == "ciede2000"@,
        a is Ciede2000Exact <==> word@ == "ciede2000-exact"@,
        a is DeltaE76 <==> metric is DeltaE76,
        a is Cie94 <==> metric is Cie94,
        a is Ciede2000 || a is Ciede2000Exact <==> metric is Ciede2000,
{
    reveal_strlit("delta-e-76");
    reveal_strlit("cie94");
    reveal_strlit("ciede2000");
    reveal_strlit("ciede2000-exact");
    assert("delta-e-76"@.len() == 10 && "cie94"@.len() == 5 && "ciede2000"@.len() == 9
        && "ciede2000-exact"@.len() == 15);
}

/// A word is read as the algorithm whose word it is, ASCII case aside, and a
/// word that is read names no other.
pub proof fn law_words_are_read_back(
    s: &str,
    a: Algorithm,
    word: &'static str,
    same: bool,
    r: Result<Algorithm, ParseAlgorithmError>,
)
    requires
        call_ensures(Algorithm::as_str, (&a,), word),
        call_ensures(str_eq_ignore_ascii_case, (s, word), same),
        call_ensures(Algorithm::parse, (s,), r),
    ensures
        same <==> r == Ok::<Algorithm, ParseAlgorithmError>(a),
        same_ignoring_case(word@, word@),
{
}

/// The words are listed in order, and the message of a refused word lists
/// them in quotes.
pub proof fn law_the_list_of_words(words: Vec<&'static str>, e: ParseAlgorithmError, s: String)
    requires
        call_ensures(roster, (), words),
        call_ensures(ParseAlgorithmError::to_string, (&e,), s),
    ensures
        words@.len() == 4,
        words@[0]@ == "delta-e-76"@,
        words@[1]@ == "cie94"@,
        words@[2]@ == "ciede2000"@,
        words@[3]@ == "ciede2000-exact"@,
        s@ == "unknown algorithm; expected one of \"delta-e-76\", \"cie94\", \"ciede2000\", \"ciede2000-exact\""@,
{
    reveal_strlit("unknown algorithm; expected one of ");
    reveal_strlit(", ");
    reveal_strlit("delta-e-76");
    reveal_strlit("cie94");
    reveal_strlit("ciede2000");
    reveal_strlit("ciede2000-exact");
    reveal_strlit(
        "unknown algorithm; expected one of \"delta-e-76\", \"cie94\", \"ciede2000\", \"ciede2000-exact\"",
    );
    assert(s@ =~= "unknown algorithm; expected one of \"delta-e-76\", \"cie94\", \"ciede2000\", \"ciede2000-exact\""@);
}

} // verus!
