//! The colour-difference algorithms a caller can choose from.

use std::str::FromStr;

use vstd::prelude::*;

verus! {

use crate::distance::Metric;
use crate::text::{same_ignoring_case, str_eq_ignore_ascii_case};

/// How the palette entry nearest to a colour is found.
#[derive(Clone, Copy, Debug, PartialEq, Eq, Hash, PartialOrd, Ord, Structural)]
#[non_exhaustive]
pub enum Algorithm {
    /// Delta E 76: squared Euclidean distance in LAB. The fastest.
    DeltaE76,
    /// CIE94 with graphic-arts weights; the palette entry is the reference,
    /// the query the sample.
    Cie94,
    /// CIEDE2000, through the candidate table where the palette has one.
    Ciede2000,
    /// CIEDE2000 under its second name; answers as [`Algorithm::Ciede2000`].
    Ciede2000Exact,
}

/// A word that names no algorithm.
#[derive(Clone, Copy, Debug, PartialEq, Eq, Structural)]
pub struct ParseAlgorithmError;

impl Algorithm {
    /// The word that names the algorithm.
    pub open spec fn word(self) -> Seq<char> {
        match self {
            Algorithm::DeltaE76 => "delta-e-76"@,
            Algorithm::Cie94 => "cie94"@,
            Algorithm::Ciede2000 => "ciede2000"@,
            Algorithm::Ciede2000Exact => "ciede2000-exact"@,
        }
    }

    /// The word that names the algorithm.
    pub fn as_str(&self) -> (word: &'static str)
        ensures
            word@ == self.word(),
    {
        match self {
            Algorithm::DeltaE76 => "delta-e-76",
            Algorithm::Cie94 => "cie94",
            Algorithm::Ciede2000 => "ciede2000",
            Algorithm::Ciede2000Exact => "ciede2000-exact",
        }
    }

    /// The word that names the algorithm, as an owned string.
    pub fn to_string(&self) -> (s: String)
        ensures
            s@ == self.word(),
    {
        self.as_str().to_owned()
    }

    /// The formula distances are measured by.
    pub open spec fn spec_metric(self) -> Metric {
        match self {
            Algorithm::DeltaE76 => Metric::DeltaE76,
            Algorithm::Cie94 => Metric::Cie94,
            Algorithm::Ciede2000 => Metric::Ciede2000,
            Algorithm::Ciede2000Exact => Metric::Ciede2000,
        }
    }

    /// The formula distances are measured by.
    pub fn metric(&self) -> (m: Metric)
        ensures
            m == self.spec_metric(),
    {
        match self {
            Algorithm::DeltaE76 => Metric::DeltaE76,
            Algorithm::Cie94 => Metric::Cie94,
            Algorithm::Ciede2000 => Metric::Ciede2000,
            Algorithm::Ciede2000Exact => Metric::Ciede2000,
        }
    }

    /// The algorithm that `s` names, ASCII case aside.
    pub fn parse(s: &str) -> (r: Result<Algorithm, ParseAlgorithmError>)
        ensures
            forall|a: Algorithm|
                r == Ok::<Algorithm, ParseAlgorithmError>(a) <==> same_ignoring_case(
                    s@,
                    #[trigger] a.word(),
                ),
            r is Err <==> forall|a: Algorithm| !same_ignoring_case(s@, #[trigger] a.word()),
    {
        proof {
            assert forall|a: Algorithm, b: Algorithm|
                same_ignoring_case(s@, #[trigger] a.word()) && same_ignoring_case(
                    s@,
                    #[trigger] b.word(),
                ) implies a == b by {
                law_words_are_distinct(a, b, s@);
            }
        }
        if str_eq_ignore_ascii_case(s, "delta-e-76") {
            assert(same_ignoring_case(s@, Algorithm::DeltaE76.word()));
            return Ok(Algorithm::DeltaE76);
        }
        if str_eq_ignore_ascii_case(s, "cie94") {
            assert(same_ignoring_case(s@, Algorithm::Cie94.word()));
            return Ok(Algorithm::Cie94);
        }
        if str_eq_ignore_ascii_case(s, "ciede2000") {
            assert(same_ignoring_case(s@, Algorithm::Ciede2000.word()));
            return Ok(Algorithm::Ciede2000);
        }
        if str_eq_ignore_ascii_case(s, "ciede2000-exact") {
            assert(same_ignoring_case(s@, Algorithm::Ciede2000Exact.word()));
            return Ok(Algorithm::Ciede2000Exact);
        }
        Err(ParseAlgorithmError)
    }
}

impl FromStr for Algorithm {
    type Err = ParseAlgorithmError;

    fn from_str(s: &str) -> (r: Result<Algorithm, ParseAlgorithmError>)
        ensures
            forall|a: Algorithm|
                r == Ok::<Algorithm, ParseAlgorithmError>(a) <==> same_ignoring_case(
                    s@,
                    #[trigger] a.word(),
                ),
            r is Err <==> forall|a: Algorithm| !same_ignoring_case(s@, #[trigger] a.word()),
    {
        Algorithm::parse(s)
    }
}

impl Default for Algorithm {
    fn default() -> (a: Algorithm)
        ensures
            a == Algorithm::Ciede2000Exact,
    {
        Algorithm::Ciede2000Exact
    }
}

/// No two algorithms share a word, ASCII case aside, so that a word read back
/// names the algorithm it was written for.
pub proof fn law_words_are_distinct(a: Algorithm, b: Algorithm, s: Seq<char>)
    requires
        same_ignoring_case(s, a.word()),
        same_ignoring_case(s, b.word()),
    ensures
        a == b,
{
    reveal_strlit("delta-e-76");
    reveal_strlit("cie94");
    reveal_strlit("ciede2000");
    reveal_strlit("ciede2000-exact");
}

/// The accepted words, in order.
pub fn roster() -> (words: Vec<&'static str>)
    ensures
        words@.len() == 4,
        words@[0]@ == Algorithm::DeltaE76.word(),
        words@[1]@ == Algorithm::Cie94.word(),
        words@[2]@ == Algorithm::Ciede2000.word(),
        words@[3]@ == Algorithm::Ciede2000Exact.word(),
{
    vec![
        Algorithm::DeltaE76.as_str(),
        Algorithm::Cie94.as_str(),
        Algorithm::Ciede2000.as_str(),
        Algorithm::Ciede2000Exact.as_str(),
    ]
}

/// Whether no two words are the same, ASCII case aside.
pub fn pairwise_unique_ignore_ascii_case(words: &[&str]) -> (unique: bool)
    ensures
        unique == (forall|i: int, j: int|
            0 <= i < j < words@.len() ==> !same_ignoring_case(
                (#[trigger] words@[i])@,
                (#[trigger] words@[j])@,
            )),
{
    let mut i: usize = 0;
    while i < words.len()
        invariant
            i <= words@.len(),
            forall|a: int, b: int|
                0 <= a < i && a < b < words@.len() ==> !same_ignoring_case(
                    (#[trigger] words@[a])@,
                    (#[trigger] words@[b])@,
                ),
        decreases words@.len() - i,
    {
        let mut j: usize = i + 1;
        while j < words.len()
            invariant
                i < j <= words@.len(),
                forall|b: int|
                    i < b < j ==> !same_ignoring_case(
                        words@[i as int]@,
                        (#[trigger] words@[b])@,
                    ),
            decreases words@.len() - j,
        {
            if str_eq_ignore_ascii_case(words[i], words[j]) {
                return false;
            }
            j += 1;
        }
        i += 1;
    }
    true
}

/// Whether no value occurs twice.
pub fn pairwise_unique_u8(values: &[u8]) -> (unique: bool)
    ensures
        unique == (forall|i: int, j: int|
            0 <= i < j < values@.len() ==> #[trigger] values@[i] != #[trigger] values@[j]),
{
    let mut i: usize = 0;
    while i < values.len()
        invariant
            i <= values@.len(),
            forall|a: int, b: int|
                0 <= a < i && a < b < values@.len() ==> #[trigger] values@[a]
                    != #[trigger] values@[b],
        decreases values@.len() - i,
    {
        let mut j: usize = i + 1;
        while j < values.len()
            invariant
                i < j <= values@.len(),
                forall|b: int| i < b < j ==> values@[i as int] != #[trigger] values@[b],
            decreases values@.len() - j,
        {
            if values[i] == values[j] {
                return false;
            }
            j += 1;
        }
        i += 1;
    }
    true
}

impl ParseAlgorithmError {
    /// The message: it names every accepted word.
    pub open spec fn message() -> Seq<char> {
        "unknown algorithm; expected one of "@ + quoted(Algorithm::DeltaE76) + ", "@ + quoted(
            Algorithm::Cie94,
        ) + ", "@ + quoted(Algorithm::Ciede2000) + ", "@ + quoted(Algorithm::Ciede2000Exact)
    }

    /// The message: it names every accepted word.
    pub fn to_string(&self) -> (s: String)
        ensures
            s@ == ParseAlgorithmError::message(),
    {
        let mut s: String = "unknown algorithm; expected one of ".to_owned();
        append_quoted(&mut s, Algorithm::DeltaE76);
        s.append(", ");
        append_quoted(&mut s, Algorithm::Cie94);
        s.append(", ");
        append_quoted(&mut s, Algorithm::Ciede2000);
        s.append(", ");
        append_quoted(&mut s, Algorithm::Ciede2000Exact);
        assert(s@ =~= ParseAlgorithmError::message());
        s
    }
}

/// The algorithm's word in double quotes.
pub open spec fn quoted(a: Algorithm) -> Seq<char> {
    seq!['"'] + a.word() + seq!['"']
}

fn append_quoted(s: &mut String, a: Algorithm)
    ensures
        final(s)@ == old(s)@ + quoted(a),
{
    let ghost before = s@;
    s.push('"');
    s.append(a.as_str());
    s.push('"');
    assert(s@ =~= before + quoted(a));
}

} // verus!
