//! What texts, words and numbers in text are.

use vstd::prelude::*;

verus! {

use crate::text::{
    decimal, decimal_string, digit, folded, str_eq_ignore_ascii_case, text_below,
    text_less, trim, trimmed, trimmed_back, trimmed_front, white_space,
};

/// The number that a run of decimal digits stands for.
pub open spec fn reading(s: Seq<char>) -> int
    decreases s.len(),
{
    if s.len() == 0 {
        0
    } else {
        10 * reading(s.drop_last()) + (s.last() as int - '0' as int)
    }
}

/// A number in decimal is made of digits alone, starts with a zero only if it
/// is zero, and reads as the number.
pub proof fn law_decimal_reads_back(n: nat)
    ensures
        decimal(n).len() >= 1,
        forall|i: int| 0 <= i < decimal(n).len() ==> '0' <= #[trigger] decimal(n)[i] <= '9',
        decimal(n)[0] == '0' ==> n == 0 && decimal(n).len() == 1,
        reading(decimal(n)) == n,
    decreases n,
{
    reveal_with_fuel(reading, 2);
    if n < 10 {
        assert(decimal(n).drop_last() =~= Seq::empty());
        assert(digit(n as int) as int == 48 + n);
    } else {
        law_decimal_reads_back(n / 10);
        let d = (n % 10) as int;
        assert(digit(d) as int == 48 + d);
        assert(decimal(n).drop_last() =~= decimal(n / 10));
        assert(decimal(n)[0] == decimal(n / 10)[0]);
        assert forall|i: int| 0 <= i < decimal(n).len() implies '0' <= #[trigger] decimal(n)[i]
            <= '9' by {
            if i < decimal(n / 10).len() {
                assert(decimal(n)[i] == decimal(n / 10)[i]);
            }
        }
    }
}

/// A number is written so that it reads as the number, and different numbers
/// are written differently.
pub proof fn law_numbers_are_written_apart(m: u64, n: u64, a: String, b: String)
    requires
        call_ensures(decimal_string, (m,), a),
        call_ensures(decimal_string, (n,), b),
    ensures
        reading(a@) == m,
        a@ == b@ ==> m == n,
{
    law_decimal_reads_back(m as nat);
    law_decimal_reads_back(n as nat);
}

/// Two texts are the same but for ASCII case exactly if they are as long as
/// each other and each two letters at one place are equal, or a small ASCII
/// letter and its capital.
pub proof fn law_case_is_ignored(a: &str, b: &str, same: bool)
    requires
        call_ensures(str_eq_ignore_ascii_case, (a, b), same),
    ensures
        same <==> a@.len() == b@.len() && forall|i: int|
            0 <= i < a@.len() ==> {
                ||| #[trigger] a@[i] == b@[i]
                ||| 'a' <= a@[i] <= 'z' && b@[i] as int == a@[i] as int - 32
                ||| 'a' <= b@[i] <= 'z' && a@[i] as int == b@[i] as int - 32
            },
{
    if same {
        assert forall|i: int| 0 <= i < a@.len() implies {
            ||| #[trigger] a@[i] == b@[i]
            ||| 'a' <= a@[i] <= 'z' && b@[i] as int == a@[i] as int - 32
            ||| 'a' <= b@[i] <= 'z' && a@[i] as int == b@[i] as int - 32
        } by {
            assert(folded(a@[i]) == folded(b@[i]));
        }
    }
}

/// Whether `n` is the code of a character with the Unicode property
/// White_Space: tab to carriage return, space, next line, and the spaces and
/// separators beyond ASCII.
pub open spec fn blank_code(n: int) -> bool {
    n == 9 || n == 10 || n == 11 || n == 12 || n == 13 || n == 32 || n == 133 || n == 160 || n
        == 5760 || (8192 <= n && n < 8203) || n == 8232 || n == 8233 || n == 8239 || n == 8287 || n
        == 12288
}

proof fn lemma_front(s: Seq<char>) -> (k: int)
    ensures
        0 <= k <= s.len(),
        trimmed_front(s) == s.skip(k),
        forall|i: int| 0 <= i < k ==> white_space(#[trigger] s[i]),
        k < s.len() ==> !white_space(s[k]),
    decreases s.len(),
{
    if s.len() > 0 && white_space(s[0]) {
        let k = lemma_front(s.skip(1));
        assert(s.skip(1).skip(k) =~= s.skip(k + 1));
        assert forall|i: int| 0 <= i < k + 1 implies white_space(#[trigger] s[i]) by {
            if i > 0 {
                assert(s.skip(1)[i - 1] == s[i]);
            }
        }
        k + 1
    } else {
        assert(s.skip(0) =~= s);
        0
    }
}

proof fn lemma_back(s: Seq<char>) -> (k: int)
    ensures
        0 <= k <= s.len(),
        trimmed_back(s) == s.take(k),
        forall|i: int| k <= i < s.len() ==> white_space(#[trigger] s[i]),
        k > 0 ==> !white_space(s[k - 1]),
    decreases s.len(),
{
    if s.len() > 0 && white_space(s.last()) {
        let k = lemma_back(s.drop_last());
        assert(s.drop_last().take(k) =~= s.take(k));
        assert forall|i: int| k <= i < s.len() implies white_space(#[trigger] s[i]) by {
            if i < s.len() - 1 {
                assert(s.drop_last()[i] == s[i]);
            }
        }
        k
    } else {
        assert(s.take(s.len() as int) =~= s);
        s.len() as int
    }
}

/// Trimming takes white space off both ends and nothing else: what is left
/// stands in the text from `from` to `to`, neither starts nor ends with white
/// space, and all before and behind it is white space.
pub proof fn law_trim_takes_the_ends_off(s: &str, t: String) -> (span: (int, int))
    requires
        call_ensures(trim, (s,), t),
    ensures
        0 <= span.0 <= span.1 <= s@.len(),
        t@ == s@.subrange(span.0, span.1),
        forall|i: int|
            0 <= i < span.0 || span.1 <= i < s@.len() ==> blank_code(#[trigger] s@[i] as int),
        t@.len() > 0 ==> !blank_code(t@[0] as int) && !blank_code(t@.last() as int),
{
    lemma_trimmed(s@)
}

/// As [`law_trim_takes_the_ends_off`], of a text.
pub proof fn lemma_trimmed(s: Seq<char>) -> (span: (int, int))
    ensures
        0 <= span.0 <= span.1 <= s.len(),
        trimmed(s) == s.subrange(span.0, span.1),
        forall|i: int|
            0 <= i < span.0 || span.1 <= i < s.len() ==> blank_code(#[trigger] s[i] as int),
        trimmed(s).len() > 0 ==> !blank_code(trimmed(s)[0] as int) && !blank_code(
            trimmed(s).last() as int,
        ),
{
    let a = lemma_front(s);
    let front = s.skip(a);
    let k = lemma_back(front);
    assert(front.take(k) =~= s.subrange(a, a + k));
    assert forall|i: int| 0 <= i < a || a + k <= i < s.len() implies blank_code(
        #[trigger] s[i] as int,
    ) by {
        if i >= a + k {
            assert(front[i - a] == s[i]);
        }
    }
    (a, a + k)
}

/// Dictionary order: the first place where two texts differ decides, by the
/// code points there; a text that ends first comes first.
pub proof fn law_first_difference_decides(a: Seq<char>, b: Seq<char>, k: int)
    requires
        0 <= k <= a.len(),
        k <= b.len(),
        a.take(k) == b.take(k),
        k < a.len() && k < b.len() ==> a[k] != b[k],
    ensures
        k < a.len() && k < b.len() ==> (text_below(a, b) <==> a[k] < b[k]),
        k == a.len() || k == b.len() ==> (text_below(a, b) <==> a.len() < b.len()),
    decreases k,
{
    if k > 0 {
        assert(a.take(k)[0] == a[0] && b.take(k)[0] == b[0]);
        assert(a[0] == b[0]);
        assert(a.skip(1).len() == a.len() - 1 && b.skip(1).len() == b.len() - 1);
        assert(a.skip(1).take(k - 1) =~= a.take(k).skip(1));
        assert(b.skip(1).take(k - 1) =~= b.take(k).skip(1));
        law_first_difference_decides(a.skip(1), b.skip(1), k - 1);
    }
}

/// [`text_less`] goes by the first place where two texts differ.
pub proof fn law_text_less_by_the_first_difference(a: &str, b: &str, less: bool, k: int)
    requires
        call_ensures(text_less, (a, b), less),
        0 <= k <= a@.len(),
        k <= b@.len(),
        a@.take(k) == b@.take(k),
        k < a@.len() && k < b@.len() ==> a@[k] != b@[k],
    ensures
        k < a@.len() && k < b@.len() ==> (less <==> (a@[k] as int) < (b@[k] as int)),
        k == a@.len() || k == b@.len() ==> (less <==> a@.len() < b@.len()),
{
    law_first_difference_decides(a@, b@, k);
}

} // verus!
