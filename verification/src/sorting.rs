//! Stable sorting of sequences by an integer rank.

use vstd::prelude::*;

verus! {

/// `sorted` with `x` put in behind the last element that does not rank above
/// it.
pub open spec fn insert_by<T>(key: spec_fn(T) -> int, sorted: Seq<T>, x: T) -> Seq<T>
    decreases sorted.len(),
{
    if sorted.len() == 0 || key(sorted.last()) <= key(x) {
        sorted.push(x)
    } else {
        insert_by(key, sorted.drop_last(), x).push(sorted.last())
    }
}

/// The elements of `s` in ascending rank, equals in their given order.
pub open spec fn sort_by<T>(key: spec_fn(T) -> int, s: Seq<T>) -> Seq<T>
    decreases s.len(),
{
    if s.len() == 0 {
        s
    } else {
        insert_by(key, sort_by(key, s.drop_last()), s.last())
    }
}

/// Where an element goes.
pub proof fn lemma_insert_at<T>(key: spec_fn(T) -> int, sorted: Seq<T>, x: T, at: int)
    requires
        0 <= at <= sorted.len(),
        at == 0 || key(sorted[at - 1]) <= key(x),
        forall|i: int| at <= i < sorted.len() ==> key(#[trigger] sorted[i]) > key(x),
    ensures
        insert_by(key, sorted, x) == sorted.take(at).push(x) + sorted.skip(at),
    decreases sorted.len(),
{
    if at == sorted.len() {
        assert(sorted.take(at) =~= sorted);
        assert(sorted.take(at).push(x) + sorted.skip(at) =~= sorted.push(x));
    } else {
        let rest = sorted.drop_last();
        lemma_insert_at(key, rest, x, at);
        assert(rest.take(at) =~= sorted.take(at));
        assert((rest.take(at).push(x) + rest.skip(at)).push(sorted.last()) =~= sorted.take(at).push(
            x,
        ) + sorted.skip(at));
    }
}

/// Insertion keeps the elements.
proof fn lemma_insert_multiset<T>(key: spec_fn(T) -> int, sorted: Seq<T>, x: T)
    ensures
        insert_by(key, sorted, x).to_multiset() == sorted.to_multiset().insert(x),
        insert_by(key, sorted, x).len() == sorted.len() + 1,
    decreases sorted.len(),
{
    broadcast use vstd::seq_lib::group_to_multiset_ensures;

    if sorted.len() == 0 || key(sorted.last()) <= key(x) {
    } else {
        lemma_insert_multiset(key, sorted.drop_last(), x);
        assert(sorted.drop_last().push(sorted.last()) =~= sorted);
        assert(insert_by(key, sorted, x).to_multiset() =~= sorted.to_multiset().insert(x));
    }
}

/// Whether ranks never fall along `s`.
pub open spec fn ascending<T>(key: spec_fn(T) -> int, s: Seq<T>) -> bool {
    forall|i: int, j: int| 0 <= i <= j < s.len() ==> key(#[trigger] s[i]) <= key(#[trigger] s[j])
}

proof fn lemma_insert_bound<T>(key: spec_fn(T) -> int, sorted: Seq<T>, x: T, bound: int)
    requires
        key(x) <= bound,
        forall|i: int| 0 <= i < sorted.len() ==> key(#[trigger] sorted[i]) <= bound,
    ensures
        forall|i: int|
            0 <= i < insert_by(key, sorted, x).len() ==> key(
                #[trigger] insert_by(key, sorted, x)[i],
            ) <= bound,
    decreases sorted.len(),
{
    if !(sorted.len() == 0 || key(sorted.last()) <= key(x)) {
        let rest = sorted.drop_last();
        assert(forall|i: int| 0 <= i < rest.len() ==> #[trigger] rest[i] == sorted[i]);
        lemma_insert_bound(key, rest, x, bound);
        let inner = insert_by(key, rest, x);
        let out = insert_by(key, sorted, x);
        assert forall|i: int| 0 <= i < out.len() implies key(#[trigger] out[i]) <= bound by {
            if i < inner.len() {
                assert(out[i] == inner[i]);
            } else {
                assert(out[i] == sorted[sorted.len() - 1]);
            }
        }
    }
}

proof fn lemma_insert_ascending<T>(key: spec_fn(T) -> int, sorted: Seq<T>, x: T)
    requires
        ascending(key, sorted),
    ensures
        ascending(key, insert_by(key, sorted, x)),
    decreases sorted.len(),
{
    let out = insert_by(key, sorted, x);
    if sorted.len() == 0 || key(sorted.last()) <= key(x) {
        assert forall|i: int, j: int| 0 <= i <= j < out.len() implies key(#[trigger] out[i])
            <= key(#[trigger] out[j]) by {
            if j == sorted.len() && i < j {
                assert(key(sorted[i]) <= key(sorted[sorted.len() - 1]));
            }
        }
    } else {
        let rest = sorted.drop_last();
        let last = sorted.last();
        assert(forall|i: int| 0 <= i < rest.len() ==> #[trigger] rest[i] == sorted[i]);
        assert(ascending(key, rest));
        lemma_insert_ascending(key, rest, x);
        let inner = insert_by(key, rest, x);
        assert forall|i: int| 0 <= i < rest.len() implies key(#[trigger] rest[i]) <= key(last) by {
            assert(key(sorted[i]) <= key(sorted[sorted.len() - 1]));
        }
        lemma_insert_bound(key, rest, x, key(last));
        assert forall|i: int, j: int| 0 <= i <= j < out.len() implies key(#[trigger] out[i])
            <= key(#[trigger] out[j]) by {
            if i < inner.len() {
                assert(out[i] == inner[i]);
            }
            if j < inner.len() {
                assert(out[j] == inner[j]);
            }
        }
    }
}

/// Sorting keeps the elements and leaves them in ascending rank.
pub proof fn law_sort_by<T>(key: spec_fn(T) -> int, s: Seq<T>)
    ensures
        sort_by(key, s).to_multiset() == s.to_multiset(),
        sort_by(key, s).len() == s.len(),
        ascending(key, sort_by(key, s)),
    decreases s.len(),
{
    broadcast use vstd::seq_lib::group_to_multiset_ensures;

    if s.len() > 0 {
        law_sort_by(key, s.drop_last());
        lemma_insert_multiset(key, sort_by(key, s.drop_last()), s.last());
        lemma_insert_ascending(key, sort_by(key, s.drop_last()), s.last());
        assert(s.drop_last().push(s.last()) =~= s);
    }
}

/// Sorting is stable: elements of one rank keep their order.
pub proof fn law_equals_keep_their_order<T>(key: spec_fn(T) -> int, s: Seq<T>, k: int)
    ensures
        sort_by(key, s).filter(|x: T| key(x) == k) == s.filter(|x: T| key(x) == k),
    decreases s.len(),
{
    reveal(Seq::filter);
    if s.len() > 0 {
        let rest = s.drop_last();
        law_equals_keep_their_order(key, rest, k);
        law_sort_by(key, rest);
        lemma_insert_filtered(key, sort_by(key, rest), s.last(), k);
    }
}

proof fn lemma_insert_filtered<T>(key: spec_fn(T) -> int, sorted: Seq<T>, x: T, k: int)
    requires
        ascending(key, sorted),
    ensures
        insert_by(key, sorted, x).filter(|y: T| key(y) == k) == (if key(x) == k {
            sorted.filter(|y: T| key(y) == k).push(x)
        } else {
            sorted.filter(|y: T| key(y) == k)
        }),
    decreases sorted.len(),
{
    reveal(Seq::filter);
    let f = |y: T| key(y) == k;
    let out = insert_by(key, sorted, x);
    if sorted.len() == 0 || key(sorted.last()) <= key(x) {
        assert(out.drop_last() =~= sorted);
    } else {
        let rest = sorted.drop_last();
        assert(ascending(key, rest)) by {
            assert(forall|i: int| 0 <= i < rest.len() ==> #[trigger] rest[i] == sorted[i]);
        }
        lemma_insert_filtered(key, rest, x, k);
        assert(out.drop_last() =~= insert_by(key, rest, x));
        assert(out.last() == sorted.last());
    }
}

/// A property of all elements survives sorting.
pub proof fn lemma_sort_keeps<T>(p: spec_fn(T) -> bool, key: spec_fn(T) -> int, s: Seq<T>)
    requires
        forall|i: int| 0 <= i < s.len() ==> p(#[trigger] s[i]),
    ensures
        forall|i: int| 0 <= i < sort_by(key, s).len() ==> p(#[trigger] sort_by(key, s)[i]),
{
    law_sort_by(key, s);
    let out = sort_by(key, s);
    assert forall|i: int| 0 <= i < out.len() implies p(#[trigger] out[i]) by {
        broadcast use vstd::seq_lib::group_to_multiset_ensures;

        assert(out.contains(out[i]));
        assert(out.to_multiset().count(out[i]) > 0);
        assert(s.contains(out[i]));
        let k = choose|k: int| 0 <= k < s.len() && s[k] == out[i];
        assert(p(s[k]));
    }
}

/// Filtering by a test that every element passes changes nothing.
pub proof fn lemma_filter_all<T>(f: spec_fn(T) -> bool, s: Seq<T>)
    requires
        forall|i: int| 0 <= i < s.len() ==> f(#[trigger] s[i]),
    ensures
        s.filter(f) == s,
    decreases s.len(),
{
    reveal(Seq::filter);
    if s.len() > 0 {
        let rest = s.drop_last();
        assert forall|i: int| 0 <= i < rest.len() implies f(#[trigger] rest[i]) by {
            assert(rest[i] == s[i]);
        }
        lemma_filter_all(f, rest);
        assert(f(s[s.len() - 1]));
        assert(rest.push(s.last()) =~= s);
    }
}

/// Elements that differ pairwise still do after sorting.
pub proof fn lemma_sort_distinct<T>(
    differ: spec_fn(T, T) -> bool,
    key: spec_fn(T) -> int,
    s: Seq<T>,
)
    requires
        forall|a: T, b: T| #[trigger] differ(a, b) == differ(b, a),
        forall|i: int, j: int|
            0 <= i < j < s.len() ==> differ(#[trigger] s[i], #[trigger] s[j]),
    ensures
        forall|i: int, j: int|
            0 <= i < j < sort_by(key, s).len() ==> differ(
                #[trigger] sort_by(key, s)[i],
                #[trigger] sort_by(key, s)[j],
            ),
    decreases s.len(),
{
    if s.len() > 0 {
        let rest = s.drop_last();
        let x = s.last();
        assert forall|i: int, j: int| 0 <= i < j < rest.len() implies differ(
            #[trigger] rest[i],
            #[trigger] rest[j],
        ) by {
            assert(differ(s[i], s[j]));
        }
        lemma_sort_distinct(differ, key, rest);
        let apart = |t: T| differ(t, x);
        assert forall|i: int| 0 <= i < rest.len() implies apart(#[trigger] rest[i]) by {
            assert(differ(s[i], s[s.len() - 1]));
        }
        lemma_sort_keeps(apart, key, rest);
        let sorted = sort_by(key, rest);
        assert forall|i: int| 0 <= i < sorted.len() implies differ(#[trigger] sorted[i], x) by {
            assert(apart(sorted[i]));
        }
        lemma_insert_distinct(differ, key, sorted, x);
    }
}

proof fn lemma_insert_distinct<T>(
    differ: spec_fn(T, T) -> bool,
    key: spec_fn(T) -> int,
    sorted: Seq<T>,
    x: T,
)
    requires
        forall|a: T, b: T| #[trigger] differ(a, b) == differ(b, a),
        forall|i: int, j: int|
            0 <= i < j < sorted.len() ==> differ(#[trigger] sorted[i], #[trigger] sorted[j]),
        forall|i: int| 0 <= i < sorted.len() ==> differ(#[trigger] sorted[i], x),
    ensures
        forall|i: int, j: int|
            0 <= i < j < insert_by(key, sorted, x).len() ==> differ(
                #[trigger] insert_by(key, sorted, x)[i],
                #[trigger] insert_by(key, sorted, x)[j],
            ),
{
    let p = lemma_insert_place(key, sorted, x);
    let out = insert_by(key, sorted, x);
    lemma_insert_at(key, sorted, x, p);
    assert forall|i: int, j: int| 0 <= i < j < out.len() implies differ(
        #[trigger] out[i],
        #[trigger] out[j],
    ) by {
        let a = if i < p { i } else { i - 1 };
        let b = if j < p { j } else { j - 1 };
        if i == p {
            assert(out[i] == x && out[j] == sorted[b]);
            assert(differ(sorted[b], x));
        } else if j == p {
            assert(out[j] == x && out[i] == sorted[a]);
            assert(differ(sorted[a], x));
        } else {
            assert(out[i] == sorted[a] && out[j] == sorted[b]);
            assert(differ(sorted[a], sorted[b]));
        }
    }
}

/// Where an element goes.
proof fn lemma_insert_place<T>(key: spec_fn(T) -> int, sorted: Seq<T>, x: T) -> (p: int)
    ensures
        0 <= p <= sorted.len(),
        p == 0 || key(sorted[p - 1]) <= key(x),
        forall|i: int| p <= i < sorted.len() ==> key(#[trigger] sorted[i]) > key(x),
    decreases sorted.len(),
{
    if sorted.len() == 0 || key(sorted.last()) <= key(x) {
        sorted.len() as int
    } else {
        let rest = sorted.drop_last();
        let p = lemma_insert_place(key, rest, x);
        assert forall|i: int| p <= i < sorted.len() implies key(#[trigger] sorted[i]) > key(x) by {
            if i < rest.len() {
                assert(rest[i] == sorted[i]);
            }
        }
        p
    }
}

/// Sorting what is in order changes nothing.
pub proof fn lemma_sort_ascending<T>(key: spec_fn(T) -> int, s: Seq<T>)
    requires
        ascending(key, s),
    ensures
        sort_by(key, s) == s,
    decreases s.len(),
{
    if s.len() > 0 {
        let rest = s.drop_last();
        assert forall|i: int, j: int| 0 <= i <= j < rest.len() implies key(#[trigger] rest[i])
            <= key(#[trigger] rest[j]) by {
            assert(key(s[i]) <= key(s[j]));
        }
        lemma_sort_ascending(key, rest);
        if rest.len() > 0 {
            assert(key(s[rest.len() - 1]) <= key(s[rest.len() as int]));
        }
        assert(rest.push(s.last()) =~= s);
    }
}

/// Whether ranks rise along `s`.
pub open spec fn rising<T>(key: spec_fn(T) -> int, s: Seq<T>) -> bool {
    forall|i: int, j: int| 0 <= i < j < s.len() ==> key(#[trigger] s[i]) < key(#[trigger] s[j])
}

/// Elements in rising rank are determined by which there are.
pub proof fn lemma_rising_unique<T>(key: spec_fn(T) -> int, one: Seq<T>, other: Seq<T>)
    requires
        rising(key, one),
        rising(key, other),
        forall|x: T| one.contains(x) == #[trigger] other.contains(x),
    ensures
        one == other,
    decreases one.len(),
{
    if one.len() == 0 {
        if other.len() > 0 {
            assert(other.contains(other[0]));
        }
        assert(one =~= other);
    } else {
        let n = one.len() - 1;
        let m = other.len() - 1;
        assert(one.contains(one[n]));
        assert(other.contains(one[n]));
        assert(other.contains(other[m]));
        assert(one.contains(other[m]));
        let a = choose|a: int| 0 <= a < one.len() && one[a] == other[m];
        let b = choose|b: int| 0 <= b < other.len() && other[b] == one[n];
        assert(one[n] == other[m]);
        let (x, y) = (one.drop_last(), other.drop_last());
        assert forall|z: T| x.contains(z) == #[trigger] y.contains(z) by {
            if x.contains(z) {
                let i = choose|i: int| 0 <= i < x.len() && x[i] == z;
                assert(key(one[i]) < key(one[n]));
                assert(one.contains(z));
                assert(other.contains(z));
                let q = choose|q: int| 0 <= q < other.len() && other[q] == z;
                assert(y[q] == z);
            }
            if y.contains(z) {
                let i = choose|i: int| 0 <= i < y.len() && y[i] == z;
                assert(key(other[i]) < key(other[m]));
                assert(other.contains(z));
                assert(one.contains(z));
                let q = choose|q: int| 0 <= q < one.len() && one[q] == z;
                assert(x[q] == z);
            }
        }
        assert forall|i: int, j: int| 0 <= i < j < x.len() implies key(#[trigger] x[i]) < key(
            #[trigger] x[j],
        ) by {
            assert(key(one[i]) < key(one[j]));
        }
        assert forall|i: int, j: int| 0 <= i < j < y.len() implies key(#[trigger] y[i]) < key(
            #[trigger] y[j],
        ) by {
            assert(key(other[i]) < key(other[j]));
        }
        lemma_rising_unique(key, x, y);
        assert(one =~= x.push(one[n]));
        assert(other =~= y.push(other[m]));
    }
}

} // verus!
