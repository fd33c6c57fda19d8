//! Containers that results are pushed into.

use vstd::prelude::*;

verus! {

/// Index of the first empty slot, or the number of slots if none is empty.
pub open spec fn first_empty<T>(slots: Seq<Option<T>>) -> int
    decreases slots.len(),
{
    if slots.len() == 0 || slots[0] is None {
        0
    } else {
        1 + first_empty(slots.skip(1))
    }
}

/// Whether a further value finds a place.
pub open spec fn takes<T>(slots: Seq<Option<T>>, growable: bool) -> bool {
    growable || first_empty(slots) < slots.len()
}

/// The slots with one more value: in the first empty slot, or in a new slot
/// at the end if none is empty.
pub open spec fn placed<T>(slots: Seq<Option<T>>, val: T) -> Seq<Option<T>> {
    if first_empty(slots) < slots.len() {
        slots.update(first_empty(slots), Some(val))
    } else {
        slots.push(Some(val))
    }
}

/// The slots after `vals` are pushed in turn, up to the first that finds no
/// place.
pub open spec fn filled<T>(slots: Seq<Option<T>>, growable: bool, vals: Seq<T>) -> Seq<Option<T>>
    decreases vals.len(),
{
    if vals.len() == 0 || !takes(slots, growable) {
        slots
    } else {
        filled(placed(slots, vals[0]), growable, vals.skip(1))
    }
}

/// Pushing one value more after `vals` all found a place.
pub proof fn lemma_filled_push<T>(
    slots: Seq<Option<T>>,
    growable: bool,
    vals: Seq<T>,
    val: T,
)
    requires
        takes(filled(slots, growable, vals), growable),
    ensures
        filled(slots, growable, vals.push(val)) == placed(filled(slots, growable, vals), val),
    decreases vals.len(),
{
    reveal_with_fuel(filled, 2);
    if vals.len() == 0 {
        assert(vals.push(val).skip(1) =~= Seq::<T>::empty());
    } else {
        lemma_filled_stuck(slots, growable, vals);
        assert(vals.push(val).skip(1) =~= vals.skip(1).push(val));
        lemma_filled_push(placed(slots, vals[0]), growable, vals.skip(1), val);
    }
}

proof fn lemma_filled_stuck<T>(slots: Seq<Option<T>>, growable: bool, vals: Seq<T>)
    ensures
        !takes(slots, growable) ==> filled(slots, growable, vals) == slots,
{
}

/// A growable container without empty slots takes every value at its end.
pub proof fn law_growable_appends<T>(held: Seq<T>, vals: Seq<T>)
    ensures
        filled(held.map_values(|v: T| Some(v)), true, vals) == (held + vals).map_values(
            |v: T| Some(v),
        ),
    decreases vals.len(),
{
    let slots = held.map_values(|v: T| Some(v));
    if vals.len() == 0 {
        assert(held + vals =~= held);
    } else {
        lemma_first_empty(slots);
        if first_empty(slots) < slots.len() {
            assert(slots[first_empty(slots)] is Some);
        }
        assert(placed(slots, vals[0]) =~= held.push(vals[0]).map_values(|v: T| Some(v)));
        law_growable_appends(held.push(vals[0]), vals.skip(1));
        assert(held.push(vals[0]) + vals.skip(1) =~= held + vals);
    }
}

/// Pushing two runs of values is pushing the one after the other.
pub proof fn law_filled_in_turn<T>(
    slots: Seq<Option<T>>,
    growable: bool,
    first: Seq<T>,
    second: Seq<T>,
)
    ensures
        filled(slots, growable, first + second) == filled(
            filled(slots, growable, first),
            growable,
            second,
        ),
    decreases first.len(),
{
    if first.len() == 0 {
        assert(first + second =~= second);
    } else if takes(slots, growable) {
        assert((first + second).skip(1) =~= first.skip(1) + second);
        law_filled_in_turn(placed(slots, first[0]), growable, first.skip(1), second);
    }
}

/// Values pushed into a container of fixed slots, the first of them taken
/// and the others empty, stand behind what it held, as many as find a place.
pub proof fn law_fixed_slots_append<T>(held: Seq<T>, empty: nat, vals: Seq<T>)
    ensures
        ({
            let fit: int = if vals.len() < empty {
                vals.len() as int
            } else {
                empty as int
            };
            filled(
                held.map_values(|v: T| Some(v)) + Seq::new(empty, |i: int| None::<T>),
                false,
                vals,
            ) == (held + vals.take(fit)).map_values(|v: T| Some(v)) + Seq::new(
                (empty - fit) as nat,
                |i: int| None::<T>,
            )
        }),
    decreases vals.len(),
{
    let slots = held.map_values(|v: T| Some(v)) + Seq::new(empty, |i: int| None::<T>);
    lemma_first_empty_is(slots, held.len() as int);
    if vals.len() == 0 || empty == 0 {
        assert(held + vals.take(0) =~= held);
    } else {
        let next = held.push(vals[0]);
        let left = (empty - 1) as nat;
        assert(placed(slots, vals[0]) =~= next.map_values(|v: T| Some(v)) + Seq::new(
            left,
            |i: int| None::<T>,
        ));
        law_fixed_slots_append(next, left, vals.skip(1));
        let fit: int = if vals.len() < empty {
            vals.len() as int
        } else {
            empty as int
        };
        assert(next + vals.skip(1).take(fit - 1) =~= held + vals.take(fit));
    }
}

/// What a container does with a value: it goes into the first empty slot; if
/// none is empty it makes a slot at the end, where slots can be added, and
/// finds no place otherwise. Values are pushed in turn, up to the first that
/// finds no place.
pub proof fn law_values_go_to_the_first_empty_slot<T>(
    slots: Seq<Option<T>>,
    growable: bool,
    vals: Seq<T>,
    val: T,
    at: int,
)
    requires
        0 <= at <= slots.len(),
        at < slots.len() ==> slots[at] is None,
        forall|i: int| 0 <= i < at ==> (#[trigger] slots[i]) is Some,
    ensures
        takes(slots, growable) <==> growable || at < slots.len(),
        at < slots.len() ==> placed(slots, val) == slots.update(at, Some(val)),
        at == slots.len() ==> placed(slots, val) == slots.push(Some(val)),
        filled(slots, growable, Seq::empty()) == slots,
        growable || at < slots.len() ==> filled(slots, growable, seq![val] + vals) == filled(
            placed(slots, val),
            growable,
            vals,
        ),
        !growable && at == slots.len() ==> filled(slots, growable, vals) == slots,
{
    lemma_first_empty_is(slots, at);
    assert((seq![val] + vals).skip(1) =~= vals);
}

/// What the first empty slot is.
pub proof fn lemma_first_empty<T>(slots: Seq<Option<T>>)
    ensures
        0 <= first_empty(slots) <= slots.len(),
        first_empty(slots) < slots.len() ==> slots[first_empty(slots)] is None,
        forall|i: int| 0 <= i < first_empty(slots) ==> (#[trigger] slots[i]) is Some,
    decreases slots.len(),
{
    if slots.len() > 0 && slots[0] is Some {
        lemma_first_empty(slots.skip(1));
        assert forall|i: int| 0 <= i < first_empty(slots) implies (#[trigger] slots[i]) is Some by {
            if i > 0 {
                assert(slots.skip(1)[i - 1] is Some);
            }
        }
    }
}

proof fn lemma_first_empty_is<T>(slots: Seq<Option<T>>, at: int)
    requires
        0 <= at <= slots.len(),
        at < slots.len() ==> slots[at] is None,
        forall|i: int| 0 <= i < at ==> (#[trigger] slots[i]) is Some,
    ensures
        first_empty(slots) == at,
{
    lemma_first_empty(slots);
    if first_empty(slots) < at {
        assert(slots[first_empty(slots)] is Some);
    }
}

/// A container with push semantics.
///
/// A container is seen as a run of slots, each empty or holding a value. A
/// push fills the first empty slot; a growable container makes a new slot
/// when none is empty.
pub trait Buffer<T>: Sized {
    /// The slots.
    spec fn slots(&self) -> Seq<Option<T>>;

    /// Whether slots can be added.
    spec fn growable(&self) -> bool;

    /// The capacity that the type alone fixes.
    spec fn fixed_cap() -> Option<usize>;

    /// The capacity that the type alone fixes: `Some(n)` for containers of
    /// exactly `n` slots, `None` where the type sets no bound or the bound is
    /// known at run time only.
    fn max_cap() -> (cap: Option<usize>)
        ensures
            cap == Self::fixed_cap(),
    ;

    /// Pushes `val`. Returns `None` on success; hands `val` back, with the
    /// container unchanged, if there is no place for it.
    fn try_push(&mut self, val: T) -> (r: Option<T>)
        ensures
            final(self).growable() == old(self).growable(),
            takes(old(self).slots(), old(self).growable()) ==> r is None && final(self).slots()
                == placed(old(self).slots(), val),
            !takes(old(self).slots(), old(self).growable()) ==> r == Some(val)
                && final(self).slots() == old(self).slots(),
    ;
}

impl<T> Buffer<T> for Vec<T> {
    open spec fn slots(&self) -> Seq<Option<T>> {
        self@.map_values(|v: T| Some(v))
    }

    open spec fn growable(&self) -> bool {
        true
    }

    open spec fn fixed_cap() -> Option<usize> {
        None
    }

    fn max_cap() -> (cap: Option<usize>) {
        None
    }

    fn try_push(&mut self, val: T) -> (r: Option<T>) {
        let ghost before = self.slots();
        self.push(val);
        proof {
            lemma_first_empty(before);
            if first_empty(before) < before.len() {
                assert(before[first_empty(before)] is Some);
            }
            assert(self.slots() =~= before.push(Some(val)));
        }
        None
    }
}

impl<T, const N: usize> Buffer<T> for [Option<T>; N] {
    open spec fn slots(&self) -> Seq<Option<T>> {
        self@
    }

    open spec fn growable(&self) -> bool {
        false
    }

    open spec fn fixed_cap() -> Option<usize> {
        Some(N)
    }

    fn max_cap() -> (cap: Option<usize>) {
        Some(N)
    }

    fn try_push(&mut self, val: T) -> (r: Option<T>) {
        let ghost before = self@;
        let mut i: usize = 0;
        while i < N
            invariant
                i <= N,
                self@ == before,
                before == old(self).slots(),
                before.len() == N,
                forall|k: int| 0 <= k < i ==> (#[trigger] before[k]) is Some,
            decreases N - i,
        {
            if self[i].is_none() {
                proof {
                    lemma_first_empty_is(before, i as int);
                }
                self[i] = Some(val);
                return None;
            }
            i += 1;
        }
        proof {
            lemma_first_empty_is(before, N as int);
        }
        Some(val)
    }
}

impl<'a, T> Buffer<T> for &'a mut [Option<T>] {
    open spec fn slots(&self) -> Seq<Option<T>> {
        (**self)@
    }

    open spec fn growable(&self) -> bool {
        false
    }

    open spec fn fixed_cap() -> Option<usize> {
        None
    }

    fn max_cap() -> (cap: Option<usize>) {
        None
    }

    fn try_push(&mut self, val: T) -> (r: Option<T>) {
        let ghost before = (**self)@;
        let n: usize = self.len();
        let mut i: usize = 0;
        while i < n
            invariant
                i <= n,
                n == before.len(),
                (**self)@ == before,
                before == old(self).slots(),
                forall|k: int| 0 <= k < i ==> (#[trigger] before[k]) is Some,
            decreases n - i,
        {
            if self[i].is_none() {
                proof {
                    lemma_first_empty_is(before, i as int);
                }
                self[i] = Some(val);
                return None;
            }
            i += 1;
        }
        proof {
            lemma_first_empty_is(before, n as int);
        }
        Some(val)
    }
}

} // verus!
