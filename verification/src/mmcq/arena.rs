//! Fixed-capacity stack of boxes.

use vstd::prelude::*;

verus! {

use crate::mmcq::vbox::VBox;

/// Boxes a quantization run can hold. The box target never exceeds it.
pub const MAX_BOXES: usize = 256;

/// A stack of at most [`MAX_BOXES`] boxes.
pub struct BoxArena {
    data: Vec<VBox>,
}

impl View for BoxArena {
    type V = Seq<VBox>;

    closed spec fn view(&self) -> Seq<VBox> {
        self.data@
    }
}

/// How many of `extra` further boxes fit beside `used` ones.
pub open spec fn room(used: nat, extra: nat) -> nat {
    if used >= MAX_BOXES {
        0
    } else if used + extra <= MAX_BOXES {
        extra
    } else {
        (MAX_BOXES - used) as nat
    }
}

/// As many further boxes fit as are missing to 256.
pub proof fn law_room_up_to_256(used: nat, extra: nat)
    ensures
        room(used, extra) <= extra,
        used <= 256 ==> used + room(used, extra) <= 256,
        used > 256 ==> room(used, extra) == 0,
        room(used, extra) < extra ==> used + room(used, extra) >= 256,
{
}

/// A box is added exactly if fewer than 256 are held.
pub proof fn law_arena_holds_256(used: nat)
    ensures
        used < MAX_BOXES <==> used < 256,
{
}

impl BoxArena {
    /// An empty arena.
    pub fn new() -> (arena: BoxArena)
        ensures
            arena@ == Seq::<VBox>::empty(),
    {
        BoxArena { data: Vec::new() }
    }

    /// Boxes held.
    pub fn len(&self) -> (n: usize)
        ensures
            n == self@.len(),
    {
        self.data.len()
    }

    /// Adds `v` on top. Returns `false`, with nothing added, once
    /// [`MAX_BOXES`] boxes are held.
    pub fn push(&mut self, v: VBox) -> (added: bool)
        ensures
            added == (old(self)@.len() < MAX_BOXES),
            final(self)@ == (if added {
                old(self)@.push(v)
            } else {
                old(self)@
            }),
    {
        if self.data.len() >= MAX_BOXES {
            return false;
        }
        self.data.push(v);
        true
    }

    /// Takes the top box off.
    pub fn pop(&mut self) -> (top: Option<VBox>)
        ensures
            top == (if old(self)@.len() == 0 {
                None
            } else {
                Some(old(self)@.last())
            }),
            final(self)@ == (if old(self)@.len() == 0 {
                old(self)@
            } else {
                old(self)@.drop_last()
            }),
    {
        self.data.pop()
    }

    /// The boxes, bottom first.
    pub fn as_mut_slice(&mut self) -> (boxes: &mut [VBox])
        ensures
            boxes@ == old(self)@,
            final(self)@ == final(boxes)@,
    {
        self.data.as_mut_slice()
    }

    /// The boxes, bottom first.
    pub fn as_slice(&self) -> (boxes: &[VBox])
        ensures
            boxes@ == self@,
    {
        self.data.as_slice()
    }

    /// Drops every box.
    pub fn clear(&mut self)
        ensures
            final(self)@ == Seq::<VBox>::empty(),
    {
        self.data.clear();
    }

    /// Moves every box onto `dst`, top first. What does not fit is dropped.
    pub fn drain_into(&mut self, dst: &mut BoxArena)
        ensures
            final(self)@ == Seq::<VBox>::empty(),
            final(dst)@ == old(dst)@ + old(self)@.reverse().take(
                room(old(dst)@.len(), old(self)@.len()) as int,
            ),
    {
        let ghost src = self@;
        let ghost base = dst@;
        let ghost mut moved: int = 0;
        while self.len() > 0
            invariant
                0 <= moved <= src.len(),
                self@ == src.take(src.len() - moved),
                dst@ == base + src.reverse().take(room(base.len(), moved as nat) as int),
            decreases self@.len(),
        {
            let ghost before = dst@;
            if let Some(v) = self.pop() {
                let added: bool = dst.push(v);
                proof {
                    assert(v == src.reverse()[moved]);
                    moved = moved + 1;
                    assert(self@ =~= src.take(src.len() - moved));
                    assert(dst@ =~= base + src.reverse().take(
                        room(base.len(), moved as nat) as int,
                    ));
                }
            }
        }
        assert(moved == src.len());
        assert(self@ =~= Seq::<VBox>::empty());
    }
}

} // verus!
