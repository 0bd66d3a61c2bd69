//! Iteration over an arena with mutable access to its values.

use vstd::prelude::*;
use crate::arena::Arena;
use crate::index::Index;
use crate::model::ArenaView;

verus! {

/// See [`Arena::iter_mut`].
///
/// Each value is lent out until the next one is asked for.
pub struct IterMut<'a, T> {
    /// The arena that is iterated over.
    pub arena: &'a mut Arena<T>,
    /// The number of values still to come.
    pub len: u32,
    /// The slot that is looked at next.
    pub slot: u32,
}

/// Replacing a value changes nothing about which slots are occupied.
proof fn lemma_same_occupied<T>(view: ArenaView<T>, slot: int, from: int)
    requires
        view.is_occupied(slot),
    ensures
        forall|value: T|
            (#[trigger] view.with_value(slot, value)).occupied_between(
                from,
                view.slots.len() as int,
            ) == view.occupied_between(from, view.slots.len() as int),
{
    assert forall|value: T|
        (#[trigger] view.with_value(slot, value)).occupied_between(from, view.slots.len() as int)
            == view.occupied_between(from, view.slots.len() as int) by {
        assert(view.with_value(slot, value).occupied_between(from, view.slots.len() as int)
            =~= view.occupied_between(from, view.slots.len() as int));
    }
}

impl<'a, T> IterMut<'a, T> {
    /// The position is within the arena, and `len` counts the
    /// occupied slots from there on.
    pub open spec fn wf(self) -> bool {
        &&& self.arena.wf()
        &&& 0 <= self.slot <= self.arena@.slots.len()
        &&& self.len == self.arena@.occupied_between(
            self.slot as int,
            self.arena@.slots.len() as int,
        ).len()
    }

    pub(crate) fn new(arena: &'a mut Arena<T>) -> (iter: Self)
        requires
            old(arena).wf(),
        ensures
            iter.wf(),
            iter.arena@ == old(arena)@,
            iter.slot == 0,
            iter.len == old(arena)@.len(),
            *final(arena) == *final(iter.arena),
    {
        proof {
            arena@.lemma_occupied_between(0, arena@.slots.len() as int);
        }
        let len: u32 = arena.len() as u32;
        IterMut { arena, len, slot: 0 }
    }

    /// The next value, with its index: that of the first occupied slot from
    /// the position on. `None` when no value is left.
    ///
    /// What is written to the value is found in the arena afterwards.
    pub fn next(&mut self) -> (item: Option<(Index, &mut T)>)
        requires
            old(self).wf(),
        ensures
            final(self).wf(),
            *final(final(self).arena) == *final(old(self).arena),
            match item {
                Some((index, value)) => {
                    let slot = index@.slot as int;
                    &&& old(self).arena@.is_next_occupied(old(self).slot as int, slot)
                    &&& index@ == old(self).arena@.index_at(slot)
                    &&& Some(*value) == old(self).arena@.slots[slot].value
                    &&& final(self).arena@ == old(self).arena@.with_value(slot, *final(value))
                    &&& final(self).slot == slot + 1
                    &&& final(self).len + 1 == old(self).len
                },
                None => {
                    &&& old(self).len == 0
                    &&& final(self).len == 0
                    &&& final(self).slot == old(self).slot
                    &&& final(self).arena@ == old(self).arena@
                },
            },
    {
        if self.len == 0 {
            return None;
        }
        let ghost view = self.arena@;
        let ghost n = view.slots.len() as int;
        proof {
            self.arena.lemma_view_wf();
        }
        loop
            invariant
                self.wf(),
                view.wf(),
                self.arena == old(self).arena,
                self.len == old(self).len,
                self.len > 0,
                view == self.arena@,
                n == view.slots.len(),
                old(self).slot <= self.slot,
                forall|i: int| old(self).slot <= i < self.slot ==> !view.is_occupied(i),
            ensures
                self.wf(),
                view.wf(),
                self.arena == old(self).arena,
                self.len == old(self).len,
                self.len > 0,
                view == self.arena@,
                view.is_next_occupied(old(self).slot as int, self.slot as int),
            decreases n - self.slot,
        {
            proof {
                view.lemma_occupied_between(self.slot as int, n);
                view.lemma_occupied_between_front(self.slot as int, n);
            }
            if self.arena.contains_slot(self.slot).is_some() {
                break ;
            }
            self.slot = self.slot + 1;
        }
        let slot: u32 = self.slot;
        proof {
            view.lemma_occupied_between_front(slot as int, n);
            lemma_same_occupied(view, slot as int, slot + 1);
        }
        self.slot = self.slot + 1;
        self.len = self.len - 1;
        self.arena.get_by_slot_mut(slot)
    }

    /// The number of values still to come, as a lower and an upper bound.
    pub fn size_hint(&self) -> (hint: (usize, Option<usize>))
        ensures
            hint.0 == self.len,
            hint.1 == Some(hint.0),
    {
        (self.len as usize, Some(self.len as usize))
    }
}

} // verus!
