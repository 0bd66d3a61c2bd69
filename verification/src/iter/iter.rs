//! Shared iteration over an arena, from either end.

use vstd::prelude::*;
use crate::arena::Arena;
use crate::index::Index;

verus! {

/// See [`Arena::iter`].
pub struct Iter<'a, T> {
    arena: &'a Arena<T>,
    len: u32,
    slot: u32,
    end: u32,
}

impl<'a, T> Iter<'a, T> {
    /// The arena that is iterated over.
    pub closed spec fn arena(self) -> &'a Arena<T> {
        self.arena
    }

    /// The slot that is looked at next from the front.
    pub closed spec fn front(self) -> int {
        self.slot as int
    }

    /// The slot after the one that is looked at next from the back.
    pub closed spec fn back(self) -> int {
        self.end as int
    }

    /// The number of values still to come.
    pub closed spec fn remaining(self) -> nat {
        self.len as nat
    }

    /// The slots between front and back are slots of the arena, and
    /// [`Self::remaining`] counts the occupied ones among them.
    pub open spec fn wf(self) -> bool {
        &&& self.arena().wf()
        &&& 0 <= self.front() <= self.back() <= self.arena()@.slots.len()
        &&& self.remaining() == self.arena()@.occupied_between(self.front(), self.back()).len()
    }

    pub(crate) fn new(arena: &'a Arena<T>) -> (iter: Self)
        requires
            arena.wf(),
        ensures
            iter.wf(),
            iter.arena() == arena,
            iter.front() == 0,
            iter.back() == arena@.slots.len(),
            iter.remaining() == arena@.len(),
    {
        proof {
            arena@.lemma_occupied_between(0, arena@.slots.len() as int);
        }
        Iter { arena, len: arena.len() as u32, slot: 0, end: arena.len_storage() as u32 }
    }

    /// The next value from the front, with its index: that of the first
    /// occupied slot between front and back. `None` when no value is left
    /// between them.
    pub fn next(&mut self) -> (item: Option<(Index, &'a T)>)
        requires
            old(self).wf(),
        ensures
            final(self).wf(),
            final(self).arena() == old(self).arena(),
            final(self).back() == old(self).back(),
            match item {
                Some((index, value)) => {
                    let slot = index@.slot as int;
                    &&& old(self).arena()@.is_next_occupied(old(self).front(), slot)
                    &&& slot < old(self).back()
                    &&& index@ == old(self).arena()@.index_at(slot)
                    &&& Some(*value) == old(self).arena()@.slots[slot].value
                    &&& final(self).front() == slot + 1
                    &&& final(self).remaining() + 1 == old(self).remaining()
                },
                None => {
                    &&& old(self).remaining() == 0
                    &&& final(self).remaining() == 0
                    &&& final(self).front() == old(self).front()
                },
            },
    {
        let ghost view = self.arena@;
        loop
            invariant
                self.wf(),
                self.arena == old(self).arena,
                self.end == old(self).end,
                self.len == old(self).len,
                view == self.arena@,
                old(self).front() <= self.front(),
                self.len == 0 ==> self.front() == old(self).front(),
                forall|i: int| old(self).front() <= i < self.front() ==> !view.is_occupied(i),
            decreases self.end - self.slot,
        {
            if self.len == 0 {
                return None;
            }
            proof {
                view.lemma_occupied_between(self.front(), self.back());
                view.lemma_occupied_between_front(self.front(), self.back());
            }
            let slot: u32 = self.slot;
            self.slot = self.slot + 1;
            match self.arena.get_by_slot(slot) {
                Some((index, value)) => {
                    self.len = self.len - 1;
                    return Some((index, value));
                },
                None => {},
            }
        }
    }

    /// The next value from the back, with its index: that of the last
    /// occupied slot between front and back. `None` when no value is left
    /// between them.
    pub fn next_back(&mut self) -> (item: Option<(Index, &'a T)>)
        requires
            old(self).wf(),
        ensures
            final(self).wf(),
            final(self).arena() == old(self).arena(),
            final(self).front() == old(self).front(),
            match item {
                Some((index, value)) => {
                    let slot = index@.slot as int;
                    &&& old(self).arena()@.is_last_occupied(old(self).back(), slot)
                    &&& old(self).front() <= slot
                    &&& index@ == old(self).arena()@.index_at(slot)
                    &&& Some(*value) == old(self).arena()@.slots[slot].value
                    &&& final(self).back() == slot
                    &&& final(self).remaining() + 1 == old(self).remaining()
                },
                None => {
                    &&& old(self).remaining() == 0
                    &&& final(self).remaining() == 0
                    &&& final(self).back() == old(self).back()
                },
            },
    {
        let ghost view = self.arena@;
        loop
            invariant
                self.wf(),
                self.arena == old(self).arena,
                self.slot == old(self).slot,
                self.len == old(self).len,
                view == self.arena@,
                self.back() <= old(self).back(),
                self.len == 0 ==> self.back() == old(self).back(),
                forall|i: int| self.back() <= i < old(self).back() ==> !view.is_occupied(i),
            decreases self.end - self.slot,
        {
            if self.len == 0 {
                return None;
            }
            proof {
                view.lemma_occupied_between(self.front(), self.back());
                view.lemma_occupied_between_back(self.front(), self.back());
            }
            self.end = self.end - 1;
            let slot: u32 = self.end;
            match self.arena.get_by_slot(slot) {
                Some((index, value)) => {
                    self.len = self.len - 1;
                    return Some((index, value));
                },
                None => {},
            }
        }
    }

    /// The number of values still to come, as a lower and an upper bound.
    pub fn size_hint(&self) -> (hint: (usize, Option<usize>))
        ensures
            hint.0 == self.remaining(),
            hint.1 == Some(hint.0),
    {
        (self.len as usize, Some(self.len as usize))
    }
}

} // verus!
