//! Owning iteration: taking an arena apart, value by value.

use vstd::prelude::*;
use crate::arena::Arena;
use crate::index::Index;
use crate::model::ArenaView;

verus! {

/// Iterator type used when an arena is turned into its values by
/// [`Arena::into_iter`].
pub struct IntoIter<T> {
    arena: Arena<T>,
    slot: u32,
}

impl<T> IntoIter<T> {
    /// The arena with what was not handed out yet.
    pub closed spec fn arena(self) -> Arena<T> {
        self.arena
    }

    /// The slot that is looked at next.
    pub closed spec fn position(self) -> int {
        self.slot as int
    }

    /// The arena is well formed and holds nothing below the position.
    pub open spec fn wf(self) -> bool {
        &&& self.arena().wf()
        &&& 0 <= self.position() <= self.arena()@.slots.len()
        &&& forall|i: int| 0 <= i < self.position() ==> !self.arena()@.is_occupied(i)
    }

    pub(crate) fn new(arena: Arena<T>) -> (iter: Self)
        requires
            arena.wf(),
        ensures
            iter.wf(),
            iter.arena() == arena,
            iter.position() == 0,
    {
        IntoIter { arena, slot: 0 }
    }

    /// The next value with its index: that of the first occupied slot, which
    /// is emptied. `None` when the arena holds nothing more.
    pub fn next(&mut self) -> (item: Option<(Index, T)>)
        requires
            old(self).wf(),
        ensures
            final(self).wf(),
            match item {
                Some((index, value)) => {
                    let slot = index@.slot as int;
                    &&& old(self).arena()@.is_next_occupied(0, slot)
                    &&& index@ == old(self).arena()@.index_at(slot)
                    &&& Some(value) == old(self).arena()@.slots[slot].value
                    &&& final(self).arena()@ == old(self).arena()@.remove_slot(slot)
                    &&& final(self).position() == slot + 1
                },
                None => old(self).arena()@.len() == 0 && final(self).arena()@ == old(
                    self,
                ).arena()@,
            },
    {
        let ghost before = self.arena@;
        loop
            invariant
                self.wf(),
                self.arena@ == before,
                before == old(self).arena()@,
            decreases before.slots.len() - self.slot,
        {
            // If there are no entries remaining in the arena, we should always
            // return None. Using this check instead of comparing with the
            // arena's size allows us to skip any trailing empty entries.
            if self.arena.is_empty() {
                return None;
            }
            proof {
                self.arena.lemma_view_wf();
                before.lemma_occupied_exists();
            }
            let slot: u32 = self.slot;
            self.slot = self.slot + 1;
            // If this entry is occupied, this method will mark it as an empty.
            // Otherwise, we'll continue looping until we've removed all
            // occupied entries from the arena.
            match self.arena.remove_by_slot(slot) {
                Some((index, value)) => {
                    proof {
                        before.lemma_remove_slot(slot as int);
                        assert forall|i: int| 0 <= i < self.position() implies !self.arena()@.is_occupied(
                            i,
                        ) by {
                            if i != slot {
                                assert(self.arena()@.slots[i] == before.slots[i]);
                                assert(!before.is_occupied(i));
                            }
                        }
                    }
                    return Some((index, value));
                },
                None => {},
            }
        }
    }

    /// The number of values still to come, as a lower and an upper bound.
    pub fn size_hint(&self) -> (hint: (usize, Option<usize>))
        requires
            self.wf(),
        ensures
            hint.0 == self.arena()@.len(),
            hint.1 == Some(hint.0),
    {
        (self.arena.len(), Some(self.arena.len()))
    }
}

} // verus!
