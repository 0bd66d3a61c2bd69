//! The mathematical model of an arena, over which its contracts are stated.
//!
//! An arena is a sequence of slots, each with a generation and, while it is
//! occupied, a value; and the list of its empty slots in the order in which
//! they will be used again. The operations of the arena are given here as
//! functions from one such state to the next.

use vstd::prelude::*;
use crate::generation::next_generation;
use crate::index::IndexView;

verus! {

/// One storage position of an arena: its generation, and its value while it is
/// occupied.
pub struct Slot<T> {
    pub generation: u32,
    pub value: Option<T>,
}

/// The state of an arena.
pub struct ArenaView<T> {
    /// The slots, by slot number.
    pub slots: Seq<Slot<T>>,
    /// The empty slots, the one that the next insertion takes first.
    pub free: Seq<int>,
}

/// The slots `from`, `from + 1`, .. `to - 1`, highest first.
pub open spec fn descending(from: int, to: int) -> Seq<int> {
    Seq::new((to - from) as nat, |k: int| to - 1 - k)
}

/// `count` slots that were never occupied: empty, of the first generation.
pub open spec fn vacant<T>(count: int) -> Seq<Slot<T>> {
    Seq::new(count as nat, |i: int| Slot { generation: 1, value: None })
}

impl<T> ArenaView<T> {
    /// The arena that holds nothing and has no slots.
    pub open spec fn empty() -> Self {
        ArenaView { slots: Seq::empty(), free: Seq::empty() }
    }

    /// Slot `i` exists and holds no value.
    pub open spec fn is_empty_slot(self, i: int) -> bool {
        0 <= i < self.slots.len() && self.slots[i].value is None
    }

    /// Slot `i` exists and holds a value.
    pub open spec fn is_occupied(self, i: int) -> bool {
        0 <= i < self.slots.len() && self.slots[i].value is Some
    }

    /// What every arena satisfies: slot numbers fit in 32 bits, no generation
    /// is zero, and the free list names each empty slot exactly once and
    /// nothing else.
    pub open spec fn wf(self) -> bool {
        &&& self.slots.len() <= u32::MAX
        &&& forall|i: int|
            0 <= i < self.slots.len() ==> (#[trigger] self.slots[i]).generation != 0
        &&& self.free.no_duplicates()
        &&& forall|k: int|
            0 <= k < self.free.len() ==> self.is_empty_slot(#[trigger] self.free[k])
        &&& forall|i: int| #[trigger] self.is_empty_slot(i) ==> self.free.contains(i)
    }

    /// The numbers of the occupied slots.
    pub open spec fn occupied(self) -> Set<int> {
        Set::new(|i: int| self.is_occupied(i))
    }

    /// The number of values held.
    pub open spec fn len(self) -> nat {
        self.occupied().len()
    }

    /// The index that reaches the occupant of `slot`.
    pub open spec fn index_at(self, slot: int) -> IndexView {
        IndexView { slot: slot as u32, generation: self.slots[slot].generation }
    }

    /// `index` is valid: its slot is occupied and has the index's generation.
    pub open spec fn contains(self, index: IndexView) -> bool {
        self.is_occupied(index.slot as int) && self.slots[index.slot as int].generation
            == index.generation
    }

    /// The value that `index` reaches, if it is valid.
    pub open spec fn get(self, index: IndexView) -> Option<T> {
        if self.contains(index) {
            self.slots[index.slot as int].value
        } else {
            None
        }
    }

    /// The valid indices.
    pub open spec fn live(self) -> Set<IndexView> {
        Set::new(|index: IndexView| self.contains(index))
    }

    /// The arena with the value of the occupied `slot` replaced by `value`.
    pub open spec fn with_value(self, slot: int, value: T) -> Self {
        ArenaView {
            slots: self.slots.update(
                slot,
                Slot { generation: self.slots[slot].generation, value: Some(value) },
            ),
            free: self.free,
        }
    }

    /// The arena with the value of the occupied `slot` replaced where a value
    /// is given, and as it is where none is.
    pub open spec fn with_optional_value(self, slot: int, value: Option<T>) -> Self {
        match value {
            Some(v) => self.with_value(slot, v),
            None => self,
        }
    }

    /// The index that the next insertion hands out: the head of the free list
    /// with that slot's next generation, or a new slot with generation 1.
    pub open spec fn next_index(self) -> IndexView {
        if self.free.len() > 0 {
            IndexView {
                slot: self.free[0] as u32,
                generation: next_generation(self.slots[self.free[0]].generation),
            }
        } else {
            IndexView { slot: self.slots.len() as u32, generation: 1 }
        }
    }

    /// The arena after `value` was inserted, at [`Self::next_index`].
    pub open spec fn insert(self, value: T) -> Self {
        let index = self.next_index();
        let slot = Slot { generation: index.generation, value: Some(value) };
        if self.free.len() > 0 {
            ArenaView {
                slots: self.slots.update(index.slot as int, slot),
                free: self.free.drop_first(),
            }
        } else {
            ArenaView { slots: self.slots.push(slot), free: self.free }
        }
    }

    /// The arena after the occupant of `slot` was removed: the slot keeps its
    /// generation and becomes the head of the free list. Nothing changes where
    /// the slot is not occupied.
    pub open spec fn remove_slot(self, slot: int) -> Self {
        if self.is_occupied(slot) {
            ArenaView {
                slots: self.slots.update(
                    slot,
                    Slot { generation: self.slots[slot].generation, value: None },
                ),
                free: seq![slot] + self.free,
            }
        } else {
            self
        }
    }

    /// The arena after the value at `index` was removed. Nothing changes where
    /// the index is not valid.
    pub open spec fn remove(self, index: IndexView) -> Self {
        if self.contains(index) {
            self.remove_slot(index.slot as int)
        } else {
            self
        }
    }

    /// The arena after `index` was invalidated: its slot moves on to the next
    /// generation and keeps its value. Nothing changes where the index is not
    /// valid.
    pub open spec fn invalidate(self, index: IndexView) -> Self {
        if self.contains(index) {
            ArenaView {
                slots: self.slots.update(
                    index.slot as int,
                    Slot {
                        generation: next_generation(index.generation),
                        value: self.slots[index.slot as int].value,
                    },
                ),
                free: self.free,
            }
        } else {
            self
        }
    }

    /// The generation that a value placed at `slot` gets: the one asked for,
    /// else the one after the slot's present generation, else 1 for a slot that
    /// does not exist yet.
    pub open spec fn generation_at(self, slot: int, generation: Option<u32>) -> u32 {
        match generation {
            Some(g) => g,
            None => if 0 <= slot < self.slots.len() {
                next_generation(self.slots[slot].generation)
            } else {
                1
            },
        }
    }

    /// The arena after `value` was placed at `slot`.
    ///
    /// An empty slot leaves the free list, wherever it stood there, and the
    /// others keep their order. An occupied slot gets the new value. A slot
    /// past the end is created, and so are all slots between the end and it:
    /// these are empty, have generation 1, and go to the front of the free
    /// list, the highest first.
    pub open spec fn insert_at(self, slot: int, generation: Option<u32>, value: T) -> Self {
        let placed = Slot { generation: self.generation_at(slot, generation), value: Some(value) };
        if self.is_empty_slot(slot) {
            ArenaView {
                slots: self.slots.update(slot, placed),
                free: self.free.remove(self.free.index_of(slot)),
            }
        } else if self.is_occupied(slot) {
            ArenaView { slots: self.slots.update(slot, placed), free: self.free }
        } else {
            let n = self.slots.len() as int;
            ArenaView {
                slots: self.slots + vacant(slot - n).push(placed),
                free: descending(n, slot) + self.free,
            }
        }
    }

    /// The arena after the slots from `from` up to, not including, `upto` were
    /// gone through in ascending order and each occupied one was either kept
    /// with the value that `outcome` holds for it, or removed where `outcome`
    /// holds `None`.
    pub open spec fn retain_range(self, from: int, upto: int, outcome: Seq<Option<T>>) -> Self
        decreases upto - from,
    {
        if upto <= from {
            self
        } else {
            let before = self.retain_range(from, upto - 1, outcome);
            if before.is_occupied(upto - 1) {
                match outcome[upto - 1] {
                    Some(value) => before.with_value(upto - 1, value),
                    None => before.remove_slot(upto - 1),
                }
            } else {
                before
            }
        }
    }

    /// The arena after all its slots were gone through as in
    /// [`Self::retain_range`].
    pub open spec fn retain(self, outcome: Seq<Option<T>>) -> Self {
        self.retain_range(0, self.slots.len() as int, outcome)
    }

    /// The arena after it was cleared: every value is removed, slot by slot in
    /// ascending order. The slots stay, with their generations.
    pub open spec fn clear(self) -> Self {
        self.retain(Seq::new(self.slots.len(), |i: int| None))
    }

    /// The arena with one slot more at the end, of the given generation: with
    /// the value, or empty and then the head of the free list.
    pub open spec fn push_slot(self, generation: u32, value: Option<T>) -> Self {
        ArenaView {
            slots: self.slots.push(Slot { generation, value }),
            free: if value is None {
                seq![self.slots.len() as int] + self.free
            } else {
                self.free
            },
        }
    }

    /// The arena built from the first `upto` of the given pairs of a
    /// generation and a value, each pair making one slot.
    pub open spec fn from_pairs_below(pairs: Seq<(u32, Option<T>)>, upto: int) -> Self
        decreases upto,
    {
        if upto <= 0 {
            Self::empty()
        } else {
            Self::from_pairs_below(pairs, upto - 1).push_slot(pairs[upto - 1].0, pairs[upto - 1].1)
        }
    }

    /// The arena built from pairs of a generation and a value, one pair for
    /// each slot in ascending order. A pair without a value makes an empty
    /// slot; of the empty slots, the last is the first to be used again.
    pub open spec fn from_pairs(pairs: Seq<(u32, Option<T>)>) -> Self {
        Self::from_pairs_below(pairs, pairs.len() as int)
    }

    /// The arena as pairs of a generation and a value, one pair for each slot
    /// in ascending order. The pair of an empty slot holds no value.
    pub open spec fn pairs(self) -> Seq<(u32, Option<T>)> {
        Seq::new(self.slots.len(), |i: int| (self.slots[i].generation, self.slots[i].value))
    }

    /// `slot` is the first occupied slot at or after `from`.
    pub open spec fn is_next_occupied(self, from: int, slot: int) -> bool {
        &&& from <= slot
        &&& self.is_occupied(slot)
        &&& forall|i: int| from <= i < slot ==> !self.is_occupied(i)
    }

    /// `slot` is the last occupied slot before `end`.
    pub open spec fn is_last_occupied(self, end: int, slot: int) -> bool {
        &&& slot < end
        &&& self.is_occupied(slot)
        &&& forall|i: int| slot < i < end ==> !self.is_occupied(i)
    }

    /// The numbers of the occupied slots from `from` up to, not including,
    /// `end`.
    pub open spec fn occupied_between(self, from: int, end: int) -> Set<int> {
        Set::new(|i: int| from <= i < end && self.is_occupied(i))
    }

    /// The valid indices with their values, for the slots below `upto` in
    /// ascending order.
    pub open spec fn entries_below(self, upto: int) -> Seq<(IndexView, T)>
        decreases upto,
    {
        if upto <= 0 {
            Seq::empty()
        } else if self.is_occupied(upto - 1) {
            self.entries_below(upto - 1).push(
                (self.index_at(upto - 1), self.slots[upto - 1].value.unwrap()),
            )
        } else {
            self.entries_below(upto - 1)
        }
    }

    /// The valid indices with their values, in ascending order of slots.
    pub open spec fn entries(self) -> Seq<(IndexView, T)> {
        self.entries_below(self.slots.len() as int)
    }
}

} // verus!
