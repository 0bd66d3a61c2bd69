//! The arena: its storage, its free list and the operations on them.

use vstd::prelude::*;
use std::collections::VecDeque;
use crate::entry::{links_of, pair_mut, slots_of, EmptyEntry, Entry, OccupiedEntry};
use crate::free_list::{
    chain, leads_to, lemma_chain_kept, lemma_chain_pop_front, lemma_chain_push_front, lemma_chain_unique,
    lemma_chain_unlink,
};
use crate::free_pointer::FreePointer;
use crate::generation::{next_generation, Generation};
use crate::index::{Index, IndexView};
use crate::iter::drain::{pairs, Drain};
use crate::iter::drain_filter::DrainFilter;
use crate::iter::into_iter::IntoIter;
use crate::iter::iter::Iter;
use crate::iter::iter_mut::IterMut;
use crate::model::{descending, vacant, ArenaView, Slot};

verus! {

/// The parts of an arena fit together: `free` is the list threaded through
/// the storage, the state they stand for is well formed, and `len` counts the
/// occupied entries.
pub(crate) open spec fn consistent<T>(
    storage: Seq<Entry<T>>,
    len: u32,
    head: Option<FreePointer>,
    free: Seq<int>,
) -> bool {
    &&& chain(links_of(storage), head, free)
    &&& (ArenaView { slots: slots_of(storage), free }).wf()
    &&& len + free.len() == storage.len()
}

/// The number of a generation that may be given.
pub(crate) open spec fn generation_number(generation: Option<Generation>) -> Option<u32> {
    match generation {
        Some(g) => Some(g@),
        None => None,
    }
}

/// `Vec::capacity`: the number of elements that the vector can hold without
/// reallocating, which is at least its length.
#[verifier::external_body]
fn vec_capacity<T>(v: &Vec<T>) -> (capacity: usize)
    ensures
        capacity >= v@.len(),
{
    v.capacity()
}

/// The error of [`Arena::from_pairs`]: a pair held the generation zero, which
/// no slot can have.
#[derive(Debug, Clone, Copy, PartialEq, Eq)]
pub struct InvalidGeneration {
    /// The position of the first pair with the generation zero.
    pub position: usize,
}

/// Container that can have elements inserted into it and removed from it.
///
/// Indices use the [`Index`] type, created by inserting values with
/// [`Arena::insert`].
#[derive(Debug)]
pub struct Arena<T> {
    storage: Vec<Entry<T>>,
    len: u32,
    first_free: Option<FreePointer>,
}

impl<T> View for Arena<T> {
    type V = ArenaView<T>;

    closed spec fn view(&self) -> ArenaView<T> {
        ArenaView { slots: slots_of(self.storage@), free: self.free_list() }
    }
}

// What it is for an arena to be well formed, and what keeps it so.
impl<T> Arena<T> {
    /// The free list: the slots reached from `first_free`, in order.
    spec fn free_list(self) -> Seq<int> {
        choose|free: Seq<int>| chain(links_of(self.storage@), self.first_free, free)
    }

    /// The arena is well formed: its free list is threaded through its empty
    /// entries and reaches each of them once, and its length counts the
    /// occupied ones. Every operation keeps an arena well formed.
    pub closed spec fn wf(self) -> bool {
        consistent(self.storage@, self.len, self.first_free, self.free_list())
    }

    /// The state of a well-formed arena is well formed.
    pub proof fn lemma_view_wf(self)
        requires
            self.wf(),
        ensures
            self@.wf(),
    {
    }

    /// An arena made of consistent parts is well formed, and its free list is
    /// the one the parts were consistent with.
    proof fn lemma_assembled(self, free: Seq<int>)
        requires
            consistent(self.storage@, self.len, self.first_free, free),
        ensures
            self.wf(),
            self@ == (ArenaView { slots: slots_of(self.storage@), free }),
    {
        lemma_chain_unique(links_of(self.storage@), self.first_free, free, self.free_list());
    }

    /// `after` has this arena's generations and links, entry by entry: the two
    /// differ in values at most.
    spec fn same_shape(self, after: Self) -> bool {
        &&& after.len == self.len
        &&& after.first_free == self.first_free
        &&& after.storage@.len() == self.storage@.len()
        &&& forall|i: int|
            0 <= i < self.storage@.len() ==> (#[trigger] after.storage@[i]).link()
                == self.storage@[i].link() && after.storage@[i].slot().generation
                == self.storage@[i].slot().generation
    }

    /// An arena with the generations and links of a well-formed one is well
    /// formed, and has the same free list.
    proof fn lemma_same_shape(self, after: Self)
        requires
            self.wf(),
            self.same_shape(after),
        ensures
            after.wf(),
            after@.free == self@.free,
            after@.slots == slots_of(after.storage@),
    {
        let free = self.free_list();
        let before = self@;
        let changed = ArenaView { slots: slots_of(after.storage@), free };
        assert(links_of(after.storage@) =~= links_of(self.storage@));
        assert forall|i: int| 0 <= i < self.storage@.len() implies (changed.is_empty_slot(i)
            <==> before.is_empty_slot(i)) by {
            assert(after.storage@[i].link() == self.storage@[i].link());
        }
        assert forall|k: int| 0 <= k < free.len() implies changed.is_empty_slot(
            #[trigger] free[k],
        ) by {
            assert(before.is_empty_slot(free[k]));
        }
        assert forall|i: int| #[trigger] changed.is_empty_slot(i) implies free.contains(i) by {
            assert(before.is_empty_slot(i));
        }
        assert forall|i: int| 0 <= i < changed.slots.len() implies (#[trigger] changed.slots[i]).generation
            != 0 by {
            assert(after.storage@[i].slot().generation == self.storage@[i].slot().generation);
            assert(before.slots[i].generation != 0);
        }
        assert(chain(links_of(after.storage@), after.first_free, free));
        assert(changed.wf());
        after.lemma_assembled(free);
    }

    /// `after` is this arena but for the value of the entry at `slot`.
    spec fn value_changed(self, after: Self, slot: int) -> bool {
        &&& 0 <= slot < self.storage@.len()
        &&& after.len == self.len
        &&& after.first_free == self.first_free
        &&& after.storage@ == self.storage@.update(slot, after.storage@[slot])
        &&& after.storage@[slot].link() == self.storage@[slot].link()
        &&& after.storage@[slot].slot().generation == self.storage@[slot].slot().generation
    }

    /// An arena stays well formed when the value of an occupied entry is
    /// replaced, whatever the new value is.
    proof fn lemma_value_changed(self, after: Self, slot: int)
        requires
            self.wf(),
            self.value_changed(after, slot),
        ensures
            after.wf(),
            after.storage@[slot] == self.storage@[slot] ==> after@ == self@,
            self.storage@[slot] is Occupied ==> after@ == self@.with_value(
                slot,
                after.storage@[slot]->Occupied_0.value,
            ),
    {
        self.lemma_same_shape(after);
        if after.storage@[slot] == self.storage@[slot] {
            assert(after@.slots =~= self@.slots);
        }
        if self.storage@[slot] is Occupied {
            assert(after@.slots =~= self@.with_value(
                slot,
                after.storage@[slot]->Occupied_0.value,
            ).slots);
        }
    }

    /// What [`Self::lemma_value_changed`] says, of every arena at once.
    proof fn lemma_values_may_change(self, slot: int)
        requires
            self.wf(),
        ensures
            forall|after: Self| #[trigger]
                after.wf() || !self.value_changed(after, slot),
            forall|after: Self|
                self.value_changed(after, slot) && self.storage@[slot] is Occupied
                    ==> #[trigger] after@ == self@.with_value(
                    slot,
                    after.storage@[slot]->Occupied_0.value,
                ),
            forall|after: Self|
                self.value_changed(after, slot) && after.storage@[slot] == self.storage@[slot]
                    ==> #[trigger] after@ == self@,
    {
        assert forall|after: Self| self.value_changed(after, slot) implies #[trigger] after.wf() by {
            self.lemma_value_changed(after, slot);
        }
        assert forall|after: Self|
            self.value_changed(after, slot) && self.storage@[slot]
                is Occupied implies #[trigger] after@ == self@.with_value(
            slot,
            after.storage@[slot]->Occupied_0.value,
        ) by {
            self.lemma_value_changed(after, slot);
        }
        assert forall|after: Self|
            self.value_changed(after, slot) && after.storage@[slot]
                == self.storage@[slot] implies #[trigger] after@ == self@ by {
            self.lemma_value_changed(after, slot);
        }
    }

    /// `after` is this arena but for the values of the entries at `a` and at
    /// `b`: each is replaced by the value given for it, or untouched where
    /// none is given.
    spec fn pair_changed(
        self,
        after: Self,
        a: int,
        first: Option<T>,
        b: int,
        second: Option<T>,
    ) -> bool {
        &&& a != b
        &&& after.len == self.len
        &&& after.first_free == self.first_free
        &&& after.storage@.len() == self.storage@.len()
        &&& forall|i: int|
            0 <= i < self.storage@.len() && i != a && i != b ==> after.storage@[i]
                == self.storage@[i]
        &&& self.entry_changed(after, a, first)
        &&& self.entry_changed(after, b, second)
    }

    /// The entry at `slot` has in `after` the value given, or is untouched
    /// where none is given.
    spec fn entry_changed(self, after: Self, slot: int, value: Option<T>) -> bool {
        match value {
            Some(v) => {
                &&& 0 <= slot < self.storage@.len()
                &&& self.storage@[slot].slot().value is Some
                &&& after.storage@[slot].link() is None
                &&& after.storage@[slot].slot() == (Slot {
                    generation: self.storage@[slot].slot().generation,
                    value: Some(v),
                })
            },
            None => 0 <= slot < self.storage@.len() ==> after.storage@[slot]
                == self.storage@[slot],
        }
    }

    /// An arena stays well formed when the values of two occupied entries are
    /// replaced, whatever the new values are.
    proof fn lemma_pair_changed(
        self,
        after: Self,
        a: int,
        first: Option<T>,
        b: int,
        second: Option<T>,
    )
        requires
            self.wf(),
            self.pair_changed(after, a, first, b, second),
        ensures
            after.wf(),
            after@ == self@.with_optional_value(a, first).with_optional_value(b, second),
    {
        assert(self.same_shape(after)) by {
            assert forall|i: int| 0 <= i < self.storage@.len() implies (#[trigger] after.storage@[i]).link()
                == self.storage@[i].link() && after.storage@[i].slot().generation
                == self.storage@[i].slot().generation by {
                if i == a {
                    assert(self.entry_changed(after, a, first));
                } else if i == b {
                    assert(self.entry_changed(after, b, second));
                }
            }
        }
        self.lemma_same_shape(after);
        assert(after@.slots =~= self@.with_optional_value(a, first).with_optional_value(
            b,
            second,
        ).slots) by {
            assert forall|i: int| 0 <= i < self.storage@.len() implies after@.slots[i]
                == self@.with_optional_value(a, first).with_optional_value(b, second).slots[i] by {
                if i == a {
                    assert(self.entry_changed(after, a, first));
                } else if i == b {
                    assert(self.entry_changed(after, b, second));
                }
            }
        }
    }

    /// Where `after` is this arena but for two values, it is well formed and
    /// its state is this one's with the two values replaced.
    spec fn pair_result(
        self,
        after: Self,
        a: int,
        first: Option<T>,
        b: int,
        second: Option<T>,
    ) -> bool {
        after.wf() && after@ == self@.with_optional_value(a, first).with_optional_value(b, second)
    }

    /// What [`Self::lemma_pair_changed`] says, of every arena and all values
    /// at once.
    proof fn lemma_pair_may_change(self, a: int, b: int)
        requires
            self.wf(),
        ensures
            forall|after: Self, first: Option<T>, second: Option<T>|
                self.pair_changed(after, a, first, b, second) ==> #[trigger] self.pair_result(
                    after,
                    a,
                    first,
                    b,
                    second,
                ),
    {
        assert forall|after: Self, first: Option<T>, second: Option<T>|
            self.pair_changed(after, a, first, b, second) implies #[trigger] self.pair_result(
            after,
            a,
            first,
            b,
            second,
        ) by {
            self.lemma_pair_changed(after, a, first, b, second);
        }
    }
}

// Making an arena, and its size.
impl<T> Arena<T> {
    /// Construct an empty arena.
    pub fn new() -> (arena: Self)
        ensures
            arena.wf(),
            arena@ == ArenaView::<T>::empty(),
            arena@.len() == 0,
    {
        let arena = Arena { storage: Vec::new(), len: 0, first_free: None };
        proof {
            assert(slots_of(arena.storage@) =~= Seq::<Slot<T>>::empty());
            arena.lemma_assembled(Seq::empty());
            arena@.lemma_len();
        }
        arena
    }

    /// Construct an empty arena with space to hold exactly `capacity` elements
    /// without reallocating.
    pub fn with_capacity(capacity: usize) -> (arena: Self)
        ensures
            arena.wf(),
            arena@ == ArenaView::<T>::empty(),
            arena@.len() == 0,
    {
        let arena = Arena { storage: Vec::with_capacity(capacity), len: 0, first_free: None };
        proof {
            assert(slots_of(arena.storage@) =~= Seq::<Slot<T>>::empty());
            arena.lemma_assembled(Seq::empty());
            arena@.lemma_len();
        }
        arena
    }

    /// Return the number of elements contained in the arena.
    pub fn len(&self) -> (len: usize)
        requires
            self.wf(),
        ensures
            len == self@.len(),
            len <= u32::MAX,
    {
        proof {
            self@.lemma_len();
        }
        self.len as usize
    }

    /// Return the number of elements the arena can hold without allocating,
    /// including the elements currently in the arena.
    pub fn capacity(&self) -> (capacity: usize)
        ensures
            capacity >= self@.slots.len(),
    {
        vec_capacity(&self.storage)
    }

    /// Returns whether the arena is empty.
    pub fn is_empty(&self) -> (empty: bool)
        requires
            self.wf(),
        ensures
            empty <==> self@.len() == 0,
    {
        proof {
            self@.lemma_len();
        }
        self.len == 0
    }

    /// The number of slots that the arena has, occupied or not.
    pub(crate) fn len_storage(&self) -> (slots: usize)
        requires
            self.wf(),
        ensures
            slots == self@.slots.len(),
            slots <= u32::MAX,
    {
        self.storage.len()
    }
}

// Putting values in.
impl<T> Arena<T> {
    /// Insert a new value into the arena, returning an index that can be used
    /// to later retrieve the value.
    ///
    /// The value takes the slot that was freed last, under that slot's next
    /// generation; if no slot is free, it takes a new slot, under the first
    /// generation. An arena holds at most `u32::MAX` values.
    pub fn insert(&mut self, value: T) -> (index: Index)
        requires
            old(self).wf(),
            old(self)@.len() < u32::MAX,
        ensures
            final(self).wf(),
            final(self)@ == old(self)@.insert(value),
            final(self)@.len() == old(self)@.len() + 1,
            index@ == old(self)@.next_index(),
    {
        let ghost before = old(self)@;
        let ghost links = links_of(old(self).storage@);
        proof {
            before.lemma_len();
            before.lemma_insert(value);
        }
        // This value will definitely be inserted, so we can update length now.
        self.len = self.len + 1;
        // If there was a previously free entry, we can re-use its slot as long
        // as we increment its generation.
        match self.first_free {
            Some(pointer) => {
                let slot: u32 = pointer.slot();
                proof {
                    lemma_chain_kept(links, self.first_free, before.free, links);
                }
                let empty: EmptyEntry = *self.storage[slot as usize].as_empty().unwrap();
                // If there is another empty entry after this one, the arena
                // points to it from now on, to use it on the next insertion.
                self.first_free = empty.next_free;
                let generation = empty.generation.next();
                self.storage[slot as usize] = Entry::Occupied(OccupiedEntry { generation, value });
                proof {
                    assert(slots_of(self.storage@) =~= before.insert(value).slots);
                    lemma_chain_pop_front(
                        links,
                        old(self).first_free,
                        before.free,
                        links_of(self.storage@),
                    );
                    self.lemma_assembled(before.free.drop_first());
                }
                Index::new(slot, generation)
            },
            None => {
                // There were no more empty entries left in our free list, so
                // we'll create a new first-generation entry and push it into
                // storage.
                let generation = Generation::first();
                let slot: u32 = self.storage.len() as u32;
                self.storage.push(Entry::Occupied(OccupiedEntry { generation, value }));
                proof {
                    assert(slots_of(self.storage@) =~= before.insert(value).slots);
                    self.lemma_assembled(before.free);
                }
                Index::new(slot, generation)
            },
        }
    }

    /// Insert a new value at a given index, returning the old value if
    /// present. The entry's generation is set to the given index's
    /// generation.
    ///
    /// Storage is extended up to the slot where it ends before it, and the
    /// slots made on the way are free. The last slot that a `u32` can number
    /// is not available.
    ///
    /// # Caveats
    ///
    /// This method is capable of "resurrecting" an old `Index`: after the slot
    /// was given an earlier generation than it had, insertions and removals
    /// can lead to an index that matches one handed out before.
    pub fn insert_at(&mut self, index: Index, value: T) -> (old_value: Option<T>)
        requires
            old(self).wf(),
            index@.slot < u32::MAX,
        ensures
            final(self).wf(),
            final(self)@ == old(self)@.insert_at(
                index@.slot as int,
                Some(index@.generation),
                value,
            ),
            final(self)@.get(index@) == Some(value),
            final(self)@.len() == old(self)@.len() + if old_value is Some {
                0int
            } else {
                1int
            },
            old_value == if old(self)@.is_occupied(index@.slot as int) {
                old(self)@.slots[index@.slot as int].value
            } else {
                None
            },
    {
        let generation = index.generation_of();
        proof {
            use_type_invariant(&generation);
            old(self)@.lemma_insert_at(index@.slot as int, Some(index@.generation), value);
        }
        self.insert_at_inner(index.slot(), Some(generation), value).1
    }

    /// Insert a new value at a given slot, returning the old value if
    /// present. If the slot is already occupied, this will increment the
    /// generation of the slot, and invalidate any previous indices pointing
    /// to it.
    ///
    /// The last slot that a `u32` can number is not available.
    pub fn insert_at_slot(&mut self, slot: u32, value: T) -> (r: (Index, Option<T>))
        requires
            old(self).wf(),
            slot < u32::MAX,
        ensures
            final(self).wf(),
            final(self)@ == old(self)@.insert_at(slot as int, None, value),
            r.0@ == (IndexView { slot, generation: old(self)@.generation_at(slot as int, None) }),
            final(self)@.get(r.0@) == Some(value),
            final(self)@.len() == old(self)@.len() + if r.1 is Some {
                0int
            } else {
                1int
            },
            r.1 == if old(self)@.is_occupied(slot as int) {
                old(self)@.slots[slot as int].value
            } else {
                None
            },
    {
        proof {
            old(self)@.lemma_insert_at(slot as int, None, value);
        }
        self.insert_at_inner(slot, None, value)
    }

    /// Shared functionality between `insert_at` and `insert_at_slot`.
    ///
    /// Three cases: the slot is free, and leaves the free list before it takes
    /// the value; the slot is occupied, and the value replaces the old one;
    /// the slot is beyond the end of the storage, which is then extended with
    /// empty slots, each added to the free list, up to the slot.
    fn insert_at_inner(&mut self, slot: u32, generation: Option<Generation>, value: T) -> (r: (
        Index,
        Option<T>,
    ))
        requires
            old(self).wf(),
            slot < u32::MAX,
        ensures
            final(self).wf(),
            final(self)@ == old(self)@.insert_at(slot as int, generation_number(generation), value),
            r.0@ == (IndexView {
                slot,
                generation: old(self)@.generation_at(slot as int, generation_number(generation)),
            }),
            r.1 == if old(self)@.is_occupied(slot as int) {
                old(self)@.slots[slot as int].value
            } else {
                None
            },
    {
        let ghost before = old(self)@;
        let ghost number = generation_number(generation);
        let ghost after = before.insert_at(slot as int, number, value);
        proof {
            if let Some(given) = generation {
                use_type_invariant(&given);
            }
            before.lemma_len();
            before.lemma_insert_at(slot as int, number, value);
        }
        if (slot as usize) < self.storage.len() {
            match self.storage[slot as usize].as_empty() {
                Some(empty) => {
                    let empty: EmptyEntry = *empty;
                    let generation = match generation {
                        Some(given) => given,
                        None => empty.generation.next(),
                    };
                    // Whatever pointer previously pointed to this empty entry
                    // will point to the next empty entry after it.
                    self.remove_slot_from_free_list(slot, empty.next_free);
                    let ghost unlinked = links_of(self.storage@);
                    self.storage[slot as usize] = Entry::Occupied(
                        OccupiedEntry { generation, value },
                    );
                    self.len = self.len + 1;
                    proof {
                        assert(slots_of(self.storage@) =~= after.slots);
                        assert(!after.free.contains(slot as int)) by {
                            assert forall|k: int| 0 <= k < after.free.len() implies after.free[k]
                                != slot by {
                                assert(after.is_empty_slot(after.free[k]));
                            }
                        }
                        assert forall|k: int| 0 <= k < after.free.len() implies links_of(
                            self.storage@,
                        )[#[trigger] after.free[k]] == unlinked[after.free[k]] by {
                            assert(after.free.contains(after.free[k]));
                        }
                        assert(chain(links_of(self.storage@), self.first_free, after.free));
                        self.lemma_assembled(after.free);
                    }
                    (Index::new(slot, generation), None)
                },
                None => {
                    let mut placed = value;
                    let generation = match &mut self.storage[slot as usize] {
                        Entry::Occupied(occupied) => {
                            occupied.generation = match generation {
                                Some(given) => given,
                                None => occupied.generation.next(),
                            };
                            core::mem::swap(&mut occupied.value, &mut placed);
                            occupied.generation
                        },
                        Entry::Empty(empty) => empty.generation,
                    };
                    proof {
                        assert(slots_of(self.storage@) =~= after.slots);
                        lemma_chain_kept(
                            links_of(old(self).storage@),
                            self.first_free,
                            before.free,
                            links_of(self.storage@),
                        );
                        self.lemma_assembled(before.free);
                    }
                    (Index::new(slot, generation), Some(placed))
                },
            }
        } else {
            self.extend_to(slot);
            let generation = match generation {
                Some(given) => given,
                None => Generation::first(),
            };
            let ghost extended = self@;
            let ghost extended_links = links_of(self.storage@);
            self.storage.push(Entry::Occupied(OccupiedEntry { generation, value }));
            self.len = self.len + 1;
            proof {
                let placed = Slot { generation: generation@, value: Some(value) };
                assert(slots_of(self.storage@) =~= extended.slots.push(placed));
                assert(extended.slots.push(placed) =~= after.slots);
                lemma_chain_kept(
                    extended_links,
                    self.first_free,
                    extended.free,
                    links_of(self.storage@),
                );
                self.lemma_assembled(extended.free);
            }
            (Index::new(slot, generation), None)
        }
    }

    /// Traverse the free list and remove this known-empty slot from it, given
    /// the slot to remove and the `next_free` pointer of that slot.
    ///
    /// Whatever pointed to the slot, the head or an entry, points to the
    /// slot's successor afterwards; the other slots keep their order. The
    /// slot itself is left as it is, empty and outside the list, for the
    /// caller to fill.
    fn remove_slot_from_free_list(&mut self, slot: u32, new_next_free: Option<FreePointer>)
        requires
            old(self).wf(),
            old(self)@.is_empty_slot(slot as int),
            old(self).storage@[slot as int].link() is Some,
            new_next_free == old(self).storage@[slot as int].link().unwrap().next_free,
        ensures
            final(self).len == old(self).len,
            slots_of(final(self).storage@) == old(self)@.slots,
            final(self).storage@[slot as int] == old(self).storage@[slot as int],
            chain(
                links_of(final(self).storage@),
                final(self).first_free,
                old(self)@.free.remove(old(self)@.free.index_of(slot as int)),
            ),
    {
        let ghost free = old(self)@.free;
        let ghost target = free.index_of(slot as int);
        let ghost links = links_of(old(self).storage@);
        proof {
            assert(free.contains(slot as int));
        }
        // As state during this traversal, we keep the "next free" pointer
        // which we are testing as well as the current slot that contains that
        // pointer. If the current slot is `None`, the container of the
        // pointer is the root, `self.first_free`.
        let mut next_fp: FreePointer = self.first_free.unwrap();
        let mut current_slot: Option<u32> = None;
        let ghost mut k: int = 0;
        while next_fp.slot() != slot
            invariant
                *self == *old(self),
                chain(links, self.first_free, free),
                links == links_of(self.storage@),
                free.no_duplicates(),
                0 <= k <= target < free.len(),
                free[target] == slot,
                next_fp@ == free[k],
                match current_slot {
                    Some(previous) => k > 0 && previous == free[k - 1],
                    None => k == 0,
                },
            decreases free.len() - k,
        {
            let here: u32 = next_fp.slot();
            current_slot = Some(here);
            assert(links[free[k]] is Some && leads_to(links[free[k]].unwrap().next_free, free, k + 1));
            next_fp = self.storage[here as usize].as_empty().unwrap().next_free.unwrap();
            proof {
                k = k + 1;
            }
        }
        // If we found the slot to fix, then fix it; otherwise, this slot is
        // the very first in the free list, so fix it at the root.
        match current_slot {
            Some(slot_to_fix) => {
                assert(links[free[k - 1]] is Some);
                match self.storage[slot_to_fix as usize].as_empty_mut() {
                    Some(empty) => {
                        empty.next_free = new_next_free;
                    },
                    None => {},
                }
            },
            None => {
                self.first_free = new_next_free;
            },
        }
        proof {
            assert(slots_of(self.storage@) =~= old(self)@.slots);
            assert(k == 0 ==> links_of(self.storage@) =~= links);
            lemma_chain_unlink(
                links,
                old(self).first_free,
                free,
                k,
                links_of(self.storage@),
                self.first_free,
            );
        }
    }

    /// Extend the storage with free slots until `slot` is the next slot to be
    /// made. The slots are added to the free list as they are made, so that
    /// the highest comes to stand first.
    fn extend_to(&mut self, slot: u32)
        requires
            old(self).wf(),
            old(self)@.slots.len() <= slot < u32::MAX,
        ensures
            final(self).wf(),
            final(self).len == old(self).len,
            final(self).storage@.len() == slot,
            final(self)@.slots == old(self)@.slots + vacant::<T>(slot - old(self)@.slots.len()),
            final(self)@.free == descending(old(self)@.slots.len() as int, slot as int) + old(
                self,
            )@.free,
    {
        let ghost before = old(self)@;
        let ghost n = before.slots.len() as int;
        proof {
            assert(self@.slots =~= before.slots + vacant::<T>(0));
            assert(self@.free =~= descending(n, n) + before.free);
        }
        while self.storage.len() < slot as usize
            invariant
                self.wf(),
                self.len == old(self).len,
                n == before.slots.len(),
                n <= self.storage@.len() <= slot < u32::MAX,
                self@.slots == before.slots + vacant::<T>(self.storage@.len() - n),
                self@.free == descending(n, self.storage@.len() as int) + before.free,
            decreases slot - self.storage@.len(),
        {
            proof {
                before.lemma_one_more_vacant(self@, self.storage@.len() - n);
            }
            self.push_free_slot(Generation::first());
        }
    }

    /// Add a slot at the end of the storage: empty, of the given generation,
    /// and the head of the free list.
    fn push_free_slot(&mut self, generation: Generation)
        requires
            old(self).wf(),
            old(self)@.slots.len() < u32::MAX,
        ensures
            final(self).wf(),
            final(self).len == old(self).len,
            final(self).storage@.len() == old(self).storage@.len() + 1,
            final(self)@ == old(self)@.push_slot(generation@, None),
    {
        let ghost before = old(self)@;
        let ghost old_storage = old(self).storage@;
        let new_slot: u32 = self.storage.len() as u32;
        proof {
            use_type_invariant(&generation);
        }
        self.storage.push(Entry::Empty(EmptyEntry { generation, next_free: self.first_free }));
        self.first_free = Some(FreePointer::from_slot(new_slot));
        proof {
            let free = seq![new_slot as int] + before.free;
            let after = ArenaView { slots: slots_of(self.storage@), free };
            before.lemma_len();
            assert(after.slots =~= before.slots.push(Slot { generation: generation@, value: None }));
            assert(!before.free.contains(new_slot as int)) by {
                assert forall|k: int| 0 <= k < before.free.len() implies before.free[k]
                    != new_slot by {
                    assert(before.is_empty_slot(before.free[k]));
                }
            }
            lemma_chain_push_front(
                links_of(old_storage),
                old(self).first_free,
                before.free,
                links_of(self.storage@),
                self.first_free,
                new_slot as int,
            );
            assert forall|k: int| 0 <= k < free.len() implies after.is_empty_slot(
                #[trigger] free[k],
            ) by {
                if k > 0 {
                    assert(before.is_empty_slot(before.free[k - 1]));
                }
            }
            assert forall|i: int| #[trigger] after.is_empty_slot(i) implies free.contains(i) by {
                if i == new_slot {
                    assert(free[0] == i);
                } else {
                    assert(before.is_empty_slot(i));
                    let k = choose|k: int| 0 <= k < before.free.len() && before.free[k] == i;
                    assert(free[k + 1] == i);
                }
            }
            assert(after.wf());
            self.lemma_assembled(free);
        }
    }

    /// Add a slot at the end of the storage, of the given generation: with the
    /// value, or empty and then the head of the free list.
    pub(crate) fn push_slot(&mut self, generation: Generation, value: Option<T>)
        requires
            old(self).wf(),
            old(self)@.slots.len() < u32::MAX,
        ensures
            final(self).wf(),
            final(self)@ == old(self)@.push_slot(generation@, value),
    {
        match value {
            Some(value) => {
                let ghost before = old(self)@;
                proof {
                    use_type_invariant(&generation);
                    before.lemma_len();
                    before.lemma_push_slot(generation@, Some(value));
                }
                self.storage.push(Entry::Occupied(OccupiedEntry { generation, value }));
                self.len = self.len + 1;
                proof {
                    assert(slots_of(self.storage@) =~= before.push_slot(
                        generation@,
                        Some(value),
                    ).slots);
                    lemma_chain_kept(
                        links_of(old(self).storage@),
                        self.first_free,
                        before.free,
                        links_of(self.storage@),
                    );
                    self.lemma_assembled(before.free);
                }
            },
            None => {
                self.push_free_slot(generation);
            },
        }
    }
}

// Looking values up.
impl<T> Arena<T> {
    /// Returns true if the given index is valid for the arena.
    pub fn contains(&self, index: Index) -> (valid: bool)
        requires
            self.wf(),
        ensures
            valid == self@.contains(index@),
    {
        let slot: usize = index.slot() as usize;
        if slot < self.storage.len() {
            match &self.storage[slot] {
                Entry::Occupied(occupied) => occupied.generation == index.generation_of(),
                Entry::Empty(_) => false,
            }
        } else {
            false
        }
    }

    /// Checks to see whether a slot is occupied in the arena, and if it is,
    /// returns `Some` with the true `Index` of that slot (slot plus
    /// generation.) Otherwise, returns `None`.
    pub fn contains_slot(&self, slot: u32) -> (index: Option<Index>)
        requires
            self.wf(),
        ensures
            index.is_some() <==> self@.is_occupied(slot as int),
            index.is_some() ==> index.unwrap()@ == self@.index_at(slot as int),
    {
        if (slot as usize) < self.storage.len() {
            match &self.storage[slot as usize] {
                Entry::Occupied(occupied) => Some(Index::new(slot, occupied.generation)),
                Entry::Empty(_) => None,
            }
        } else {
            None
        }
    }

    /// Get an immutable reference to a value inside the arena by [`Index`],
    /// returning `None` if the index is not contained in the arena.
    pub fn get(&self, index: Index) -> (value: Option<&T>)
        requires
            self.wf(),
        ensures
            match value {
                Some(v) => self@.get(index@) == Some(*v),
                None => self@.get(index@) is None,
            },
    {
        let slot: usize = index.slot() as usize;
        if slot < self.storage.len() {
            match &self.storage[slot] {
                Entry::Occupied(occupied) => {
                    if occupied.generation == index.generation_of() {
                        Some(&occupied.value)
                    } else {
                        None
                    }
                },
                Entry::Empty(_) => None,
            }
        } else {
            None
        }
    }

    /// Get a mutable reference to a value inside the arena by [`Index`],
    /// returning `None` if the index is not contained in the arena.
    pub fn get_mut(&mut self, index: Index) -> (value: Option<&mut T>)
        requires
            old(self).wf(),
        ensures
            final(self).wf(),
            match value {
                Some(v) => old(self)@.get(index@) == Some(*v) && final(self)@ == old(
                    self,
                )@.with_value(index@.slot as int, *final(v)),
                None => old(self)@.get(index@) is None && final(self)@ == old(self)@,
            },
    {
        let slot: usize = index.slot() as usize;
        if slot < self.storage.len() {
            proof {
                self.lemma_values_may_change(slot as int);
            }
            match &mut self.storage[slot] {
                Entry::Occupied(occupied) => {
                    if occupied.generation == index.generation_of() {
                        Some(&mut occupied.value)
                    } else {
                        None
                    }
                },
                Entry::Empty(_) => None,
            }
        } else {
            None
        }
    }

    /// Get mutable references of two values inside this arena at once by
    /// [`Index`], returning `None` if the corresponding `index` is not
    /// contained in this arena.
    ///
    /// The two indices must differ, in slot or in generation. Where they
    /// share the slot, at most one of them is valid.
    pub fn get2_mut(&mut self, index1: Index, index2: Index) -> (pair: (
        Option<&mut T>,
        Option<&mut T>,
    ))
        requires
            old(self).wf(),
            index1@ != index2@,
        ensures
            final(self).wf(),
            match pair.0 {
                Some(v) => old(self)@.get(index1@) == Some(*v),
                None => old(self)@.get(index1@) is None,
            },
            match pair.1 {
                Some(v) => old(self)@.get(index2@) == Some(*v),
                None => old(self)@.get(index2@) is None,
            },
            final(self)@ == old(self)@.with_optional_value(
                index1@.slot as int,
                match pair.0 {
                    Some(v) => Some(*final(v)),
                    None => None,
                },
            ).with_optional_value(
                index2@.slot as int,
                match pair.1 {
                    Some(v) => Some(*final(v)),
                    None => None,
                },
            ),
    {
        let slot1: usize = index1.slot() as usize;
        let slot2: usize = index2.slot() as usize;
        let generation1 = index1.generation_of();
        let generation2 = index2.generation_of();
        if slot1 == slot2 {
            // Only one of the two can be valid, because the slot has only one
            // generation.
            if self.contains(index1) {
                (self.get_mut(index1), None)
            } else {
                (None, self.get_mut(index2))
            }
        } else {
            if slot1 < slot2 {
                self.pair_values_mut(slot1, generation1, slot2, generation2)
            } else {
                proof {
                    self@.lemma_with_optional_value_commutes(slot1 as int, slot2 as int);
                }
                let (value2, value1) = self.pair_values_mut(slot2, generation2, slot1, generation1);
                (value1, value2)
            }
        }
    }

    /// The values of two different slots at once, for writing, each if the
    /// slot is occupied and has the generation given for it.
    fn pair_values_mut(
        &mut self,
        a: usize,
        generation_a: Generation,
        b: usize,
        generation_b: Generation,
    ) -> (pair: (
        Option<&mut T>,
        Option<&mut T>,
    ))
        requires
            old(self).wf(),
            a < b,
        ensures
            old(self).pair_changed(
                *final(self),
                a as int,
                match pair.0 {
                    Some(v) => Some(*final(v)),
                    None => None,
                },
                b as int,
                match pair.1 {
                    Some(v) => Some(*final(v)),
                    None => None,
                },
            ),
            old(self).pair_result(
                *final(self),
                a as int,
                match pair.0 {
                    Some(v) => Some(*final(v)),
                    None => None,
                },
                b as int,
                match pair.1 {
                    Some(v) => Some(*final(v)),
                    None => None,
                },
            ),
            match pair.0 {
                Some(v) => a < old(self).storage@.len() && old(self).storage@[a as int].slot() == (
                Slot { generation: generation_a@, value: Some(*v) }),
                None => !(a < old(self).storage@.len() && old(self).storage@[a as int].slot().generation
                    == generation_a@ && old(self).storage@[a as int].slot().value is Some),
            },
            match pair.1 {
                Some(v) => b < old(self).storage@.len() && old(self).storage@[b as int].slot() == (
                Slot { generation: generation_b@, value: Some(*v) }),
                None => !(b < old(self).storage@.len() && old(self).storage@[b as int].slot().generation
                    == generation_b@ && old(self).storage@[b as int].slot().value is Some),
            },
    {
        proof {
            self.lemma_pair_may_change(a as int, b as int);
        }
        let (entry_a, entry_b) = pair_mut(self.storage.as_mut_slice(), a, b);
        let value_a = match entry_a {
            Some(entry) => entry.value_mut(generation_a),
            None => None,
        };
        let value_b = match entry_b {
            Some(entry) => entry.value_mut(generation_b),
            None => None,
        };
        (value_a, value_b)
    }

    /// Attempt to look up the given slot in the arena, disregarding any
    /// generational information, and retrieve an immutable reference to it.
    /// Returns `None` if the slot is empty.
    pub fn get_by_slot(&self, slot: u32) -> (found: Option<(Index, &T)>)
        requires
            self.wf(),
        ensures
            found.is_some() <==> self@.is_occupied(slot as int),
            match found {
                Some((index, value)) => index@ == self@.index_at(slot as int) && Some(*value)
                    == self@.slots[slot as int].value,
                None => true,
            },
    {
        if (slot as usize) < self.storage.len() {
            match &self.storage[slot as usize] {
                Entry::Occupied(occupied) => {
                    let index = Index::new(slot, occupied.generation);
                    Some((index, &occupied.value))
                },
                Entry::Empty(_) => None,
            }
        } else {
            None
        }
    }

    /// Attempt to look up the given slot in the arena, disregarding any
    /// generational information, and retrieve a mutable reference to it.
    /// Returns `None` if the slot is empty.
    pub fn get_by_slot_mut(&mut self, slot: u32) -> (found: Option<(Index, &mut T)>)
        requires
            old(self).wf(),
        ensures
            final(self).wf(),
            found.is_some() <==> old(self)@.is_occupied(slot as int),
            match found {
                Some((index, value)) => {
                    &&& index@ == old(self)@.index_at(slot as int)
                    &&& Some(*value) == old(self)@.slots[slot as int].value
                    &&& final(self)@ == old(self)@.with_value(slot as int, *final(value))
                },
                None => final(self)@ == old(self)@,
            },
    {
        if (slot as usize) < self.storage.len() {
            proof {
                self.lemma_values_may_change(slot as int);
            }
            match &mut self.storage[slot as usize] {
                Entry::Occupied(occupied) => {
                    let index = Index::new(slot, occupied.generation);
                    Some((index, &mut occupied.value))
                },
                Entry::Empty(_) => None,
            }
        } else {
            None
        }
    }
}

// Taking values out.
impl<T> Arena<T> {
    /// Remove the value contained at the given index from the arena, returning
    /// it if it was present.
    ///
    /// The slot keeps its generation and is the first to be used again.
    pub fn remove(&mut self, index: Index) -> (value: Option<T>)
        requires
            old(self).wf(),
        ensures
            final(self).wf(),
            final(self)@ == old(self)@.remove(index@),
            final(self)@.len() == old(self)@.len() - if value is Some {
                1int
            } else {
                0int
            },
            value == old(self)@.get(index@),
    {
        proof {
            self@.lemma_remove(index@);
        }
        if self.contains(index) {
            Some(self.free_slot(index.slot()))
        } else {
            None
        }
    }

    /// Invalidate the given index and return a new index to the same value.
    /// This is roughly equivalent to `remove` followed by `insert`, but much
    /// faster. If the old index is already invalid, this method returns
    /// `None`.
    pub fn invalidate(&mut self, index: Index) -> (new_index: Option<Index>)
        requires
            old(self).wf(),
        ensures
            final(self).wf(),
            final(self)@ == old(self)@.invalidate(index@),
            final(self)@.len() == old(self)@.len(),
            new_index.is_some() <==> old(self)@.contains(index@),
            new_index.is_some() ==> new_index.unwrap()@ == (IndexView {
                slot: index@.slot,
                generation: next_generation(index@.generation),
            }),
    {
        proof {
            self@.lemma_invalidate(index@);
        }
        if self.contains(index) {
            let ghost before = old(self)@;
            let ghost old_storage = old(self).storage@;
            let slot: u32 = index.slot();
            let generation = match &mut self.storage[slot as usize] {
                Entry::Occupied(occupied) => {
                    occupied.generation = occupied.generation.next();
                    occupied.generation
                },
                Entry::Empty(empty) => empty.generation,
            };
            proof {
                assert(slots_of(self.storage@) =~= before.invalidate(index@).slots);
                assert(links_of(self.storage@) =~= links_of(old_storage));
                self.lemma_assembled(before.free);
            }
            Some(Index::new(slot, generation))
        } else {
            None
        }
    }

    /// Remove an entry in the arena by its slot, disregarding any generational
    /// info. Returns `None` if the slot was already empty.
    pub fn remove_by_slot(&mut self, slot: u32) -> (removed: Option<(Index, T)>)
        requires
            old(self).wf(),
        ensures
            final(self).wf(),
            final(self)@ == old(self)@.remove_slot(slot as int),
            final(self)@.len() == old(self)@.len() - if removed is Some {
                1int
            } else {
                0int
            },
            removed.is_some() <==> old(self)@.is_occupied(slot as int),
            match removed {
                Some((index, value)) => index@ == old(self)@.index_at(slot as int) && Some(value)
                    == old(self)@.slots[slot as int].value,
                None => true,
            },
    {
        proof {
            self@.lemma_remove_slot(slot as int);
        }
        match self.contains_slot(slot) {
            Some(index) => {
                let value = self.free_slot(slot);
                Some((index, value))
            },
            None => None,
        }
    }

    /// Empty the occupied `slot` and make it the head of the free list,
    /// returning what it held.
    fn free_slot(&mut self, slot: u32) -> (value: T)
        requires
            old(self).wf(),
            old(self)@.is_occupied(slot as int),
        ensures
            final(self).wf(),
            final(self)@ == old(self)@.remove_slot(slot as int),
            Some(value) == old(self)@.slots[slot as int].value,
    {
        let ghost before = old(self)@;
        proof {
            before.lemma_len();
            before.lemma_remove_slot(slot as int);
        }
        // An occupied entry is replaced with an empty entry of the same
        // generation. On next insertion, this generation will increment.
        let generation = self.storage[slot as usize].generation();
        let mut entry = Entry::Empty(EmptyEntry { generation, next_free: self.first_free });
        // Swap the new entry into the storage and take ownership of the old
        // one, which is consumed for its value.
        core::mem::swap(&mut self.storage[slot as usize], &mut entry);
        let value = entry.into_value().unwrap();
        // The next insertion re-uses the entry just emptied. If another
        // removal happens before then, that entry will be used before this
        // one.
        self.first_free = Some(FreePointer::from_slot(slot));
        self.len = self.len - 1;
        proof {
            assert(slots_of(self.storage@) =~= before.remove_slot(slot as int).slots);
            assert(!before.free.contains(slot as int)) by {
                assert forall|k: int| 0 <= k < before.free.len() implies before.free[k]
                    != slot by {
                    assert(before.is_empty_slot(before.free[k]));
                }
            }
            lemma_chain_push_front(
                links_of(old(self).storage@),
                old(self).first_free,
                before.free,
                links_of(self.storage@),
                self.first_free,
                slot as int,
            );
            self.lemma_assembled(seq![slot as int] + before.free);
        }
        value
    }

    /// Clear the arena and drop all elements.
    ///
    /// The slots stay, with their generations, and all are free. The arena's
    /// capacity does not change.
    pub fn clear(&mut self)
        requires
            old(self).wf(),
        ensures
            final(self).wf(),
            final(self)@ == old(self)@.clear(),
            final(self)@.len() == 0,
    {
        let ghost before = old(self)@;
        let ghost nothing = Seq::new(before.slots.len(), |i: int| None::<T>);
        let n: usize = self.storage.len();
        let mut i: usize = 0;
        while i < n
            invariant
                self.wf(),
                before.wf(),
                i <= n == before.slots.len(),
                nothing == Seq::new(before.slots.len(), |i: int| None::<T>),
                self@ == before.retain_range(0, i as int, nothing),
            decreases n - i,
        {
            proof {
                before.lemma_retain_range(0, i as int, nothing);
            }
            let _ = self.remove_by_slot(i as u32);
            i = i + 1;
        }
        proof {
            before.lemma_clear();
        }
    }

    /// Remove all entries in the `Arena` which don't satisfy the provided
    /// predicate.
    ///
    /// The occupied slots are visited once each, in ascending order. The
    /// predicate may change the value it is shown; a value for which it
    /// returns `false` is removed as by [`Arena::remove`].
    pub fn retain<F: FnMut(Index, &mut T) -> bool>(&mut self, mut f: F)
        requires
            old(self).wf(),
            forall|index: Index, value: &mut T|
                old(self)@.get(index@) == Some(*value) ==> call_requires(f, (index, value)),
        ensures
            final(self).wf(),
            exists|outcome: Seq<Option<T>>|
                {
                    &&& outcome.len() == old(self)@.slots.len()
                    &&& final(self)@ == old(self)@.retain(outcome)
                    &&& forall|i: int| #[trigger]
                        old(self)@.is_occupied(i) ==> exists|index: Index, value: &mut T|
                            {
                                &&& index@ == old(self)@.index_at(i)
                                &&& Some(*value) == old(self)@.slots[i].value
                                &&& #[trigger] call_ensures(f, (index, value), outcome[i] is Some)
                                &&& outcome[i] is Some ==> outcome[i] == Some(*final(value))
                            }
                },
    {
        let ghost before = old(self)@;
        let ghost mut outcome: Seq<Option<T>> = Seq::empty();
        let ghost predicate = f;
        let n: usize = self.storage.len();
        let mut i: usize = 0;
        while i < n
            invariant
                self.wf(),
                before.wf(),
                i <= n == before.slots.len(),
                self@ == before.retain_range(0, i as int, outcome),
                outcome.len() == i,
                f == predicate,
                forall|index: Index, value: &mut T|
                    before.get(index@) == Some(*value) ==> call_requires(f, (index, value)),
                forall|j: int| #[trigger]
                    before.is_occupied(j) && j < i ==> exists|index: Index, value: &mut T|
                        {
                            &&& index@ == before.index_at(j)
                            &&& Some(*value) == before.slots[j].value
                            &&& #[trigger] call_ensures(f, (index, value), outcome[j] is Some)
                            &&& outcome[j] is Some ==> outcome[j] == Some(*final(value))
                        },
            decreases n - i,
        {
            proof {
                before.lemma_retain_range(0, i as int, outcome);
            }
            let ghost here = self@;
            let ghost mut result: Option<T> = None;
            let ghost mut left: Option<T> = None;
            match self.get_by_slot_mut(i as u32) {
                Some((index, value)) => {
                    let ghost shown = *value;
                    let keep = f(index, value);
                    proof {
                        left = Some(*value);
                        result = if keep {
                            Some(*value)
                        } else {
                            None
                        };
                        assert(exists|same: Index, r: &mut T|
                            same@ == index@ && *r == shown && #[trigger] call_ensures(
                                f,
                                (same, r),
                                keep,
                            ) && *final(r) == *value);
                    }
                    if !keep {
                        self.free_slot(i as u32);
                        proof {
                            assert(self@.slots =~= here.remove_slot(i as int).slots);
                        }
                    }
                },
                None => {},
            }
            proof {
                let longer = outcome.push(result);
                before.lemma_retain_range_outcome(0, i as int, outcome, longer);
                assert(self@ == before.retain_range(0, i + 1, longer));
                assert forall|j: int| #[trigger] before.is_occupied(j) && j < i + 1 implies exists|
                    index: Index,
                    value: &mut T,
                |
                    {
                        &&& index@ == before.index_at(j)
                        &&& Some(*value) == before.slots[j].value
                        &&& #[trigger] call_ensures(f, (index, value), longer[j] is Some)
                        &&& longer[j] is Some ==> longer[j] == Some(*final(value))
                    } by {
                    if j < i {
                        assert(longer[j] == outcome[j]);
                    } else {
                        assert(here.slots[j] == before.slots[j]);
                        let (same, r) = choose|same: Index, r: &mut T|
                            same@ == before.index_at(j) && Some(*r) == before.slots[j].value
                                && #[trigger] call_ensures(f, (same, r), longer[j] is Some) && Some(
                                *final(r),
                            ) == left;
                        assert(call_ensures(f, (same, r), longer[j] is Some));
                    }
                }
                outcome = longer;
            }
            i = i + 1;
        }
        proof {
            assert(self@ == before.retain(outcome));
            assert(outcome.len() == before.slots.len());
            assert forall|j: int| #[trigger] before.is_occupied(j) implies exists|
                index: Index,
                value: &mut T,
            |
                {
                    &&& index@ == before.index_at(j)
                    &&& Some(*value) == before.slots[j].value
                    &&& #[trigger] call_ensures(f, (index, value), outcome[j] is Some)
                    &&& outcome[j] is Some ==> outcome[j] == Some(*final(value))
                } by {
                assert(before.is_occupied(j) && j < i);
            }
        }
    }
}

// Going through the values.
impl<T> Arena<T> {
    /// Iterate over all of the indexes and values contained in the arena, in
    /// ascending order of slots from the front, in descending order from the
    /// back.
    pub fn iter(&self) -> (iter: Iter<'_, T>)
        requires
            self.wf(),
        ensures
            iter.wf(),
            iter.arena() == self,
            iter.front() == 0,
            iter.back() == self@.slots.len(),
            iter.remaining() == self@.len(),
    {
        Iter::new(self)
    }

    /// Iterate over all of the indexes and values contained in the arena, with
    /// mutable access to each value, in ascending order of slots.
    pub fn iter_mut(&mut self) -> (iter: IterMut<'_, T>)
        requires
            old(self).wf(),
        ensures
            iter.wf(),
            iter.arena@ == old(self)@,
            iter.slot == 0,
            iter.len == old(self)@.len(),
            *final(self) == *final(iter.arena),
    {
        IterMut::new(self)
    }

    /// Turn the arena into an iterator over its values, each with its index,
    /// in ascending order of slots.
    pub fn into_iter(self) -> (iter: IntoIter<T>)
        requires
            self.wf(),
        ensures
            iter.wf(),
            iter.arena() == self,
            iter.position() == 0,
    {
        IntoIter::new(self)
    }

    /// Returns the values of the arena, each with its index, and leaves the
    /// arena empty.
    ///
    /// The values come in ascending order of their slots. The arena is empty
    /// as soon as this returns, whether or not the values are then taken from
    /// the [`Drain`]; its slots stay, with their generations, and its capacity
    /// does not change.
    pub fn drain(&mut self) -> (drain: Drain<T>)
        requires
            old(self).wf(),
        ensures
            final(self).wf(),
            final(self)@ == old(self)@.clear(),
            final(self)@.len() == 0,
            drain.remaining() == old(self)@.entries(),
    {
        let ghost before = old(self)@;
        let ghost nothing = Seq::new(before.slots.len(), |i: int| None::<T>);
        let mut items: VecDeque<(Index, T)> = VecDeque::new();
        let n: usize = self.storage.len();
        let mut i: usize = 0;
        while i < n
            invariant
                self.wf(),
                before.wf(),
                i <= n == before.slots.len(),
                nothing == Seq::new(before.slots.len(), |i: int| None::<T>),
                self@ == before.retain_range(0, i as int, nothing),
                pairs(items@) == before.entries_below(i as int),
            decreases n - i,
        {
            proof {
                before.lemma_retain_range(0, i as int, nothing);
            }
            // If this entry is occupied, it is marked as empty and its value
            // goes to the queue; otherwise we go on.
            let ghost queued = items@;
            match self.remove_by_slot(i as u32) {
                Some((index, value)) => {
                    items.push_back((index, value));
                    proof {
                        assert(pairs(items@) =~= pairs(queued).push((index@, value)));
                    }
                },
                None => {},
            }
            i = i + 1;
        }
        proof {
            before.lemma_clear();
        }
        Drain::new(items)
    }

    /// Returns an iterator that removes from the arena the values for which
    /// the predicate returns `true`, and hands them out with their indices.
    ///
    /// What the iterator has not reached when it is dropped stays in the
    /// arena.
    pub fn drain_filter<F: FnMut(&mut T) -> bool>(&mut self, predicate: F) -> (filter: DrainFilter<
        '_,
        T,
        F,
    >)
        requires
            old(self).wf(),
            forall|i: int, value: &mut T|
                #![trigger old(self)@.slots[i], call_requires(predicate, (value,))]
                old(self)@.is_occupied(i) && old(self)@.slots[i].value == Some(*value)
                    ==> call_requires(predicate, (value,)),
        ensures
            filter.wf(),
            filter.arena@ == old(self)@,
            filter.slot == 0,
            filter.predicate == predicate,
            *final(self) == *final(filter.arena),
    {
        DrainFilter::new(self, predicate)
    }
}

// The arena as a sequence of pairs, for keeping it outside the program.
impl<T> Arena<T> {
    /// The arena as pairs of a generation and a value, one pair for each slot
    /// in ascending order. The pair of an empty slot holds no value, so that
    /// the generations of all slots are kept.
    pub fn to_pairs(&self) -> (pairs: Vec<(u32, Option<&T>)>)
        requires
            self.wf(),
        ensures
            pairs@.len() == self@.slots.len(),
            forall|i: int|
                0 <= i < pairs@.len() ==> {
                    &&& (#[trigger] pairs@[i]).0 == self@.slots[i].generation
                    &&& match pairs@[i].1 {
                        Some(value) => self@.slots[i].value == Some(*value),
                        None => self@.slots[i].value is None,
                    }
                },
    {
        let mut pairs: Vec<(u32, Option<&T>)> = Vec::with_capacity(self.storage.len());
        let mut i: usize = 0;
        while i < self.storage.len()
            invariant
                i <= self.storage@.len(),
                pairs@.len() == i,
                forall|j: int|
                    0 <= j < i ==> {
                        &&& (#[trigger] pairs@[j]).0 == self@.slots[j].generation
                        &&& match pairs@[j].1 {
                            Some(value) => self@.slots[j].value == Some(*value),
                            None => self@.slots[j].value is None,
                        }
                    },
            decreases self.storage@.len() - i,
        {
            let pair = match &self.storage[i] {
                Entry::Occupied(occupied) => (occupied.generation.to_u32(), Some(&occupied.value)),
                Entry::Empty(empty) => (empty.generation.to_u32(), None),
            };
            pairs.push(pair);
            i = i + 1;
        }
        pairs
    }

    /// The arena made of pairs of a generation and a value, one pair for each
    /// slot in ascending order. A pair without a value makes an empty slot;
    /// of the empty slots, the last is the first to be used again.
    ///
    /// Zero is no generation: where a pair holds it, no arena is made, and the
    /// error tells the first such pair. There may be no more pairs than a
    /// `u32` can count.
    pub fn from_pairs(pairs: Vec<(u32, Option<T>)>) -> (made: Result<Self, InvalidGeneration>)
        requires
            pairs@.len() <= u32::MAX,
        ensures
            match made {
                Ok(arena) => {
                    &&& forall|i: int| 0 <= i < pairs@.len() ==> (#[trigger] pairs@[i]).0 != 0
                    &&& arena.wf()
                    &&& arena@ == ArenaView::from_pairs(pairs@)
                },
                Err(error) => {
                    &&& error.position < pairs@.len()
                    &&& pairs@[error.position as int].0 == 0
                    &&& forall|i: int| 0 <= i < error.position ==> (#[trigger] pairs@[i]).0 != 0
                },
            },
    {
        let ghost all = pairs@;
        let mut arena: Arena<T> = Arena::with_capacity(pairs.len());
        let mut position: usize = 0;
        for pair in it: pairs
            invariant
                all.len() <= u32::MAX,
                it.seq() == all,
                position == it.index(),
                arena.wf(),
                arena@ == ArenaView::from_pairs_below(all, position as int),
                forall|i: int| 0 <= i < position ==> (#[trigger] all[i]).0 != 0,
        {
            proof {
                ArenaView::lemma_from_pairs_below(all, position as int);
                assert(arena@.pairs().len() == position);
            }
            let (generation, value) = pair;
            match Generation::from_u32(generation) {
                Some(generation) => {
                    arena.push_slot(generation, value);
                },
                None => {
                    return Err(InvalidGeneration { position });
                },
            }
            position = position + 1;
        }
        Ok(arena)
    }
}

impl<T> Default for Arena<T> {
    /// The empty arena.
    fn default() -> (arena: Self)
        ensures
            arena.wf(),
            arena@ == ArenaView::<T>::empty(),
            arena@.len() == 0,
    {
        Arena::new()
    }
}

impl<T: Clone> Clone for Arena<T> {
    /// An arena with the same slots, generations and free list, and with a
    /// clone of each value.
    fn clone(&self) -> (copy: Self)
        ensures
            self.wf() ==> {
                &&& copy.wf()
                &&& copy@.free == self@.free
                &&& copy@.slots.len() == self@.slots.len()
                &&& forall|i: int|
                    0 <= i < self@.slots.len() ==> {
                        &&& (#[trigger] copy@.slots[i]).generation == self@.slots[i].generation
                        &&& match (self@.slots[i].value, copy@.slots[i].value) {
                            (Some(value), Some(clone)) => cloned(value, clone),
                            (None, None) => true,
                            _ => false,
                        }
                    }
            },
    {
        let mut storage: Vec<Entry<T>> = Vec::with_capacity(self.storage.len());
        let mut i: usize = 0;
        while i < self.storage.len()
            invariant
                i <= self.storage@.len(),
                storage@.len() == i,
                forall|j: int|
                    0 <= j < i ==> {
                        &&& (#[trigger] storage@[j]).link() == self.storage@[j].link()
                        &&& storage@[j].slot().generation == self.storage@[j].slot().generation
                        &&& match (self.storage@[j].slot().value, storage@[j].slot().value) {
                            (Some(value), Some(clone)) => cloned(value, clone),
                            (None, None) => true,
                            _ => false,
                        }
                    },
            decreases self.storage@.len() - i,
        {
            let entry = match &self.storage[i] {
                Entry::Occupied(occupied) => Entry::Occupied(
                    OccupiedEntry { generation: occupied.generation, value: occupied.value.clone() },
                ),
                Entry::Empty(empty) => Entry::Empty(*empty),
            };
            storage.push(entry);
            i = i + 1;
        }
        let copy = Arena { storage, len: self.len, first_free: self.first_free };
        proof {
            if self.wf() {
                self.lemma_same_shape(copy);
            }
        }
        copy
    }
}

} // verus!
