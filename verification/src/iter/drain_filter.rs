//! Draining an arena of the values that a predicate picks.

use vstd::prelude::*;
use crate::arena::Arena;
use crate::index::Index;

verus! {

/// See [`Arena::drain_filter`].
///
/// Values are looked at only as far as the iterator is driven: what it has
/// not reached when it is dropped stays in the arena.
pub struct DrainFilter<'a, T, F: FnMut(&mut T) -> bool> {
    /// The arena that is drained.
    pub arena: &'a mut Arena<T>,
    /// The slot that is looked at next.
    pub slot: u32,
    /// The predicate that picks the values to remove.
    pub predicate: F,
}

impl<'a, T, F: FnMut(&mut T) -> bool> DrainFilter<'a, T, F> {
    /// The arena is well formed, the position is within it, and the predicate
    /// can be called on every value from the position on.
    pub open spec fn wf(self) -> bool {
        &&& self.arena.wf()
        &&& 0 <= self.slot <= self.arena@.slots.len()
        &&& forall|i: int, value: &mut T|
            #![trigger self.arena@.slots[i], call_requires(self.predicate, (value,))]
            self.slot <= i && self.arena@.is_occupied(i) && self.arena@.slots[i].value == Some(
                *value,
            ) ==> call_requires(self.predicate, (value,))
    }

    /// The number of slots that were not looked at yet.
    pub open spec fn slots_left(self) -> int {
        self.arena@.slots.len() - self.slot
    }

    pub(crate) fn new(arena: &'a mut Arena<T>, predicate: F) -> (filter: Self)
        requires
            old(arena).wf(),
            forall|i: int, value: &mut T|
                #![trigger old(arena)@.slots[i], call_requires(predicate, (value,))]
                old(arena)@.is_occupied(i) && old(arena)@.slots[i].value == Some(*value)
                    ==> call_requires(predicate, (value,)),
        ensures
            filter.wf(),
            filter.arena@ == old(arena)@,
            filter.slot == 0,
            filter.predicate == predicate,
            *final(arena) == *final(filter.arena),
    {
        DrainFilter { arena, slot: 0, predicate }
    }

    /// The next value that the predicate picks, with its index. The value is
    /// removed from the arena. `None` when the end of the arena is reached.
    ///
    /// The slots from the position on are gone through in ascending order.
    /// The predicate is called on the value of each occupied one, and may
    /// change it; the first value for which it returns `true` is removed and
    /// returned, as the predicate left it. The values before it stay, as the
    /// predicate left them.
    pub fn next(&mut self) -> (item: Option<(Index, T)>)
        requires
            old(self).wf(),
        ensures
            final(self).wf(),
            final(self).predicate == old(self).predicate,
            *final(final(self).arena) == *final(old(self).arena),
            old(self).slot <= final(self).slot,
            exists|outcome: Seq<Option<T>>|
                {
                    &&& outcome.len() == final(self).slot
                    &&& final(self).arena@ == old(self).arena@.retain_range(
                        old(self).slot as int,
                        final(self).slot as int,
                        outcome,
                    )
                    &&& forall|i: int| #[trigger]
                        old(self).arena@.is_occupied(i) && old(self).slot <= i
                            < final(self).slot ==> exists|value: &mut T|
                            {
                                &&& Some(*value) == old(self).arena@.slots[i].value
                                &&& #[trigger] call_ensures(
                                    old(self).predicate,
                                    (value,),
                                    outcome[i] is None,
                                )
                                &&& outcome[i] is Some ==> outcome[i] == Some(*final(value))
                                &&& outcome[i] is None ==> item is Some && item.unwrap().1
                                    == *final(value) && i + 1 == final(self).slot
                            }
                    &&& match item {
                        Some((index, value)) => {
                            let slot = index@.slot as int;
                            &&& final(self).slot == slot + 1
                            &&& old(self).arena@.is_occupied(slot)
                            &&& index@ == old(self).arena@.index_at(slot)
                            &&& outcome[slot] is None
                        },
                        None => final(self).slot == old(self).arena@.slots.len(),
                    }
                },
    {
        let ghost before = self.arena@;
        let ghost start = self.slot as int;
        let ghost predicate = self.predicate;
        let ghost mut outcome: Seq<Option<T>> = Seq::new(start as nat, |i: int| None);
        proof {
            self.arena.lemma_view_wf();
        }
        loop
            invariant
                self.arena.wf(),
                before.wf(),
                before == old(self).arena@,
                start == old(self).slot,
                predicate == old(self).predicate,
                self.predicate == predicate,
                *final(self.arena) == *final(old(self).arena),
                start <= self.slot <= before.slots.len(),
                outcome.len() == self.slot,
                forall|i: int, value: &mut T|
                    #![trigger before.slots[i], call_requires(predicate, (value,))]
                    self.slot <= i && before.is_occupied(i) && before.slots[i].value == Some(
                        *value,
                    ) ==> call_requires(predicate, (value,)),
                self.arena@ == before.retain_range(start, self.slot as int, outcome),
                forall|i: int| #[trigger]
                    before.is_occupied(i) && start <= i < self.slot ==> exists|value: &mut T|
                        {
                            &&& Some(*value) == before.slots[i].value
                            &&& #[trigger] call_ensures(predicate, (value,), outcome[i] is None)
                            &&& outcome[i] is Some && outcome[i] == Some(*final(value))
                        },
            decreases before.slots.len() - self.slot,
        {
            if self.slot as usize >= self.arena.len_storage() {
                proof {
                    before.lemma_retain_range(start, self.slot as int, outcome);
                    assert(self.wf());
                    assert forall|i: int| #[trigger]
                        before.is_occupied(i) && start <= i < self.slot implies exists|
                        value: &mut T,
                    |
                        {
                            &&& Some(*value) == before.slots[i].value
                            &&& #[trigger] call_ensures(predicate, (value,), outcome[i] is None)
                            &&& outcome[i] is Some ==> outcome[i] == Some(*final(value))
                            &&& outcome[i] is None ==> false
                        } by {
                        assert(before.is_occupied(i) && start <= i < self.slot);
                    }
                }
                return None;
            }
            proof {
                before.lemma_retain_range(start, self.slot as int, outcome);
            }
            let slot: u32 = self.slot;
            let ghost here = self.arena@;
            self.slot = self.slot + 1;
            let ghost mut result: Option<T> = None;
            let ghost mut left: Option<T> = None;
            // If this entry is occupied and picked, it is marked as empty and
            // returned. Otherwise, we continue with the next slot.
            match self.arena.get_by_slot_mut(slot) {
                Some((index, value)) => {
                    let ghost shown = *value;
                    assert(before.slots[slot as int].value == Some(shown));
                    let picked = (self.predicate)(value);
                    proof {
                        left = Some(*value);
                        result = if picked {
                            None
                        } else {
                            Some(*value)
                        };
                        assert(exists|r: &mut T|
                            *r == shown && #[trigger] call_ensures(predicate, (r,), picked)
                                && *final(r) == *value);
                    }
                    if picked {
                        let value = self.arena.remove(index).unwrap();
                        proof {
                            let longer = outcome.push(result);
                            before.lemma_retain_range_outcome(start, slot as int, outcome, longer);
                            assert(self.arena@.slots =~= here.remove_slot(slot as int).slots);
                            assert(self.arena@ == before.retain_range(start, slot + 1, longer));
                            before.lemma_retain_range(start, slot + 1, longer);
                            assert forall|i: int, r: &mut T|
                                #![trigger self.arena@.slots[i], call_requires(self.predicate, (r,))]
                                self.slot <= i && self.arena@.is_occupied(i)
                                    && self.arena@.slots[i].value == Some(*r) implies call_requires(
                                self.predicate,
                                (r,),
                            ) by {
                                assert(self.arena@.slots[i] == before.slots[i]);
                            }
                            assert(Some(value) == left);
                            assert forall|i: int| #[trigger]
                                before.is_occupied(i) && start <= i < slot + 1 implies exists|
                                r: &mut T,
                            |
                                {
                                    &&& Some(*r) == before.slots[i].value
                                    &&& #[trigger] call_ensures(predicate, (r,), longer[i] is None)
                                    &&& longer[i] is Some ==> longer[i] == Some(*final(r))
                                    &&& longer[i] is None ==> value == *final(r) && i == slot
                                } by {
                                if i < slot {
                                    assert(before.is_occupied(i) && start <= i < slot);
                                    assert(longer[i] == outcome[i]);
                                } else {
                                    assert(longer[i] is None);
                                    assert(here.slots[i] == before.slots[i]);
                                    let r = choose|r: &mut T|
                                        *r == shown && #[trigger] call_ensures(predicate, (r,), picked)
                                            && *final(r) == value;
                                    assert(call_ensures(predicate, (r,), longer[i] is None));
                                }
                            }
                            outcome = longer;
                        }
                        return Some((index, value));
                    }
                },
                None => {},
            }
            proof {
                let longer = outcome.push(result);
                before.lemma_retain_range_outcome(start, slot as int, outcome, longer);
                assert(self.arena@ == before.retain_range(start, slot + 1, longer));
                assert forall|i: int| #[trigger]
                    before.is_occupied(i) && start <= i < slot + 1 implies exists|value: &mut T|
                    {
                        &&& Some(*value) == before.slots[i].value
                        &&& #[trigger] call_ensures(predicate, (value,), longer[i] is None)
                        &&& longer[i] is Some && longer[i] == Some(*final(value))
                    } by {
                    if i < slot {
                        assert(longer[i] == outcome[i]);
                    } else {
                        assert(here.slots[i] == before.slots[i]);
                        assert(longer[i] == left);
                        let r = choose|r: &mut T|
                            Some(*r) == before.slots[i].value && #[trigger] call_ensures(
                                predicate,
                                (r,),
                                false,
                            ) && Some(*final(r)) == left;
                        assert(call_ensures(predicate, (r,), longer[i] is None));
                    }
                }
                outcome = longer;
            }
        }
    }

    /// The number of values still to come, as a lower and an upper bound:
    /// none may come, and no more than there are slots left.
    pub fn size_hint(&self) -> (hint: (usize, Option<usize>))
        requires
            self.wf(),
        ensures
            hint.0 == 0,
            hint.1 == Some(self.slots_left() as usize),
    {
        (0, Some(self.arena.len_storage() - self.slot as usize))
    }
}

} // verus!
