//! What holds of the model of an arena: each operation keeps it well formed
//! and changes it as far as it says, and no further.

use vstd::prelude::*;
use vstd::set_lib::{lemma_int_range, lemma_len_subset, lemma_set_disjoint_lens, set_int_range};
use crate::generation::next_generation;
use crate::index::IndexView;
use crate::model::{descending, vacant, ArenaView, Slot};

verus! {

impl<T> ArenaView<T> {
    /// The occupied slots and the free list together make up the slots.
    pub proof fn lemma_len(self)
        requires
            self.wf(),
        ensures
            self.occupied().finite(),
            self.len() + self.free.len() == self.slots.len(),
    {
        let all = set_int_range(0, self.slots.len() as int);
        let empties = self.free.to_set();
        let occupied = self.occupied();
        lemma_int_range(0, self.slots.len() as int);
        self.free.unique_seq_to_set();
        assert(empties.subset_of(all)) by {
            assert forall|i: int| empties.contains(i) implies all.contains(i) by {
                let k = choose|k: int| 0 <= k < self.free.len() && self.free[k] == i;
                assert(self.is_empty_slot(self.free[k]));
            }
        }
        assert(occupied.subset_of(all));
        lemma_len_subset(empties, all);
        lemma_len_subset(occupied, all);
        assert(occupied.disjoint(empties)) by {
            assert forall|i: int| !(occupied.contains(i) && empties.contains(i)) by {
                if empties.contains(i) {
                    let k = choose|k: int| 0 <= k < self.free.len() && self.free[k] == i;
                    assert(self.is_empty_slot(self.free[k]));
                }
            }
        }
        lemma_set_disjoint_lens(occupied, empties);
        assert(occupied + empties =~= all) by {
            assert forall|i: int| all.contains(i) implies (occupied + empties).contains(i) by {
                if !self.is_occupied(i) {
                    assert(self.is_empty_slot(i));
                    assert(self.free.contains(i));
                }
            }
        }
    }

    /// Insertion keeps the arena well formed and adds one value under the
    /// index handed out, which was not valid before; every other index keeps
    /// its meaning.
    pub proof fn lemma_insert(self, value: T)
        requires
            self.wf(),
            self.len() < u32::MAX,
        ensures
            self.insert(value).wf(),
            self.insert(value).len() == self.len() + 1,
            !self.contains(self.next_index()),
            self.next_index().generation != 0,
            self.insert(value).get(self.next_index()) == Some(value),
            forall|index: IndexView|
                index != self.next_index() ==> #[trigger] self.insert(value).get(index) == self.get(
                    index,
                ),
    {
        self.lemma_len();
        let after = self.insert(value);
        if self.free.len() > 0 {
            let slot = self.free[0];
            assert(self.is_empty_slot(self.free[0]));
            assert forall|k: int| 0 <= k < after.free.len() implies after.is_empty_slot(
                #[trigger] after.free[k],
            ) by {
                assert(after.free[k] == self.free[k + 1]);
                assert(self.is_empty_slot(self.free[k + 1]));
            }
            assert forall|i: int| #[trigger] after.is_empty_slot(i) implies after.free.contains(
                i,
            ) by {
                assert(self.is_empty_slot(i));
                let k = choose|k: int| 0 <= k < self.free.len() && self.free[k] == i;
                assert(after.free[k - 1] == i);
            }
        } else {
            assert forall|i: int| #[trigger] after.is_empty_slot(i) implies after.free.contains(
                i,
            ) by {
                assert(self.is_empty_slot(i));
            }
        }
        after.lemma_len();
    }

    /// Removal keeps the arena well formed. Where the slot was occupied, it
    /// takes one value out and makes the slot the head of the free list; the
    /// other slots are as before.
    pub proof fn lemma_remove_slot(self, slot: int)
        requires
            self.wf(),
        ensures
            self.remove_slot(slot).wf(),
            self.remove_slot(slot).slots.len() == self.slots.len(),
            self.is_occupied(slot) ==> self.remove_slot(slot).len() + 1 == self.len(),
            !self.remove_slot(slot).is_occupied(slot),
            forall|i: int|
                0 <= i < self.slots.len() && i != slot ==> #[trigger] self.remove_slot(
                    slot,
                ).slots[i] == self.slots[i],
            forall|index: IndexView|
                index.slot != slot ==> #[trigger] self.remove_slot(slot).get(index) == self.get(
                    index,
                ),
    {
        let after = self.remove_slot(slot);
        if self.is_occupied(slot) {
            assert forall|k: int| 0 <= k < after.free.len() implies after.is_empty_slot(
                #[trigger] after.free[k],
            ) by {
                if k > 0 {
                    assert(after.free[k] == self.free[k - 1]);
                    assert(self.is_empty_slot(self.free[k - 1]));
                }
            }
            assert(after.free.no_duplicates()) by {
                assert forall|a: int, b: int|
                    0 <= a < after.free.len() && 0 <= b < after.free.len() && a
                        != b implies after.free[a] != after.free[b] by {
                    if a > 0 {
                        assert(self.is_empty_slot(self.free[a - 1]));
                    }
                    if b > 0 {
                        assert(self.is_empty_slot(self.free[b - 1]));
                    }
                }
            }
            assert forall|i: int| #[trigger] after.is_empty_slot(i) implies after.free.contains(
                i,
            ) by {
                if i == slot {
                    assert(after.free[0] == i);
                } else {
                    assert(self.is_empty_slot(i));
                    let k = choose|k: int| 0 <= k < self.free.len() && self.free[k] == i;
                    assert(after.free[k + 1] == i);
                }
            }
            self.lemma_len();
            after.lemma_len();
        }
    }

    /// Removal by index keeps the arena well formed, makes the index invalid
    /// and leaves every other index as it was.
    pub proof fn lemma_remove(self, index: IndexView)
        requires
            self.wf(),
        ensures
            self.remove(index).wf(),
            !self.remove(index).contains(index),
            self.contains(index) ==> self.remove(index).len() + 1 == self.len(),
            forall|other: IndexView|
                other != index ==> #[trigger] self.remove(index).get(other) == self.get(other),
    {
        self.lemma_remove_slot(index.slot as int);
    }

    /// Invalidation keeps the arena well formed and the number of values. The
    /// old index is no longer valid; the value is reached by the index of the
    /// next generation instead.
    pub proof fn lemma_invalidate(self, index: IndexView)
        requires
            self.wf(),
        ensures
            self.invalidate(index).wf(),
            self.invalidate(index).len() == self.len(),
            !self.invalidate(index).contains(index),
            self.contains(index) ==> self.invalidate(index).get(
                IndexView { slot: index.slot, generation: next_generation(index.generation) },
            ) == self.get(index),
            forall|other: IndexView|
                other.slot != index.slot ==> #[trigger] self.invalidate(index).get(other)
                    == self.get(other),
    {
        let after = self.invalidate(index);
        if self.contains(index) {
            assert forall|k: int| 0 <= k < after.free.len() implies after.is_empty_slot(
                #[trigger] after.free[k],
            ) by {
                assert(self.is_empty_slot(self.free[k]));
            }
            assert forall|i: int| #[trigger] after.is_empty_slot(i) implies after.free.contains(
                i,
            ) by {
                assert(self.is_empty_slot(i));
            }
            self.lemma_len();
            after.lemma_len();
        }
    }

    /// Placing a value at a slot keeps the arena well formed. The value is
    /// then reached by the index of that slot and of the generation it got;
    /// one value more is held unless the slot was occupied.
    pub proof fn lemma_insert_at(self, slot: int, generation: Option<u32>, value: T)
        requires
            self.wf(),
            0 <= slot < u32::MAX,
            generation != Some(0u32),
        ensures
            self.insert_at(slot, generation, value).wf(),
            self.insert_at(slot, generation, value).get(
                IndexView { slot: slot as u32, generation: self.generation_at(slot, generation) },
            ) == Some(value),
            self.insert_at(slot, generation, value).len() == if self.is_occupied(slot) {
                self.len()
            } else {
                self.len() + 1
            },
            forall|i: int|
                0 <= i < self.slots.len() && i != slot ==> #[trigger] self.insert_at(
                    slot,
                    generation,
                    value,
                ).slots[i] == self.slots[i],
    {
        let after = self.insert_at(slot, generation, value);
        let n = self.slots.len() as int;
        if self.is_empty_slot(slot) {
            let k = self.free.index_of(slot);
            assert(self.free.contains(slot));
            self.free.remove_ensures(k);
            assert forall|j: int| 0 <= j < after.free.len() implies after.is_empty_slot(
                #[trigger] after.free[j],
            ) by {
                if j < k {
                    assert(self.is_empty_slot(self.free[j]));
                } else {
                    assert(self.is_empty_slot(self.free[j + 1]));
                }
            }
            assert forall|i: int| #[trigger] after.is_empty_slot(i) implies after.free.contains(
                i,
            ) by {
                assert(self.is_empty_slot(i));
                let j = choose|j: int| 0 <= j < self.free.len() && self.free[j] == i;
                if j < k {
                    assert(after.free[j] == i);
                } else {
                    assert(after.free[j - 1] == i);
                }
            }
        } else if self.is_occupied(slot) {
            assert forall|j: int| 0 <= j < after.free.len() implies after.is_empty_slot(
                #[trigger] after.free[j],
            ) by {
                assert(self.is_empty_slot(self.free[j]));
            }
            assert forall|i: int| #[trigger] after.is_empty_slot(i) implies after.free.contains(
                i,
            ) by {
                assert(self.is_empty_slot(i));
            }
        } else {
            let fresh = descending(n, slot);
            assert forall|j: int| 0 <= j < after.free.len() implies after.is_empty_slot(
                #[trigger] after.free[j],
            ) by {
                if j >= fresh.len() {
                    assert(after.free[j] == self.free[j - fresh.len()]);
                    assert(self.is_empty_slot(self.free[j - fresh.len()]));
                }
            }
            assert(after.free.no_duplicates()) by {
                assert forall|a: int, b: int|
                    0 <= a < after.free.len() && 0 <= b < after.free.len() && a
                        != b implies after.free[a] != after.free[b] by {
                    if a >= fresh.len() {
                        assert(self.is_empty_slot(self.free[a - fresh.len()]));
                    }
                    if b >= fresh.len() {
                        assert(self.is_empty_slot(self.free[b - fresh.len()]));
                    }
                }
            }
            assert forall|i: int| #[trigger] after.is_empty_slot(i) implies after.free.contains(
                i,
            ) by {
                if i < n {
                    assert(self.is_empty_slot(i));
                    let j = choose|j: int| 0 <= j < self.free.len() && self.free[j] == i;
                    assert(after.free[fresh.len() + j] == i);
                } else {
                    assert(after.free[slot - 1 - i] == i);
                }
            }
        }
        self.lemma_len();
        after.lemma_len();
    }

    /// Replacing the value of an occupied slot keeps the arena well formed
    /// and every index valid that was.
    pub proof fn lemma_with_value(self, slot: int, value: T)
        requires
            self.wf(),
            self.is_occupied(slot),
        ensures
            self.with_value(slot, value).wf(),
            self.with_value(slot, value).len() == self.len(),
            forall|index: IndexView| #[trigger]
                self.with_value(slot, value).contains(index) == self.contains(index),
    {
        let after = self.with_value(slot, value);
        assert forall|k: int| 0 <= k < after.free.len() implies after.is_empty_slot(
            #[trigger] after.free[k],
        ) by {
            assert(self.is_empty_slot(self.free[k]));
        }
        assert forall|i: int| #[trigger] after.is_empty_slot(i) implies after.free.contains(i) by {
            assert(self.is_empty_slot(i));
        }
        self.lemma_len();
        after.lemma_len();
    }

    /// The values of two different slots can be replaced in either order.
    pub proof fn lemma_with_optional_value_commutes(self, a: int, b: int)
        requires
            a != b,
        ensures
            forall|first: Option<T>, second: Option<T>|
                (first is Some ==> self.is_occupied(a)) && (second is Some ==> self.is_occupied(b))
                    ==> #[trigger] self.with_optional_value(a, first).with_optional_value(b, second)
                    == self.with_optional_value(b, second).with_optional_value(a, first),
    {
        assert forall|first: Option<T>, second: Option<T>|
            (first is Some ==> self.is_occupied(a)) && (second is Some ==> self.is_occupied(
                b,
            )) implies #[trigger] self.with_optional_value(a, first).with_optional_value(b, second)
            == self.with_optional_value(b, second).with_optional_value(a, first) by {
            assert(self.with_optional_value(a, first).with_optional_value(b, second).slots
                =~= self.with_optional_value(b, second).with_optional_value(a, first).slots);
        }
    }

    /// Going through the slots from `from` to `upto` keeps the arena well
    /// formed, the number of slots and their generations. A slot in that range
    /// that was occupied holds what `outcome` says; every other slot is as
    /// before.
    pub proof fn lemma_retain_range(self, from: int, upto: int, outcome: Seq<Option<T>>)
        requires
            self.wf(),
            0 <= from,
            upto <= self.slots.len(),
        ensures
            self.retain_range(from, upto, outcome).wf(),
            self.retain_range(from, upto, outcome).slots.len() == self.slots.len(),
            forall|i: int|
                0 <= i < self.slots.len() ==> (#[trigger] self.retain_range(
                    from,
                    upto,
                    outcome,
                ).slots[i]) == if from <= i < upto && self.is_occupied(i) {
                    Slot { generation: self.slots[i].generation, value: outcome[i] }
                } else {
                    self.slots[i]
                },
        decreases upto - from,
    {
        if upto > from {
            self.lemma_retain_range(from, upto - 1, outcome);
            let before = self.retain_range(from, upto - 1, outcome);
            if before.is_occupied(upto - 1) {
                match outcome[upto - 1] {
                    Some(value) => {
                        before.lemma_with_value(upto - 1, value);
                    },
                    None => {
                        before.lemma_remove_slot(upto - 1);
                    },
                }
            }
        }
    }

    /// Only the part of `outcome` from `from` to `upto` matters to
    /// [`Self::retain_range`].
    pub proof fn lemma_retain_range_outcome(
        self,
        from: int,
        upto: int,
        outcome: Seq<Option<T>>,
        other: Seq<Option<T>>,
    )
        requires
            forall|i: int| from <= i < upto ==> outcome[i] == other[i],
        ensures
            self.retain_range(from, upto, outcome) == self.retain_range(from, upto, other),
        decreases upto - from,
    {
        if upto > from {
            self.lemma_retain_range_outcome(from, upto - 1, outcome, other);
        }
    }

    /// An arena that holds a value has an occupied slot.
    pub proof fn lemma_occupied_exists(self)
        requires
            self.wf(),
            self.len() > 0,
        ensures
            exists|i: int| self.is_occupied(i),
    {
        self.lemma_len();
        assert(self.occupied().contains(self.occupied().choose()));
    }

    /// A cleared arena is well formed and holds nothing: every slot is empty
    /// and has the generation it had, and no index is valid.
    pub proof fn lemma_clear(self)
        requires
            self.wf(),
        ensures
            self.clear().wf(),
            self.clear().len() == 0,
            self.clear().slots.len() == self.slots.len(),
            forall|i: int|
                0 <= i < self.slots.len() ==> #[trigger] self.clear().slots[i] == (Slot::<T> {
                    generation: self.slots[i].generation,
                    value: None,
                }),
            forall|index: IndexView| !self.clear().contains(index),
    {
        let outcome = Seq::new(self.slots.len(), |i: int| None::<T>);
        self.lemma_retain_range(0, self.slots.len() as int, outcome);
        assert(self.clear().occupied() =~= Set::<int>::empty());
    }

    /// The occupied slots of a range are finitely many, and none where the
    /// range is empty; over all slots they are the occupied slots of the
    /// arena.
    pub proof fn lemma_occupied_between(self, from: int, end: int)
        ensures
            self.occupied_between(from, end).finite(),
            from >= end ==> self.occupied_between(from, end).len() == 0,
            from <= 0 && end >= self.slots.len() ==> self.occupied_between(from, end)
                == self.occupied(),
    {
        let range = set_int_range(from, if end >= from {
            end
        } else {
            from
        });
        lemma_int_range(from, if end >= from {
            end
        } else {
            from
        });
        assert(self.occupied_between(from, end).subset_of(range));
        lemma_len_subset(self.occupied_between(from, end), range);
        if from <= 0 && end >= self.slots.len() {
            assert(self.occupied_between(from, end) =~= self.occupied());
        }
    }

    /// Leaving out the first slot of a range takes one from the number of its
    /// occupied slots if that slot is occupied, and nothing otherwise.
    pub proof fn lemma_occupied_between_front(self, from: int, end: int)
        requires
            from < end,
        ensures
            self.occupied_between(from, end).len() == self.occupied_between(from + 1, end).len()
                + if self.is_occupied(from) {
                1nat
            } else {
                0nat
            },
    {
        self.lemma_occupied_between(from, end);
        self.lemma_occupied_between(from + 1, end);
        if self.is_occupied(from) {
            assert(self.occupied_between(from, end) =~= self.occupied_between(from + 1, end).insert(
                from,
            ));
        } else {
            assert(self.occupied_between(from, end) =~= self.occupied_between(from + 1, end));
        }
    }

    /// Leaving out the last slot of a range takes one from the number of its
    /// occupied slots if that slot is occupied, and nothing otherwise.
    pub proof fn lemma_occupied_between_back(self, from: int, end: int)
        requires
            from < end,
        ensures
            self.occupied_between(from, end).len() == self.occupied_between(from, end - 1).len()
                + if self.is_occupied(end - 1) {
                1nat
            } else {
                0nat
            },
    {
        self.lemma_occupied_between(from, end);
        self.lemma_occupied_between(from, end - 1);
        if self.is_occupied(end - 1) {
            assert(self.occupied_between(from, end) =~= self.occupied_between(from, end - 1).insert(
                end - 1,
            ));
        } else {
            assert(self.occupied_between(from, end) =~= self.occupied_between(from, end - 1));
        }
    }

    /// An arena that was extended with vacant slots, each the head of the free
    /// list when it was made, is extended by one more in the same way.
    pub proof fn lemma_one_more_vacant(self, extended: Self, count: int)
        requires
            0 <= count,
            extended.slots == self.slots + vacant::<T>(count),
            extended.free == descending(self.slots.len() as int, self.slots.len() + count)
                + self.free,
        ensures
            extended.push_slot(1, None).slots == self.slots + vacant::<T>(count + 1),
            extended.push_slot(1, None).free == descending(
                self.slots.len() as int,
                self.slots.len() + count + 1,
            ) + self.free,
    {
        let n = self.slots.len() as int;
        assert(extended.push_slot(1, None).slots =~= self.slots + vacant::<T>(count + 1));
        assert(extended.push_slot(1, None).free =~= descending(n, n + count + 1) + self.free);
    }

    /// A slot more at the end keeps the arena well formed, and holds one
    /// value more if the slot has one.
    pub proof fn lemma_push_slot(self, generation: u32, value: Option<T>)
        requires
            self.wf(),
            self.slots.len() < u32::MAX,
            generation != 0,
        ensures
            self.push_slot(generation, value).wf(),
            self.push_slot(generation, value).len() == self.len() + if value is Some {
                1nat
            } else {
                0nat
            },
    {
        let after = self.push_slot(generation, value);
        let n = self.slots.len() as int;
        assert forall|k: int| 0 <= k < after.free.len() implies after.is_empty_slot(
            #[trigger] after.free[k],
        ) by {
            if value is None {
                if k > 0 {
                    assert(self.is_empty_slot(self.free[k - 1]));
                }
            } else {
                assert(self.is_empty_slot(self.free[k]));
            }
        }
        assert(after.free.no_duplicates()) by {
            assert forall|a: int, b: int|
                0 <= a < after.free.len() && 0 <= b < after.free.len() && a
                    != b implies after.free[a] != after.free[b] by {
                if value is None {
                    if a > 0 {
                        assert(self.is_empty_slot(self.free[a - 1]));
                    }
                    if b > 0 {
                        assert(self.is_empty_slot(self.free[b - 1]));
                    }
                }
            }
        }
        assert forall|i: int| #[trigger] after.is_empty_slot(i) implies after.free.contains(i) by {
            if i == n {
                assert(after.free[0] == i);
            } else {
                assert(self.is_empty_slot(i));
                let k = choose|k: int| 0 <= k < self.free.len() && self.free[k] == i;
                if value is None {
                    assert(after.free[k + 1] == i);
                } else {
                    assert(after.free[k] == i);
                }
            }
        }
        self.lemma_len();
        after.lemma_len();
    }

    /// The arena built from the first `upto` pairs is well formed where no
    /// generation among them is zero, and its slots are those pairs.
    pub proof fn lemma_from_pairs_below(pairs: Seq<(u32, Option<T>)>, upto: int)
        requires
            0 <= upto <= pairs.len() <= u32::MAX,
            forall|i: int| 0 <= i < upto ==> (#[trigger] pairs[i]).0 != 0,
        ensures
            Self::from_pairs_below(pairs, upto).wf(),
            Self::from_pairs_below(pairs, upto).pairs() == pairs.subrange(0, upto),
        decreases upto,
    {
        if upto > 0 {
            Self::lemma_from_pairs_below(pairs, upto - 1);
            let before = Self::from_pairs_below(pairs, upto - 1);
            assert(before.pairs().len() == upto - 1);
            before.lemma_push_slot(pairs[upto - 1].0, pairs[upto - 1].1);
            assert(Self::from_pairs_below(pairs, upto).pairs() =~= pairs.subrange(0, upto)) by {
                assert forall|i: int| 0 <= i < upto implies Self::from_pairs_below(
                    pairs,
                    upto,
                ).pairs()[i] == pairs.subrange(0, upto)[i] by {
                    if i < upto - 1 {
                        assert(before.pairs()[i] == pairs.subrange(0, upto - 1)[i]);
                    }
                }
            }
        } else {
            assert(Self::from_pairs_below(pairs, upto).pairs() =~= pairs.subrange(0, upto));
        }
    }

    /// An arena taken as pairs and built again has the slots it had, with
    /// their generations and values, and holds as many values.
    pub proof fn lemma_pairs_round_trip(self)
        requires
            self.wf(),
        ensures
            Self::from_pairs(self.pairs()).wf(),
            Self::from_pairs(self.pairs()).slots == self.slots,
            Self::from_pairs(self.pairs()).pairs() == self.pairs(),
            Self::from_pairs(self.pairs()).len() == self.len(),
    {
        let pairs = self.pairs();
        let again = Self::from_pairs(pairs);
        assert forall|i: int| 0 <= i < pairs.len() implies (#[trigger] pairs[i]).0 != 0 by {
            assert(self.slots[i].generation != 0);
        }
        Self::lemma_from_pairs_below(pairs, pairs.len() as int);
        assert(pairs.subrange(0, pairs.len() as int) =~= pairs);
        assert(again.slots =~= self.slots) by {
            assert(again.pairs().len() == pairs.len());
            assert forall|i: int| 0 <= i < self.slots.len() implies again.slots[i]
                == self.slots[i] by {
                assert(again.pairs()[i] == pairs[i]);
            }
        }
        assert(again.occupied() =~= self.occupied());
    }

    /// Pairs made into an arena and taken again are the pairs.
    pub proof fn lemma_from_pairs_pairs(pairs: Seq<(u32, Option<T>)>)
        requires
            pairs.len() <= u32::MAX,
            forall|i: int| 0 <= i < pairs.len() ==> (#[trigger] pairs[i]).0 != 0,
        ensures
            Self::from_pairs(pairs).wf(),
            Self::from_pairs(pairs).pairs() == pairs,
    {
        Self::lemma_from_pairs_below(pairs, pairs.len() as int);
        assert(pairs.subrange(0, pairs.len() as int) =~= pairs);
    }
}

} // verus!
