//! The entries of an arena's storage: one for each slot, occupied or empty.

use vstd::prelude::*;
use crate::free_pointer::FreePointer;
use crate::generation::Generation;
use crate::model::Slot;

verus! {

/// A storage position: occupied by a value, or empty and a link of the free
/// list.
#[derive(Debug)]
pub(crate) enum Entry<T> {
    Occupied(OccupiedEntry<T>),
    Empty(EmptyEntry),
}

#[derive(Debug)]
pub(crate) struct OccupiedEntry<T> {
    pub(crate) generation: Generation,
    pub(crate) value: T,
}

#[derive(Debug, Clone, Copy)]
pub(crate) struct EmptyEntry {
    pub(crate) generation: Generation,
    pub(crate) next_free: Option<FreePointer>,
}

impl<T> Entry<T> {
    /// The entry as the model sees it.
    pub(crate) open spec fn slot(self) -> Slot<T> {
        match self {
            Entry::Occupied(occupied) => Slot {
                generation: occupied.generation@,
                value: Some(occupied.value),
            },
            Entry::Empty(empty) => Slot { generation: empty.generation@, value: None },
        }
    }

    /// The generation of the entry, occupied or not.
    pub(crate) fn generation(&self) -> (generation: Generation)
        ensures
            generation@ == self.slot().generation,
    {
        match self {
            Entry::Occupied(occupied) => occupied.generation,
            Entry::Empty(empty) => empty.generation,
        }
    }

    /// Consume the entry, and if it's occupied, return the value.
    pub(crate) fn into_value(self) -> (value: Option<T>)
        ensures
            value == self.slot().value,
    {
        match self {
            Entry::Occupied(occupied) => Some(occupied.value),
            Entry::Empty(_) => None,
        }
    }

    /// If the entry is empty, a reference to it.
    pub(crate) fn as_empty(&self) -> (empty: Option<&EmptyEntry>)
        ensures
            match empty {
                Some(e) => self.link() == Some(*e),
                None => self.link() is None,
            },
    {
        match self {
            Entry::Empty(empty) => Some(empty),
            Entry::Occupied(_) => None,
        }
    }

    /// If the entry is empty, return a mutable reference to it.
    pub(crate) fn as_empty_mut(&mut self) -> (empty: Option<&mut EmptyEntry>)
        ensures
            match empty {
                Some(e) => old(self).link() == Some(*e) && *final(self) == Entry::<T>::Empty(
                    *final(e),
                ),
                None => old(self).link() is None && *final(self) == *old(self),
            },
    {
        match self {
            Entry::Empty(empty) => Some(empty),
            Entry::Occupied(_) => None,
        }
    }

    /// The value of the entry, for writing, if the entry is occupied and of
    /// the given generation.
    pub(crate) fn value_mut(&mut self, generation: Generation) -> (value: Option<&mut T>)
        ensures
            value.is_some() <==> old(self).slot().value is Some && old(self).slot().generation
                == generation@,
            match value {
                Some(v) => old(self).slot().value == Some(*v) && final(self).slot() == (Slot {
                    generation: old(self).slot().generation,
                    value: Some(*final(v)),
                }) && final(self).link() is None,
                None => *final(self) == *old(self),
            },
    {
        match self {
            Entry::Occupied(occupied) => {
                if occupied.generation == generation {
                    Some(&mut occupied.value)
                } else {
                    None
                }
            },
            Entry::Empty(_) => None,
        }
    }

    /// The entry without its value: what the free list is made of.
    pub(crate) open spec fn link(self) -> Option<EmptyEntry> {
        match self {
            Entry::Occupied(_) => None,
            Entry::Empty(empty) => Some(empty),
        }
    }
}

/// The slots that a storage stands for.
pub(crate) open spec fn slots_of<T>(storage: Seq<Entry<T>>) -> Seq<Slot<T>> {
    Seq::new(storage.len(), |i: int| storage[i].slot())
}

/// The links of a storage: for each empty entry, what it holds.
pub(crate) open spec fn links_of<T>(storage: Seq<Entry<T>>) -> Seq<Option<EmptyEntry>> {
    Seq::new(storage.len(), |i: int| storage[i].link())
}

/// Two entries of a storage at once, for writing: those at `a` and at `b`, each
/// if the storage reaches that far.
pub(crate) fn pair_mut<T>(entries: &mut [Entry<T>], a: usize, b: usize) -> (pair: (
    Option<&mut Entry<T>>,
    Option<&mut Entry<T>>,
))
    requires
        a < b,
    ensures
        pair.0.is_some() <==> a < old(entries)@.len(),
        pair.1.is_some() <==> b < old(entries)@.len(),
        pair.0.is_some() ==> *pair.0.unwrap() == old(entries)@[a as int],
        pair.1.is_some() ==> *pair.1.unwrap() == old(entries)@[b as int],
        final(entries)@.len() == old(entries)@.len(),
        forall|i: int|
            0 <= i < old(entries)@.len() ==> #[trigger] final(entries)@[i] == if i == a {
                *final(pair.0.unwrap())
            } else if i == b {
                *final(pair.1.unwrap())
            } else {
                old(entries)@[i]
            },
{
    let n: usize = entries.len();
    if a >= n {
        (None, None)
    } else if b >= n {
        let (low, _) = entries.split_at_mut(a + 1);
        (low.last_mut(), None)
    } else {
        let (low, high) = entries.split_at_mut(b);
        let second = high.first_mut();
        let (lower, _) = low.split_at_mut(a + 1);
        (lower.last_mut(), second)
    }
}

} // verus!
