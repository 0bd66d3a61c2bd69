//! Pointers to free slots, as the links of an arena's free list.

use vstd::prelude::*;
use crate::nonzero::{nonzero_value, NonZero32};

verus! {

/// A reference to a free slot of an arena.
///
/// The slot number is kept as "slot + 1" in a non-zero integer, so that an
/// `Option<FreePointer>` is no larger than a `u32` and a pointer to slot 0 is
/// still told apart from `None`.
#[derive(Clone, Copy, Debug, PartialEq)]
pub struct FreePointer(NonZero32);

impl View for FreePointer {
    type V = int;

    /// The number of the slot pointed to.
    closed spec fn view(&self) -> int {
        nonzero_value(self.0) - 1
    }
}

impl FreePointer {
    /// The pointer to `slot`. The slot after the last one a `u32` can count
    /// has no pointer.
    #[must_use]
    pub fn from_slot(slot: u32) -> (p: Self)
        requires
            slot < u32::MAX,
        ensures
            p@ == slot,
    {
        FreePointer(NonZero32::new(slot + 1).unwrap())
    }

    /// The number of the slot pointed to.
    #[must_use]
    pub fn slot(self) -> (slot: u32)
        ensures
            slot == self@,
    {
        self.0.get() - 1
    }
}

} // verus!
