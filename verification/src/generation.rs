//! Generations: the counter that tells one occupant of a slot from the next.

use vstd::prelude::*;
use crate::nonzero::{nonzero_value, NonZero32};

verus! {

/// The generation that follows `g`: one more, or 1 after the largest `u32`.
/// Zero is never a generation.
pub open spec fn next_generation(g: u32) -> u32 {
    if g == u32::MAX {
        1
    } else {
        (g + 1) as u32
    }
}

/// The generation of an entry in an arena: a `u32` that is never zero.
///
/// Being built on a non-zero integer, it keeps an index the same size when the
/// index is put inside an `Option`.
#[derive(Clone, Copy, Debug, Eq, Hash, PartialOrd, Ord)]
pub struct Generation(NonZero32);

impl PartialEq for Generation {
    fn eq(&self, other: &Self) -> (equal: bool) {
        self.0.get() == other.0.get()
    }
}

impl vstd::std_specs::cmp::PartialEqSpecImpl for Generation {
    open spec fn obeys_eq_spec() -> bool {
        true
    }

    open spec fn eq_spec(&self, other: &Self) -> bool {
        self@ == other@
    }
}

impl View for Generation {
    type V = u32;

    closed spec fn view(&self) -> u32 {
        nonzero_value(self.0)
    }
}

impl Generation {
    /// No generation is zero.
    #[verifier::type_invariant]
    pub open spec fn is_positive(self) -> bool {
        self@ != 0
    }

    /// The generation of a slot that is used for the first time.
    #[must_use]
    pub fn first() -> (g: Self)
        ensures
            g@ == 1,
    {
        Generation(NonZero32::new(1).unwrap())
    }

    /// The generation after this one. After `u32::MAX` comes 1: the counter
    /// wraps, it does not overflow.
    #[must_use]
    pub fn next(self) -> (g: Self)
        ensures
            g@ == next_generation(self@),
            g@ != self@,
            g@ != 0,
    {
        let last: u32 = self.0.get();
        let next: u32 = match last.checked_add(1) {
            Some(n) => n,
            None => 1,
        };
        Generation(NonZero32::new(next).unwrap())
    }

    /// This generation as a plain integer, which is not zero.
    pub fn to_u32(self) -> (r: u32)
        ensures
            r == self@,
            r != 0,
    {
        self.0.get()
    }

    /// The generation with the given number; `None` for zero, which is no
    /// generation.
    pub fn from_u32(gen: u32) -> (r: Option<Self>)
        ensures
            r.is_some() <==> gen != 0,
            r.is_some() ==> r.unwrap()@ == gen,
    {
        match NonZero32::new(gen) {
            Some(n) => Some(Generation(n)),
            None => None,
        }
    }
}

} // verus!
