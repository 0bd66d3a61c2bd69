//! A 32-bit integer that is never zero.
//!
//! The value is held as `core::num::NonZeroU32`, so that an `Option` around it
//! (and around every type built on it) takes no extra space. The verifier does
//! not look inside: what it knows of a value comes from the contracts of
//! [`NonZero32::new`] and [`NonZero32::get`], which are trusted.

use vstd::prelude::*;

verus! {

/// Holder of a `core::num::NonZeroU32`. Its content is opaque to the verifier.
#[verifier::external_body]
#[derive(Debug, PartialEq, Eq, Hash, PartialOrd, Ord)]
pub struct NonZero32(core::num::NonZeroU32);

/// The integer that a [`NonZero32`] holds.
pub uninterp spec fn nonzero_value(n: NonZero32) -> u32;

impl Clone for NonZero32 {
    /// `NonZeroU32` is `Copy`: the clone is the value itself.
    #[verifier::external_body]
    fn clone(&self) -> (r: Self)
        ensures
            r == *self,
    {
        NonZero32(self.0)
    }
}

impl Copy for NonZero32 {

}

impl NonZero32 {
    /// `NonZeroU32::new`: `Some` exactly when `value` is not zero, and then the
    /// result holds `value`.
    #[verifier::external_body]
    pub(crate) fn new(value: u32) -> (r: Option<NonZero32>)
        ensures
            r.is_some() <==> value != 0,
            r.is_some() ==> nonzero_value(r.unwrap()) == value,
    {
        core::num::NonZeroU32::new(value).map(NonZero32)
    }

    /// `NonZeroU32::get`: the integer held, which is not zero.
    #[verifier::external_body]
    pub(crate) fn get(self) -> (r: u32)
        ensures
            r == nonzero_value(self),
            r != 0,
    {
        self.0.get()
    }
}

} // verus!
