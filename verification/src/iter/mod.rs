//! The iterator types of the arena.

pub mod drain;
pub mod drain_filter;
pub mod into_iter;
pub mod iter;
pub mod iter_mut;

pub use crate::iter::drain::Drain;
pub use crate::iter::into_iter::IntoIter;
pub use crate::iter::iter::Iter;
pub use crate::iter::iter_mut::IterMut;
pub use crate::iter::drain_filter::DrainFilter;
