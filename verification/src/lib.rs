//! A generational arena: a container that hands out small, copyable indices
//! for the values put into it, with constant-time insertion, lookup and
//! removal. A slot is reused after a removal, and the generation kept with
//! each slot tells the new occupant's index from every earlier one, so that a
//! stale index is refused instead of reaching another value.

pub mod arena;
mod entry;
mod free_list;
pub mod free_pointer;
pub mod generation;
pub mod index;
pub mod iter;
pub mod laws;
pub mod lemmas;
pub mod model;
pub mod nonzero;

pub use crate::arena::{Arena, InvalidGeneration};
pub use crate::free_pointer::FreePointer;
pub use crate::generation::Generation;
pub use crate::index::{Index, IndexView};
pub use crate::iter::{Drain, DrainFilter, IntoIter, Iter, IterMut};
pub use crate::model::{ArenaView, Slot};
