//! Draining an arena: taking all its values out.

use vstd::prelude::*;
use std::collections::VecDeque;
use crate::index::{Index, IndexView};

verus! {

/// The values taken out of an arena by [`Arena::drain`](crate::Arena::drain),
/// each with the index it had, in ascending order of slots.
///
/// The arena is empty from the moment the `Drain` is made; values that are
/// not taken from the `Drain` are dropped with it.
pub struct Drain<T> {
    items: VecDeque<(Index, T)>,
}

/// The pairs of a queue with each index replaced by what it stands for.
pub(crate) open spec fn pairs<T>(items: Seq<(Index, T)>) -> Seq<(IndexView, T)> {
    Seq::new(items.len(), |i: int| (items[i].0@, items[i].1))
}

impl<T> Drain<T> {
    /// What is still to come, in order.
    pub closed spec fn remaining(self) -> Seq<(IndexView, T)> {
        pairs(self.items@)
    }

    pub(crate) fn new(items: VecDeque<(Index, T)>) -> (drain: Self)
        ensures
            drain.remaining() == pairs(items@),
    {
        Drain { items }
    }

    /// The next value with its index, or `None` when all were handed out.
    pub fn next(&mut self) -> (item: Option<(Index, T)>)
        ensures
            match item {
                Some((index, value)) => {
                    &&& old(self).remaining().len() > 0
                    &&& (index@, value) == old(self).remaining()[0]
                    &&& final(self).remaining() == old(self).remaining().drop_first()
                },
                None => old(self).remaining().len() == 0 && final(self).remaining() == old(
                    self,
                ).remaining(),
            },
    {
        let item = self.items.pop_front();
        proof {
            assert(item is Some ==> self.remaining() =~= old(self).remaining().drop_first());
            assert(item is None ==> self.remaining() =~= old(self).remaining());
        }
        item
    }

    /// The number of values still to come, as a lower and an upper bound.
    pub fn size_hint(&self) -> (hint: (usize, Option<usize>))
        ensures
            hint.0 == self.remaining().len(),
            hint.1 == Some(hint.0),
    {
        (self.items.len(), Some(self.items.len()))
    }
}

} // verus!
