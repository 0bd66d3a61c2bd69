//! Laws of the arena, proved of its model: what holds of every well-formed
//! arena and of every course of operations on it.

use vstd::prelude::*;
use vstd::set_lib::lemma_map_size;
use crate::generation::next_generation;
use crate::index::IndexView;
use crate::model::ArenaView;

verus! {

/// An operation that puts a value into an arena or takes one out.
pub enum Operation<T> {
    /// Insert the value.
    Insert(T),
    /// Remove the value at the index, if the index is valid.
    Remove(IndexView),
}

/// The arena after one operation.
pub open spec fn step<T>(arena: ArenaView<T>, operation: Operation<T>) -> ArenaView<T> {
    match operation {
        Operation::Insert(value) => arena.insert(value),
        Operation::Remove(index) => arena.remove(index),
    }
}

/// The arena after a sequence of operations, the first one first.
pub open spec fn run<T>(arena: ArenaView<T>, operations: Seq<Operation<T>>) -> ArenaView<T>
    decreases operations.len(),
{
    if operations.len() == 0 {
        arena
    } else {
        step(run(arena, operations.drop_last()), operations.last())
    }
}

/// Every insertion of the sequence meets an arena that can take one more
/// value.
pub open spec fn permitted<T>(arena: ArenaView<T>, operations: Seq<Operation<T>>) -> bool
    decreases operations.len(),
{
    operations.len() == 0 || {
        &&& permitted(arena, operations.drop_last())
        &&& operations.last() is Insert ==> run(arena, operations.drop_last()).len() < u32::MAX
    }
}

/// The number of insertions of the sequence that take `slot`.
pub open spec fn reuses<T>(arena: ArenaView<T>, operations: Seq<Operation<T>>, slot: int) -> nat
    decreases operations.len(),
{
    if operations.len() == 0 {
        0
    } else {
        let earlier = reuses(arena, operations.drop_last(), slot);
        if operations.last() is Insert && run(arena, operations.drop_last()).next_index().slot
            == slot {
            earlier + 1
        } else {
            earlier
        }
    }
}

/// The generation reached from `generation` in `steps` steps.
pub open spec fn advance(generation: u32, steps: nat) -> u32
    decreases steps,
{
    if steps == 0 {
        generation
    } else {
        next_generation(advance(generation, (steps - 1) as nat))
    }
}

/// Generations go round in a cycle of `u32::MAX`: the generation reached in a
/// number of steps is the one started from exactly when that number is a
/// multiple of `u32::MAX`. No generation reached is zero.
pub proof fn lemma_advance(generation: u32, steps: nat)
    requires
        generation != 0,
    ensures
        advance(generation, steps) != 0,
        advance(generation, steps) == (generation - 1 + steps) % (u32::MAX as int) + 1,
        advance(generation, steps) == generation <==> steps % (u32::MAX as nat) == 0,
    decreases steps,
{
    let m = u32::MAX as int;
    let g = generation as int;
    if steps > 0 {
        lemma_advance(generation, (steps - 1) as nat);
        let a = g - 1 + steps - 1;
        assert((a + 1) % m == if a % m == m - 1 {
            0
        } else {
            a % m + 1
        }) by (nonlinear_arith)
            requires
                m > 0,
                a >= 0,
        ;
    } else {
        assert((g - 1) % m == g - 1) by (nonlinear_arith)
            requires
                0 <= g - 1 < m,
        ;
    }
    let k = steps as int;
    assert(((g - 1 + k) % m == g - 1) <==> k % m == 0) by (nonlinear_arith)
        requires
            0 <= g - 1 < m,
            k >= 0,
    ;
}

/// As many indices are valid as there are values: each occupied slot has
/// exactly one valid index. So the length of an arena is the number of
/// indices for which a lookup finds a value, after whatever operations.
pub proof fn lemma_len_counts_valid_indices<T>(arena: ArenaView<T>)
    requires
        arena.wf(),
    ensures
        arena.live().finite(),
        arena.live().len() == arena.len(),
        forall|index: IndexView| arena.live().contains(index) <==> arena.get(index) is Some,
{
    arena.lemma_len();
    let f = |i: int| arena.index_at(i);
    assert(vstd::relations::injective_on(f, arena.occupied())) by {
        assert forall|x: int, y: int|
            arena.occupied().contains(x) && arena.occupied().contains(y) && #[trigger] f(x)
                == #[trigger] f(y) implies x == y by {
            assert(x as u32 == y as u32);
        }
    }
    assert(arena.occupied().map(f) =~= arena.live()) by {
        assert forall|index: IndexView| arena.live().contains(index) implies arena.occupied().map(
            f,
        ).contains(index) by {
            assert(arena.occupied().contains(index.slot as int));
            assert(f(index.slot as int) == index);
        }
    }
    lemma_map_size(arena.occupied(), arena.live(), f);
}

/// A removed index is no longer valid, and the next insertion, which takes
/// its slot, does not make it valid again: the index handed out has the
/// slot's next generation, which is another one.
pub proof fn lemma_removed_index_is_not_reused<T>(arena: ArenaView<T>, index: IndexView, value: T)
    requires
        arena.wf(),
        arena.contains(index),
    ensures
        arena.remove(index).wf(),
        arena.remove(index).get(index) is None,
        arena.remove(index).next_index() == (IndexView {
            slot: index.slot,
            generation: next_generation(index.generation),
        }),
        arena.remove(index).next_index() != index,
        arena.remove(index).insert(value).get(index) is None,
        arena.remove(index).insert(value).get(arena.remove(index).next_index()) == Some(value),
{
    arena.lemma_remove(index);
    arena.lemma_len();
    arena.remove(index).lemma_insert(value);
}

/// The slot freed last is the first to be used again: after two values were
/// removed, the next insertion takes the slot of the second, and the one
/// after it the slot of the first, each under the slot's next generation.
pub proof fn lemma_free_slots_are_reused_last_first<T>(
    arena: ArenaView<T>,
    first: IndexView,
    second: IndexView,
    value: T,
)
    requires
        arena.wf(),
        arena.contains(first),
        arena.contains(second),
        first != second,
    ensures
        arena.remove(first).remove(second).next_index() == (IndexView {
            slot: second.slot,
            generation: next_generation(second.generation),
        }),
        arena.remove(first).remove(second).insert(value).next_index() == (IndexView {
            slot: first.slot,
            generation: next_generation(first.generation),
        }),
{
    arena.lemma_remove(first);
    arena.remove(first).lemma_remove(second);
}

/// What holds of a slot while operations run after a removal that emptied
/// it: the arena stays well formed, the slot stays, its generation is the
/// one it had advanced once for each time the slot was taken again, and
/// until it is taken again it is empty.
proof fn lemma_slot_through_operations<T>(
    arena: ArenaView<T>,
    operations: Seq<Operation<T>>,
    slot: int,
)
    requires
        arena.wf(),
        arena.is_empty_slot(slot),
        permitted(arena, operations),
    ensures
        run(arena, operations).wf(),
        0 <= slot < run(arena, operations).slots.len(),
        run(arena, operations).slots[slot].generation == advance(
            arena.slots[slot].generation,
            reuses(arena, operations, slot),
        ),
        reuses(arena, operations, slot) == 0 ==> run(arena, operations).is_empty_slot(slot),
    decreases operations.len(),
{
    if operations.len() > 0 {
        let earlier = operations.drop_last();
        lemma_slot_through_operations(arena, earlier, slot);
        let before = run(arena, earlier);
        match operations.last() {
            Operation::Insert(value) => {
                before.lemma_insert(value);
                before.lemma_len();
                if before.free.len() > 0 {
                    assert(before.is_empty_slot(before.free[0]));
                }
            },
            Operation::Remove(index) => {
                before.lemma_remove(index);
                before.lemma_remove_slot(index.slot as int);
            },
        }
    }
}

/// An index that was removed stays invalid through all insertions and
/// removals that follow, even when its slot is used again: the occupant has
/// another generation.
///
/// Generations are finitely many and go round. The one course of events that
/// the law leaves out is that the slot has been taken again `u32::MAX` times,
/// or a multiple of that, and is occupied: its generation is then again the
/// one of the removed index.
pub proof fn lemma_removed_index_stays_invalid<T>(
    arena: ArenaView<T>,
    index: IndexView,
    operations: Seq<Operation<T>>,
)
    requires
        arena.wf(),
        arena.contains(index),
        permitted(arena.remove(index), operations),
        reuses(arena.remove(index), operations, index.slot as int) == 0 || reuses(
            arena.remove(index),
            operations,
            index.slot as int,
        ) % (u32::MAX as nat) != 0 || !run(arena.remove(index), operations).is_occupied(
            index.slot as int,
        ),
    ensures
        run(arena.remove(index), operations).wf(),
        run(arena.remove(index), operations).get(index) is None,
{
    arena.lemma_remove(index);
    arena.lemma_remove_slot(index.slot as int);
    let removed = arena.remove(index);
    lemma_slot_through_operations(removed, operations, index.slot as int);
    lemma_advance(index.generation, reuses(removed, operations, index.slot as int));
}

/// Fewer than `u32::MAX` operations cannot bring a removed index back.
pub proof fn lemma_removed_index_stays_invalid_for_long<T>(
    arena: ArenaView<T>,
    index: IndexView,
    operations: Seq<Operation<T>>,
)
    requires
        arena.wf(),
        arena.contains(index),
        permitted(arena.remove(index), operations),
        operations.len() < u32::MAX,
    ensures
        run(arena.remove(index), operations).get(index) is None,
{
    let removed = arena.remove(index);
    let slot = index.slot as int;
    lemma_reuses_bound(removed, operations, slot);
    arena.lemma_remove(index);
    arena.lemma_remove_slot(slot);
    lemma_slot_through_operations(removed, operations, slot);
    let times = reuses(removed, operations, slot);
    lemma_advance(index.generation, times);
    if times > 0 {
        assert(times % (u32::MAX as nat) == times) by (nonlinear_arith)
            requires
                0 < times < u32::MAX,
        ;
    }
}

/// A slot is taken at most once by each operation.
proof fn lemma_reuses_bound<T>(arena: ArenaView<T>, operations: Seq<Operation<T>>, slot: int)
    ensures
        reuses(arena, operations, slot) <= operations.len(),
    decreases operations.len(),
{
    if operations.len() > 0 {
        lemma_reuses_bound(arena, operations.drop_last(), slot);
    }
}

} // verus!
