use std::collections::HashSet;

use thunderdome::Arena;

#[test]
fn drain() {
    let mut arena = Arena::with_capacity(2);
    let one = arena.insert(1);
    let two = arena.insert(2);

    let mut drained_pairs = HashSet::new();
    let mut drain = arena.drain();
    while let Some((index, value)) = drain.next() {
        assert!(drained_pairs.insert((index, value)));
    }

    assert_eq!(arena.len(), 0);
    assert_eq!(arena.capacity(), 2);
    assert_eq!(drained_pairs.len(), 2);
    assert!(drained_pairs.contains(&(one, 1)));
    assert!(drained_pairs.contains(&(two, 2)));

    // We should still be able to use the arena after this.
    let one_prime = arena.insert(1);
    let two_prime = arena.insert(2);

    assert_eq!(arena.len(), 2);
    assert_eq!(arena.capacity(), 2);
    assert_eq!(arena.get(one_prime), Some(&1));
    assert_eq!(arena.get(two_prime), Some(&2));
    assert_eq!(arena.get(one), None);
    assert_eq!(arena.get(two), None);
}

#[test]
fn drain_filter() {
    let mut arena = Arena::with_capacity(2);
    let one = arena.insert(1);
    let two = arena.insert(2);

    // remove `1` from the arena
    let mut drained_pairs = HashSet::new();
    {
        let mut drain_filter = arena.drain_filter(|x| *x == 1);
        assert_eq!(drain_filter.size_hint(), (0, Some(2)));

        drained_pairs.insert(drain_filter.next().unwrap());
        assert_eq!(drain_filter.size_hint(), (0, Some(1)));

        // Do not fully drain so we can ensure everything is dropped when the
        // `DrainFilter` is dropped.
        assert_eq!(drain_filter.size_hint(), (0, Some(1)));
    }

    assert_eq!(arena.len(), 1);
    assert_eq!(arena.capacity(), 2);
    assert_eq!(drained_pairs.len(), 1);

    // We should still be able to use the arena after this.
    let three_prime = arena.insert(3);
    let four_prime = arena.insert(4);

    assert_eq!(arena.len(), 3);
    assert_eq!(arena.capacity(), 4);
    assert_eq!(arena.get(three_prime), Some(&3));
    assert_eq!(arena.get(four_prime), Some(&4));
    assert_eq!(arena.get(one), None);
    assert_eq!(arena.get(two), Some(&2));
}

#[test]
fn drain_empties_the_arena_at_once() {
    let mut arena = Arena::new();
    let a = arena.insert("a");
    let b = arena.insert("b");
    let c = arena.insert("c");
    arena.remove(b);

    let mut drain = arena.drain();
    assert_eq!(drain.size_hint(), (2, Some(2)));
    assert_eq!(drain.next(), Some((a, "a")));
    assert_eq!(drain.size_hint(), (1, Some(1)));

    // The rest is not taken: the arena is empty all the same.
    assert_eq!(arena.len(), 0);
    assert!(arena.is_empty());
    assert_eq!(arena.get(c), None);
    assert_eq!(drain.next(), Some((c, "c")));
    assert_eq!(drain.next(), None);
    assert_eq!(drain.size_hint(), (0, Some(0)));

    // Slots were freed in ascending order, so the highest is used first.
    assert_eq!(arena.insert("d").slot(), 2);
    assert_eq!(arena.insert("e").slot(), 0);
    assert_eq!(arena.insert("f").slot(), 1);
}

#[test]
fn drain_filter_goes_on_past_kept_values() {
    let mut arena = Arena::new();
    let a = arena.insert(1);
    let b = arena.insert(2);
    let c = arena.insert(3);
    let d = arena.insert(4);

    let mut filter = arena.drain_filter(|x| {
        *x += 10;
        *x % 2 == 0
    });
    assert_eq!(filter.next(), Some((b, 12)));
    assert_eq!(filter.next(), Some((d, 14)));
    assert_eq!(filter.next(), None);
    assert_eq!(filter.size_hint(), (0, Some(0)));

    assert_eq!(arena.len(), 2);
    assert_eq!(arena.get(a), Some(&11));
    assert_eq!(arena.get(c), Some(&13));
    assert_eq!(arena.get(b), None);
    assert_eq!(arena.get(d), None);
}

#[test]
fn clear_keeps_slots_and_capacity() {
    let mut arena = Arena::with_capacity(4);
    let a = arena.insert(1);
    let b = arena.insert(2);
    arena.clear();

    assert_eq!(arena.len(), 0);
    assert!(arena.is_empty());
    assert_eq!(arena.capacity(), 4);
    assert_eq!(arena.get(a), None);
    assert_eq!(arena.get(b), None);
    assert_eq!(arena.to_pairs(), vec![(1, None), (1, None)]);

    let again = arena.insert(3);
    assert_eq!(again.slot(), 1);
    assert_eq!(again.generation(), 2);
}
