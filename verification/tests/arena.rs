use std::mem::size_of;

use thunderdome::{Arena, Index};

fn index_of(slot: u32, generation: u32) -> Index {
    Index::from_bits(((generation as u64) << 32) | (slot as u64)).unwrap()
}

#[test]
fn size_of_index() {
    assert_eq!(size_of::<Index>(), 8);
    assert_eq!(size_of::<Option<Index>>(), 8);
}

#[test]
fn new() {
    let arena: Arena<u32> = Arena::new();
    assert_eq!(arena.len(), 0);
    assert_eq!(arena.capacity(), 0);
}

#[test]
fn with_capacity() {
    let arena: Arena<u32> = Arena::with_capacity(8);
    assert_eq!(arena.len(), 0);
    assert_eq!(arena.capacity(), 8);
}

#[test]
fn insert_and_get() {
    let mut arena = Arena::new();

    let one = arena.insert(1);
    assert_eq!(arena.len(), 1);
    assert_eq!(arena.get(one), Some(&1));

    let two = arena.insert(2);
    assert_eq!(arena.len(), 2);
    assert_eq!(arena.get(one), Some(&1));
    assert_eq!(arena.get(two), Some(&2));
}

#[test]
fn insert_remove_get() {
    let mut arena = Arena::new();
    let one = arena.insert(1);

    let two = arena.insert(2);
    assert_eq!(arena.len(), 2);
    assert!(arena.contains(two));
    assert_eq!(arena.remove(two), Some(2));
    assert!(!arena.contains(two));

    let three = arena.insert(3);
    assert_eq!(arena.len(), 2);
    assert_eq!(arena.get(one), Some(&1));
    assert_eq!(arena.get(three), Some(&3));
    assert_eq!(arena.get(two), None);
}

#[test]
fn insert_remove_get_by_slot() {
    let mut arena = Arena::new();
    let one = arena.insert(1);

    let two = arena.insert(2);
    assert_eq!(arena.len(), 2);
    assert!(arena.contains(two));
    assert_eq!(arena.remove_by_slot(two.slot()), Some((two, 2)));
    assert!(!arena.contains(two));
    assert_eq!(arena.get_by_slot(two.slot()), None);

    let three = arena.insert(3);
    assert_eq!(arena.len(), 2);
    assert_eq!(arena.get(one), Some(&1));
    assert_eq!(arena.get(three), Some(&3));
    assert_eq!(arena.get(two), None);
    assert_eq!(arena.get_by_slot(two.slot()), Some((three, &3)));
}

#[test]
fn insert_at() {
    let mut arena = Arena::new();
    // Numbers definitely not chosen by fair dice roll
    let index = index_of(42, 78);
    arena.insert_at(index, 5);
    assert_eq!(arena.len(), 1);
    assert_eq!(arena.get(index), Some(&5));
    assert_eq!(arena.get_by_slot(42), Some((index, &5)));
}

#[test]
fn insert_at_first_slot() {
    let mut arena = Arena::new();
    // Numbers definitely not chosen by fair dice roll
    let index = index_of(0, 3);
    arena.insert_at(index, 5);
    assert_eq!(arena.len(), 1);
    assert_eq!(arena.get(index), Some(&5));
    assert_eq!(arena.get_by_slot(0), Some((index, &5)));
}

#[test]
fn insert_at_slot() {
    let mut arena = Arena::new();

    let (index, _) = arena.insert_at_slot(42, 5);
    assert_eq!(arena.len(), 1);
    assert_eq!(arena.get(index), Some(&5));
    assert_eq!(arena.get_by_slot(42), Some((index, &5)));
}

#[test]
fn insert_at_middle() {
    let mut arena = Arena::new();
    arena.insert_at_slot(4, 50);
    arena.insert_at_slot(2, 40);

    // The free list goes from slot 3 to slot 1, past the slot that was taken
    // out of it, and then to slot 0.
    assert_eq!(arena.insert(30).slot(), 3);
    assert_eq!(arena.insert(10).slot(), 1);
    assert_eq!(arena.insert(0).slot(), 0);
    assert_eq!(arena.insert(60).slot(), 5);
}

#[test]
fn get_mut() {
    let mut arena = Arena::new();
    let foo = arena.insert(5);

    let handle = arena.get_mut(foo).unwrap();
    *handle = 6;

    assert_eq!(arena.get(foo), Some(&6));
}

#[test]
fn get2_mut() {
    let mut arena = Arena::new();
    let foo = arena.insert(100);
    let bar = arena.insert(500);

    let (foo_handle, bar_handle) = arena.get2_mut(foo, bar);
    let foo_handle = foo_handle.unwrap();
    let bar_handle = bar_handle.unwrap();
    *foo_handle = 105;
    *bar_handle = 505;

    assert_eq!(arena.get(foo), Some(&105));
    assert_eq!(arena.get(bar), Some(&505));
}

#[test]
fn get2_mut_reversed_order() {
    let mut arena = Arena::new();
    let foo = arena.insert(100);
    let bar = arena.insert(500);

    let (bar_handle, foo_handle) = arena.get2_mut(bar, foo);
    let foo_handle = foo_handle.unwrap();
    let bar_handle = bar_handle.unwrap();
    *foo_handle = 105;
    *bar_handle = 505;

    assert_eq!(arena.get(foo), Some(&105));
    assert_eq!(arena.get(bar), Some(&505));
}

#[test]
fn get2_mut_non_exist_handle() {
    let mut arena = Arena::new();
    let foo = arena.insert(100);
    let bar = arena.insert(500);
    arena.remove(bar);

    let (bar_handle, foo_handle) = arena.get2_mut(bar, foo);
    let foo_handle = foo_handle.unwrap();
    assert!(bar_handle.is_none());
    *foo_handle = 105;

    assert_eq!(arena.get(foo), Some(&105));
}

#[test]
fn get2_mut_same_slot_different_generation() {
    let mut arena = Arena::new();
    let foo = arena.insert(100);
    let foo1 = index_of(foo.slot(), foo.generation() + 1);

    let (foo_handle, foo1_handle) = arena.get2_mut(foo, foo1);
    assert!(foo_handle.is_some());
    assert!(foo1_handle.is_none());
}

#[test]
fn insert_remove_insert_capacity() {
    let mut arena = Arena::with_capacity(2);
    assert_eq!(arena.capacity(), 2);

    let a = arena.insert("a");
    let b = arena.insert("b");
    assert_eq!(arena.len(), 2);
    assert_eq!(arena.capacity(), 2);

    arena.remove(a);
    arena.remove(b);
    assert_eq!(arena.len(), 0);
    assert_eq!(arena.capacity(), 2);

    let _a2 = arena.insert("a2");
    let _b2 = arena.insert("b2");
    assert_eq!(arena.len(), 2);
    assert_eq!(arena.capacity(), 2);
}

#[test]
fn invalidate() {
    let mut arena = Arena::new();

    let a = arena.insert("a");
    assert_eq!(arena.get(a), Some(&"a"));

    let new_a = arena.invalidate(a).unwrap();
    assert_eq!(arena.get(a), None);
    assert_eq!(arena.get(new_a), Some(&"a"));
}

#[test]
fn retain() {
    let mut arena = Arena::new();

    for i in 0..100 {
        arena.insert(i);
    }

    arena.retain(|_, &mut i| i % 2 == 1);

    let mut iter = arena.iter();
    while let Some((_, i)) = iter.next() {
        assert_eq!(i % 2, 1);
    }

    assert_eq!(arena.len(), 50);
}

#[test]
fn index_bits_roundtrip() {
    let index = Index::from_bits(0x1BADCAFE_DEADBEEF).unwrap();
    assert_eq!(index.to_bits(), 0x1BADCAFE_DEADBEEF);
}

#[test]
fn index_bits_none_on_zero_generation() {
    let index = Index::from_bits(0x00000000_DEADBEEF);
    assert_eq!(index, None);
}
