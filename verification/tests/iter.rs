use std::collections::HashSet;

use thunderdome::Arena;

#[test]
fn into_iter() {
    let mut arena: Arena<u32> = Arena::with_capacity(2);
    let one = arena.insert(1);
    let two = arena.insert(2);

    let mut pairs = HashSet::new();
    let mut into_iter = arena.into_iter();
    assert_eq!(into_iter.size_hint(), (2, Some(2)));

    pairs.insert(into_iter.next().unwrap());
    assert_eq!(into_iter.size_hint(), (1, Some(1)));

    pairs.insert(into_iter.next().unwrap());
    assert_eq!(into_iter.size_hint(), (0, Some(0)));

    assert_eq!(into_iter.next(), None);
    assert_eq!(into_iter.next(), None);
    assert_eq!(into_iter.size_hint(), (0, Some(0)));

    assert_eq!(pairs.len(), 2);
    assert!(pairs.contains(&(one, 1)));
    assert!(pairs.contains(&(two, 2)));
}

#[test]
fn iter() {
    let mut arena = Arena::with_capacity(2);
    let one = arena.insert(1);
    let two = arena.insert(2);

    let mut pairs = HashSet::new();
    let mut iter = arena.iter();
    assert_eq!(iter.size_hint(), (2, Some(2)));

    pairs.insert(iter.next().unwrap());
    assert_eq!(iter.size_hint(), (1, Some(1)));

    pairs.insert(iter.next().unwrap());
    assert_eq!(iter.size_hint(), (0, Some(0)));

    assert_eq!(iter.next(), None);
    assert_eq!(iter.next(), None);
    assert_eq!(iter.size_hint(), (0, Some(0)));

    assert!(pairs.contains(&(one, &1)));
    assert!(pairs.contains(&(two, &2)));
}

#[test]
fn iter_rev() {
    let mut arena = Arena::with_capacity(2);
    let one = arena.insert(1);
    let two = arena.insert(2);

    let mut pairs = HashSet::new();
    let mut iter = arena.iter();
    assert_eq!(iter.size_hint(), (2, Some(2)));

    pairs.insert(iter.next_back().unwrap());
    assert_eq!(iter.size_hint(), (1, Some(1)));

    pairs.insert(iter.next_back().unwrap());
    assert_eq!(iter.size_hint(), (0, Some(0)));

    assert_eq!(iter.next_back(), None);
    assert_eq!(iter.next_back(), None);
    assert_eq!(iter.size_hint(), (0, Some(0)));

    assert!(pairs.contains(&(two, &2)));
    assert!(pairs.contains(&(one, &1)));
}

#[test]
fn iter_both_directions() {
    let mut arena = Arena::with_capacity(2);
    let one = arena.insert(1);
    let two = arena.insert(2);
    let three = arena.insert(3);
    let four = arena.insert(4);

    let mut pairs = HashSet::new();
    let mut iter = arena.iter();
    assert_eq!(iter.size_hint(), (4, Some(4)));

    pairs.insert(iter.next().unwrap());
    assert_eq!(iter.size_hint(), (3, Some(3)));

    pairs.insert(iter.next_back().unwrap());
    assert_eq!(iter.size_hint(), (2, Some(2)));

    pairs.insert(iter.next_back().unwrap());
    assert_eq!(iter.size_hint(), (1, Some(1)));

    pairs.insert(iter.next().unwrap());
    assert_eq!(iter.size_hint(), (0, Some(0)));

    assert_eq!(iter.next_back(), None);
    assert_eq!(iter.next(), None);
    assert_eq!(iter.size_hint(), (0, Some(0)));

    assert!(pairs.contains(&(one, &1)));
    assert!(pairs.contains(&(two, &2)));
    assert!(pairs.contains(&(three, &3)));
    assert!(pairs.contains(&(four, &4)));
}

#[test]
fn iter_mut() {
    let mut arena: Arena<u32> = Arena::with_capacity(2);
    let one = arena.insert(1);
    let two = arena.insert(2);

    let mut pairs = HashSet::new();
    let mut iter = arena.iter_mut();
    assert_eq!(iter.size_hint(), (2, Some(2)));

    let (index, value) = iter.next().unwrap();
    pairs.insert((index, *value));
    assert_eq!(iter.size_hint(), (1, Some(1)));

    let (index, value) = iter.next().unwrap();
    pairs.insert((index, *value));
    assert_eq!(iter.size_hint(), (0, Some(0)));

    assert_eq!(iter.next(), None);
    assert_eq!(iter.next(), None);
    assert_eq!(iter.size_hint(), (0, Some(0)));

    assert!(pairs.contains(&(one, 1)));
    assert!(pairs.contains(&(two, 2)));
}

#[test]
fn iter_skips_empty_slots_from_both_ends() {
    let mut arena = Arena::new();
    let a = arena.insert('a');
    let b = arena.insert('b');
    let c = arena.insert('c');
    let d = arena.insert('d');
    let e = arena.insert('e');
    arena.remove(a);
    arena.remove(c);
    arena.remove(e);

    let mut iter = arena.iter();
    assert_eq!(iter.size_hint(), (2, Some(2)));
    assert_eq!(iter.next_back(), Some((d, &'d')));
    assert_eq!(iter.next(), Some((b, &'b')));
    assert_eq!(iter.next(), None);
    assert_eq!(iter.next_back(), None);
}

#[test]
fn iter_mut_writes_reach_the_arena() {
    let mut arena = Arena::new();
    let a = arena.insert(1);
    let b = arena.insert(2);
    let c = arena.insert(3);
    arena.remove(b);

    let mut iter = arena.iter_mut();
    while let Some((_, value)) = iter.next() {
        *value *= 10;
    }

    assert_eq!(arena.get(a), Some(&10));
    assert_eq!(arena.get(b), None);
    assert_eq!(arena.get(c), Some(&30));
    assert_eq!(arena.len(), 2);
}

#[test]
fn into_iter_yields_in_ascending_order_of_slots() {
    let mut arena = Arena::new();
    let a = arena.insert("a");
    let b = arena.insert("b");
    let c = arena.insert("c");
    arena.remove(b);

    let mut iter = arena.into_iter();
    assert_eq!(iter.next(), Some((a, "a")));
    assert_eq!(iter.size_hint(), (1, Some(1)));
    assert_eq!(iter.next(), Some((c, "c")));
    assert_eq!(iter.next(), None);
}
