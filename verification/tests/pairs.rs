use thunderdome::{Arena, InvalidGeneration};

fn owned(pairs: Vec<(u32, Option<&u32>)>) -> Vec<(u32, Option<u32>)> {
    pairs.into_iter().map(|(generation, value)| (generation, value.copied())).collect()
}

/// Takes the arena as pairs, holds them against what is expected, builds an
/// arena from them and holds that against the pairs and the free list.
fn round_trip(arena: Arena<u32>, expected: Vec<(u32, Option<u32>)>, expected_free: Vec<u32>) {
    let pairs = owned(arena.to_pairs());
    assert_eq!(pairs, expected);

    let mut de: Arena<u32> = Arena::from_pairs(pairs).unwrap();
    assert_eq!(owned(de.to_pairs()), expected);

    let expected_len = expected.iter().filter(|pair| pair.1.is_some()).count();
    assert_eq!(de.len(), expected_len);

    // Insertions take the free slots in the order of the free list.
    for slot in expected_free {
        assert_eq!(de.insert(0).slot(), slot);
    }
    assert_eq!(de.insert(0).slot() as usize, expected.len());
}

#[test]
fn round_trip_empty() {
    let arena: Arena<u32> = Arena::new();

    round_trip(arena, vec![], vec![]);
}

#[test]
fn all_occupied() {
    let mut arena: Arena<u32> = Arena::new();
    arena.insert(70);
    arena.insert(80);
    arena.insert(90);

    round_trip(arena, vec![(1, Some(70)), (1, Some(80)), (1, Some(90))], vec![]);
}

#[test]
fn inner_empty() {
    let mut arena: Arena<u32> = Arena::new();
    arena.insert(100);
    let second = arena.insert(101);
    arena.insert(102);
    arena.remove(second).unwrap();

    round_trip(arena, vec![(1, Some(100)), (1, None), (1, Some(102))], vec![1]);
}

#[test]
fn trailing_empty() {
    let mut arena: Arena<u32> = Arena::new();
    arena.insert(10);
    arena.insert(11);
    let last = arena.insert(12);
    arena.remove(last).unwrap();

    round_trip(arena, vec![(1, Some(10)), (1, Some(11)), (1, None)], vec![2]);
}

#[test]
fn generations() {
    let mut arena: Arena<u32> = Arena::new();
    let mut handle = arena.insert(50);
    for i in 0..10 {
        arena.remove(handle);
        handle = arena.insert(50 + i);
    }

    round_trip(arena, vec![(11, Some(59))], vec![]);
}

#[test]
fn free_list() {
    let mut arena: Arena<u32> = Arena::new();
    let a = arena.insert(300);
    let b = arena.insert(400);
    let c = arena.insert(500);
    arena.remove(a).unwrap();
    arena.remove(b).unwrap();
    arena.remove(c).unwrap();

    round_trip(arena, vec![(1, None), (1, None), (1, None)], vec![2, 1, 0]);
}

#[test]
fn pairs_of_strings_keep_layout_and_len() {
    let mut arena = Arena::new();
    let x = arena.insert("x");
    let gone = arena.insert("gone");
    let y = arena.insert("y");
    arena.remove(gone);

    assert_eq!(arena.to_pairs(), vec![(1, Some(&"x")), (1, None), (1, Some(&"y"))]);

    let again = Arena::from_pairs(vec![(1, Some("x")), (1, None), (1, Some("y"))]).unwrap();
    assert_eq!(again.to_pairs(), vec![(1, Some(&"x")), (1, None), (1, Some(&"y"))]);
    assert_eq!(again.len(), 2);
    assert_eq!(again.get(x), Some(&"x"));
    assert_eq!(again.get(y), Some(&"y"));
    assert_eq!(again.get(gone), None);
}

#[test]
fn zero_generation_is_refused() {
    let made: Result<Arena<u32>, InvalidGeneration> =
        Arena::from_pairs(vec![(1, Some(7)), (0, None), (3, Some(9)), (0, Some(1))]);
    assert_eq!(made.err(), Some(InvalidGeneration { position: 1 }));

    let made: Result<Arena<u32>, InvalidGeneration> = Arena::from_pairs(vec![(0, Some(7))]);
    assert_eq!(made.err(), Some(InvalidGeneration { position: 0 }));
}

#[test]
fn from_pairs_keeps_generations_of_empty_slots() {
    let mut arena: Arena<u32> = Arena::from_pairs(vec![(5, None), (9, Some(1))]).unwrap();
    assert_eq!(arena.len(), 1);

    let index = arena.insert(2);
    assert_eq!(index.slot(), 0);
    assert_eq!(index.generation(), 6);
}
