use thunderdome::{Arena, Index};

#[test]
fn bits_round_trip_both_ways() {
    for &bits in &[
        0x0000_0001_0000_0000u64,
        0x0000_0001_FFFF_FFFF,
        0xFFFF_FFFF_0000_0000,
        u64::MAX,
        0x0000_002A_0000_0007,
    ] {
        let index = Index::from_bits(bits).unwrap();
        assert_eq!(index.to_bits(), bits);
        assert_eq!(index.generation() as u64, bits >> 32);
        assert_eq!(index.slot() as u64, bits & 0xFFFF_FFFF);
        assert_eq!(Index::from_bits(index.to_bits()), Some(index));
    }
}

#[test]
fn bits_with_zero_generation_are_refused() {
    for &bits in &[0u64, 1, 0xFFFF_FFFF, 0x0000_0000_8000_0000] {
        assert_eq!(Index::from_bits(bits), None);
    }
}

#[test]
fn bits_of_an_inserted_index() {
    let mut arena = Arena::new();
    arena.insert('a');
    let b = arena.insert('b');
    arena.remove(b);
    let c = arena.insert('c');
    assert_eq!(c.to_bits(), (2u64 << 32) | 1);
}

#[test]
fn removed_index_stays_invalid_when_slot_is_reused() {
    let mut arena = Arena::new();
    let a = arena.insert(1);
    let b = arena.insert(2);

    assert_eq!(arena.remove(a), Some(1));
    assert_eq!(arena.get(a), None);

    let c = arena.insert(3);
    assert_eq!(c.slot(), a.slot());
    assert_eq!(c.generation(), a.generation() + 1);
    assert_ne!(c, a);
    assert_eq!(arena.get(a), None);
    assert_eq!(arena.get(c), Some(&3));
    assert_eq!(arena.get(b), Some(&2));

    // Many rounds later the old indices are still refused.
    let mut latest = c;
    for round in 0..1000 {
        assert_eq!(arena.remove(latest), Some(3 + round));
        latest = arena.insert(4 + round);
        assert_eq!(latest.slot(), a.slot());
        assert_eq!(arena.get(a), None);
        assert_eq!(arena.get(c), None);
    }
    assert_eq!(arena.remove(a), None);
    assert_eq!(arena.len(), 2);
}

#[test]
fn free_slots_are_reused_last_first() {
    let mut arena = Arena::new();
    let a = arena.insert("a");
    let b = arena.insert("b");
    let c = arena.insert("c");

    arena.remove(a);
    arena.remove(b);

    let d = arena.insert("d");
    let e = arena.insert("e");
    assert_eq!(d.slot(), b.slot());
    assert_eq!(e.slot(), a.slot());
    assert_eq!(d.generation(), 2);
    assert_eq!(e.generation(), 2);
    assert_eq!(arena.get(c), Some(&"c"));

    let f = arena.insert("f");
    assert_eq!(f.slot(), 3);
    assert_eq!(f.generation(), 1);
}

fn count_valid(arena: &Arena<u32>, handed_out: &[Index]) -> usize {
    handed_out.iter().filter(|index| arena.get(**index).is_some()).count()
}

#[test]
fn len_counts_the_valid_indices() {
    let mut arena = Arena::new();
    let mut handed_out = Vec::new();
    for i in 0..20 {
        handed_out.push(arena.insert(i));
        assert_eq!(arena.len(), count_valid(&arena, &handed_out));
    }
    for i in (0..20).step_by(3) {
        arena.remove(handed_out[i]);
        assert_eq!(arena.len(), count_valid(&arena, &handed_out));
    }
    for i in 0..5 {
        handed_out.push(arena.insert(100 + i));
        assert_eq!(arena.len(), count_valid(&arena, &handed_out));
    }
    arena.retain(|_, value| *value % 2 == 0);
    assert_eq!(arena.len(), count_valid(&arena, &handed_out));
    assert_eq!(arena.len(), 9);
    // Removing a stale index changes nothing.
    assert_eq!(arena.remove(handed_out[0]), None);
    assert_eq!(arena.len(), 9);
}

#[test]
fn get2_mut_writes_do_not_interfere() {
    let mut arena = Arena::new();
    let a = arena.insert(1);
    let b = arena.insert(2);
    let c = arena.insert(3);

    {
        let (first, second) = arena.get2_mut(c, a);
        let first = first.unwrap();
        let second = second.unwrap();
        *first += 30;
        *second += 10;
        *first += 300;
    }
    assert_eq!(arena.get(a), Some(&11));
    assert_eq!(arena.get(b), Some(&2));
    assert_eq!(arena.get(c), Some(&333));

    // The same slot under two generations: only the valid one is reached.
    let stale = a;
    let fresh = arena.invalidate(a).unwrap();
    {
        let (first, second) = arena.get2_mut(stale, fresh);
        assert!(first.is_none());
        *second.unwrap() = 7;
    }
    assert_eq!(arena.get(fresh), Some(&7));

    // Slots that do not exist are reached by no index.
    let far = Index::from_bits((1u64 << 32) | 99).unwrap();
    let (first, second) = arena.get2_mut(far, b);
    assert!(first.is_none());
    assert_eq!(second, Some(&mut 2));
}

#[test]
fn scenario_of_reuse() {
    let mut arena = Arena::new();
    let a = arena.insert(1);
    let b = arena.insert(2);

    assert_eq!(arena.remove(a), Some(1));
    let c = arena.insert(3);

    assert_eq!(c.slot(), a.slot());
    assert_ne!(c.generation(), a.generation());
    assert_eq!(arena.get(a), None);
    assert_eq!(arena.get(c), Some(&3));
    assert_eq!(arena.get(b), Some(&2));
}

#[test]
fn invalidate_moves_to_the_next_generation() {
    let mut arena = Arena::new();
    let a = arena.insert("a");
    let new_a = arena.invalidate(a).unwrap();
    assert_eq!(new_a.slot(), a.slot());
    assert_eq!(new_a.generation(), 2);
    assert_eq!(arena.len(), 1);
    assert_eq!(arena.invalidate(a), None);
    assert_eq!(arena.get(new_a), Some(&"a"));
}

#[test]
fn generation_wraps_on_reuse_of_a_slot() {
    let last = Index::from_bits(((u32::MAX as u64) << 32) | 0).unwrap();
    let mut arena = Arena::new();
    assert_eq!(arena.insert_at(last, 'x'), None);
    assert_eq!(arena.remove(last), Some('x'));

    let next = arena.insert('y');
    assert_eq!(next.slot(), 0);
    assert_eq!(next.generation(), 1);
    assert_eq!(arena.get(last), None);
}

#[test]
fn insert_at_replaces_and_returns_the_old_value() {
    let mut arena = Arena::new();
    let a = arena.insert("a");

    let (index, old) = arena.insert_at_slot(a.slot(), "b");
    assert_eq!(old, Some("a"));
    assert_eq!(index.slot(), a.slot());
    assert_eq!(index.generation(), 2);
    assert_eq!(arena.len(), 1);
    assert_eq!(arena.get(a), None);
    assert_eq!(arena.get(index), Some(&"b"));

    let given = Index::from_bits((9u64 << 32) | (a.slot() as u64)).unwrap();
    assert_eq!(arena.insert_at(given, "c"), Some("b"));
    assert_eq!(arena.get(given), Some(&"c"));
    assert_eq!(arena.len(), 1);
}

#[test]
fn insert_at_takes_a_slot_out_of_the_free_list() {
    let mut arena = Arena::new();
    let a = arena.insert(0);
    let b = arena.insert(1);
    let c = arena.insert(2);
    arena.remove(a);
    arena.remove(b);
    arena.remove(c);

    // The free list is c, b, a. Slot b leaves it from the middle.
    let (index, old) = arena.insert_at_slot(b.slot(), 10);
    assert_eq!(old, None);
    assert_eq!(index.generation(), 2);
    assert_eq!(arena.len(), 1);

    assert_eq!(arena.insert(20).slot(), c.slot());
    assert_eq!(arena.insert(30).slot(), a.slot());
    assert_eq!(arena.insert(40).slot(), 3);
    assert_eq!(arena.len(), 4);
}

#[test]
fn slot_accessors_disregard_generations() {
    let mut arena = Arena::new();
    let a = arena.insert(5);
    let fresh = arena.invalidate(a).unwrap();

    assert_eq!(arena.contains_slot(a.slot()), Some(fresh));
    assert_eq!(arena.contains_slot(7), None);
    assert_eq!(arena.get_by_slot(a.slot()), Some((fresh, &5)));

    let (index, value) = arena.get_by_slot_mut(a.slot()).unwrap();
    assert_eq!(index, fresh);
    *value = 6;
    assert_eq!(arena.get_by_slot_mut(3), None);

    assert_eq!(arena.remove_by_slot(a.slot()), Some((fresh, 6)));
    assert_eq!(arena.remove_by_slot(a.slot()), None);
    assert_eq!(arena.contains_slot(a.slot()), None);
    assert!(arena.is_empty());
}

#[test]
fn retain_sees_each_value_once_and_may_change_it() {
    let mut arena = Arena::new();
    let a = arena.insert(1);
    let b = arena.insert(2);
    let c = arena.insert(3);
    arena.remove(b);

    let mut seen = Vec::new();
    arena.retain(|index, value| {
        seen.push(index);
        *value += 1;
        *value != 2
    });

    assert_eq!(seen, vec![a, c]);
    assert_eq!(arena.get(a), None);
    assert_eq!(arena.get(c), Some(&4));
    assert_eq!(arena.len(), 1);
    // The slot freed by retain is used before the one freed earlier.
    assert_eq!(arena.insert(9).slot(), a.slot());
    assert_eq!(arena.insert(9).slot(), b.slot());
}

#[test]
fn clone_keeps_indices_valid() {
    let mut arena = Arena::new();
    let a = arena.insert(String::from("a"));
    let b = arena.insert(String::from("b"));
    arena.remove(a);

    let mut copy = arena.clone();
    assert_eq!(copy.len(), 1);
    assert_eq!(copy.get(b), Some(&String::from("b")));
    assert_eq!(copy.get(a), None);
    assert_eq!(copy.insert(String::from("c")).slot(), a.slot());
    assert_eq!(arena.len(), 1);

    let empty: Arena<u8> = Arena::default();
    assert!(empty.is_empty());
}

#[test]
fn indices_are_equal_by_slot_and_generation() {
    let index = |slot: u64, generation: u64| Index::from_bits((generation << 32) | slot).unwrap();

    assert_eq!(index(3, 7), index(3, 7));
    assert_ne!(index(3, 7), index(3, 8));
    assert_ne!(index(3, 7), index(4, 7));

    // Indices are ordered by slot first, then by generation.
    assert!(index(1, 9) < index(2, 1));
    assert!(index(2, 1) < index(2, 2));

    let mut seen = std::collections::HashSet::new();
    assert!(seen.insert(index(3, 7)));
    assert!(!seen.insert(index(3, 7)));
    assert!(seen.insert(index(3, 8)));
}
