use thunderdome::Generation;

#[test]
fn first_and_next() {
    let first = Generation::first();
    assert_eq!(first.to_u32(), 1);

    let second = first.next();
    assert_eq!(second.to_u32(), 2);
}

#[test]
fn wrap_on_overflow() {
    let max = Generation::from_u32(core::u32::MAX).unwrap();
    assert_eq!(max.to_u32(), core::u32::MAX);

    let next = max.next();
    assert_eq!(next.to_u32(), 1);
}

#[test]
fn generation_from_zero_is_none() {
    assert_eq!(Generation::from_u32(0), None);
    assert_eq!(Generation::from_u32(7).unwrap().to_u32(), 7);
}
