use std::mem::size_of;

use thunderdome::FreePointer;

#[test]
fn from_slot() {
    let ptr = FreePointer::from_slot(0);
    assert_eq!(ptr.slot(), 0);
}

#[test]
fn free_pointer_keeps_its_slot() {
    assert_eq!(FreePointer::from_slot(41).slot(), 41);
    assert_eq!(FreePointer::from_slot(core::u32::MAX - 1).slot(), core::u32::MAX - 1);
}

#[test]
fn free_pointer_fits_in_an_option() {
    assert_eq!(size_of::<Option<FreePointer>>(), 4);
}
