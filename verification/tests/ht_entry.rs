use duck_hash_join::ht_entry::{increment_and_wrap, HtEntry};

#[test]
fn empty_is_zero() {
    let e = HtEntry::empty();
    assert_eq!(e.0, 0);
    assert!(!e.is_occupied());
    assert_eq!(e.pointer(), 0);
}

#[test]
fn packs_and_unpacks_pointer() {
    let p: usize = 0x0000_7FFD_8A3C_51F0;
    let hash: u64 = 0xDEAD_BEEF_1234_5678;
    let e = HtEntry::new(hash, p);
    assert!(e.is_occupied());
    assert_eq!(e.pointer(), p);
}

#[test]
fn salt_comparable_form() {
    let p: usize = 0x0000_7FFD_8A3C_51F0;
    let hash: u64 = 0xDEAD_BEEF_1234_5678;
    let e = HtEntry::new(hash, p);
    assert_eq!(e.salt(), HtEntry::extract_salt(hash));
    let other_hash: u64 = 0x1234_BEEF_1234_5678;
    assert_ne!(e.salt(), HtEntry::extract_salt(other_hash));
}

#[test]
fn salt_ignores_low_bits() {
    let h1: u64 = 0xABCD_0000_0000_0000;
    let h2: u64 = 0xABCD_FFFF_FFFF_FFFF;
    assert_eq!(HtEntry::extract_salt(h1), HtEntry::extract_salt(h2));
}

#[test]
fn increment_and_wrap_is_power_of_two_mod() {
    let mask = 7;
    let mut off = 6;
    increment_and_wrap(&mut off, mask);
    assert_eq!(off, 7);
    increment_and_wrap(&mut off, mask);
    assert_eq!(off, 0);
    increment_and_wrap(&mut off, mask);
    assert_eq!(off, 1);
}

#[test]
fn default_entry_is_empty() {
    assert_eq!(HtEntry::default(), HtEntry::empty());
}

#[test]
fn entry_word_is_salt_over_address() {
    let e = HtEntry::new(0xDEAD_BEEF_1234_5678, 0x40);
    assert_eq!(e.0, 0xDEAD_0000_0000_0040);
    assert_eq!(e.salt(), 0xDEAD_FFFF_FFFF_FFFF);
}
