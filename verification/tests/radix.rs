use duck_hash_join::radix::{initial_radix_bits, mask, num_partitions, partition_of, shift};

#[test]
fn num_partitions_basic() {
    assert_eq!(num_partitions(0), 1);
    assert_eq!(num_partitions(4), 16);
    assert_eq!(num_partitions(12), 4096);
}

#[test]
fn shift_layout() {
    assert_eq!(shift(0), 48);
    assert_eq!(shift(4), 44);
    assert_eq!(shift(12), 36);
}

#[test]
fn mask_isolates_radix_field() {
    assert_eq!(mask(4), 0x0000_F000_0000_0000);
    assert_eq!(mask(12), 0x0000_FFF0_0000_0000);
    assert_eq!(mask(0), 0);
}

#[test]
fn partition_of_extracts_correct_field() {
    let h = 0xABCD_1234_5678_9ABCu64;
    assert_eq!(partition_of(h, 12), 0x123);
    assert_eq!(partition_of(h, 4), 0x1);
    assert_eq!(partition_of(h, 0), 0);
}

#[test]
fn radix_and_salt_do_not_overlap() {
    let salt_mask: u64 = 0xFFFF_0000_0000_0000;
    assert_eq!(mask(12) & salt_mask, 0);
}

#[test]
fn initial_radix_bits_heuristic() {
    assert_eq!(initial_radix_bits(1), 4);
    assert_eq!(initial_radix_bits(4), 4);
    assert_eq!(initial_radix_bits(99), 4);
    assert_eq!(initial_radix_bits(100), 5);
    assert_eq!(initial_radix_bits(1024), 5);
}

#[test]
fn masked_hash_shifts_down_to_the_partition() {
    let h = 0xABCD_1234_5678_9ABCu64;
    for bits in 0..13u32 {
        assert_eq!(((h & mask(bits)) >> shift(bits)) as usize, partition_of(h, bits));
        assert!(partition_of(h, bits) < num_partitions(bits));
    }
}
