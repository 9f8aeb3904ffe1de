use duck_hash_join::bytes::{
    read_i32, read_u32, read_u64, read_u64_padded, write_bytes, write_i32, write_u32, write_u64,
};
use duck_hash_join::select::chunk_bounds;

#[test]
fn fields_are_little_endian() {
    let mut data = vec![0u8; 16];
    write_u32(&mut data, 1, 0x0403_0201);
    write_u64(&mut data, 8, 0x1122_3344_5566_7788);
    assert_eq!(data[0..6], [0, 1, 2, 3, 4, 0]);
    assert_eq!(data[8..16], [0x88, 0x77, 0x66, 0x55, 0x44, 0x33, 0x22, 0x11]);
    assert_eq!(read_u32(&data, 1), 0x0403_0201);
    assert_eq!(read_u64(&data, 8), 0x1122_3344_5566_7788);
}

#[test]
fn signed_fields_round_trip() {
    let mut data = vec![0u8; 4];
    for x in [0, 1, -1, i32::MIN, i32::MAX] {
        write_i32(&mut data, 0, x);
        assert_eq!(read_i32(&data, 0), x);
        assert_eq!(data, x.to_le_bytes());
    }
}

#[test]
fn bytes_are_copied_in_place() {
    let mut data = vec![9u8; 6];
    write_bytes(&mut data, 2, &[1, 2, 3]);
    assert_eq!(data, vec![9, 9, 1, 2, 3, 9]);
}

#[test]
fn padded_reads_count_missing_bytes_as_zero() {
    let data = [1u8, 2, 3, 4, 5, 6, 7, 8, 9];
    assert_eq!(read_u64_padded(&data, 0), 0x0807_0605_0403_0201);
    assert_eq!(read_u64_padded(&data, 7), 0x0908);
    assert_eq!(read_u64_padded(&data, 9), 0);
}

#[test]
fn ranges_are_cut_into_chunks() {
    assert_eq!(chunk_bounds(10, 4), vec![(0, 4), (4, 8), (8, 10)]);
    assert_eq!(chunk_bounds(8, 4), vec![(0, 4), (4, 8)]);
    assert_eq!(chunk_bounds(3, 100), vec![(0, 3)]);
    assert!(chunk_bounds(0, 4).is_empty());
}
