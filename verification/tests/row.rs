use duck_hash_join::row::{
    align_up, row_hash, row_next_ptr, set_row_hash, set_row_next_ptr, PhysType, RowArena,
    RowLayout, ARENA_BASE, HEADER_SIZE,
};

fn i32_at(row: &[u8], off: usize) -> i32 {
    i32::from_le_bytes([row[off], row[off + 1], row[off + 2], row[off + 3]])
}

#[test]
fn layout_packs_columns() {
    let layout = RowLayout::new(vec![
        PhysType::I32,
        PhysType::I64,
        PhysType::F32,
        PhysType::Bool,
    ]);
    assert_eq!(layout.column_offset(0), 16);
    assert_eq!(layout.column_offset(1), 24);
    assert_eq!(layout.column_offset(2), 32);
    assert_eq!(layout.column_offset(3), 36);
    assert_eq!(layout.row_size(), 40);
}

#[test]
fn arena_appends_and_reads() {
    let layout = RowLayout::new(vec![PhysType::I32]);
    let mut arena = RowArena::new(layout.clone());
    arena.reserve(4);
    let buf = arena.append_blank(4);
    for i in 0..4 {
        let off = i * layout.row_size() + layout.column_offset(0);
        buf[off..off + 4].copy_from_slice(&(i as i32).to_le_bytes());
    }
    assert_eq!(arena.len(), 4);
    for i in 0..4 {
        let row = arena.row_ptr(i);
        assert_eq!(i32_at(row, layout.column_offset(0)), i as i32);
    }
}

#[test]
fn header_round_trip() {
    let layout = RowLayout::new(vec![PhysType::I32]);
    let mut arena = RowArena::new(layout);
    arena.reserve(2);
    arena.append_blank(2);
    let p = arena.row_ptr_mut(0);
    set_row_hash(p, 0xDEAD_BEEF_1234_5678);
    set_row_next_ptr(p, 0x0000_AAAA_BBBB_CCCC);
    assert_eq!(row_hash(p), 0xDEAD_BEEF_1234_5678);
    assert_eq!(row_next_ptr(p), 0x0000_AAAA_BBBB_CCCC);
}

#[test]
fn align_up_handles_edges() {
    assert_eq!(align_up(0, 8), 0);
    assert_eq!(align_up(1, 8), 8);
    assert_eq!(align_up(8, 8), 8);
    assert_eq!(align_up(9, 8), 16);
}

#[test]
fn size_of_nextptr_matches_u64() {
    assert!(HEADER_SIZE >= 2 * std::mem::size_of::<u64>());
}

#[test]
fn types_have_their_width_as_alignment() {
    let widths = [
        (PhysType::I32, 4),
        (PhysType::I64, 8),
        (PhysType::F32, 4),
        (PhysType::F64, 8),
        (PhysType::Bool, 1),
    ];
    for (ty, width) in widths {
        assert_eq!(ty.size(), width);
        assert_eq!(ty.align(), width);
    }
}

#[test]
fn layout_keeps_its_columns() {
    let layout = RowLayout::new(vec![PhysType::I32, PhysType::Bool]);
    assert_eq!(layout.num_columns(), 2);
    assert_eq!(layout.column_type(0), PhysType::I32);
    assert_eq!(layout.column_type(1), PhysType::Bool);
    assert_eq!(layout.column_offset(1), 20);
    assert_eq!(layout.row_size(), 24);
}

#[test]
fn empty_arena_has_no_base() {
    let mut arena = RowArena::new(RowLayout::new(vec![PhysType::I32]));
    assert!(arena.is_empty());
    assert_eq!(arena.base_addr(), 0);
    arena.set_len(3);
    assert!(!arena.is_empty());
    assert_eq!(arena.base_addr(), ARENA_BASE);
    assert_eq!(arena.row_addr(2), ARENA_BASE + 48);
}

#[test]
fn set_len_zeroes_every_row() {
    let mut arena = RowArena::new(RowLayout::new(vec![PhysType::I32]));
    arena.append_blank(1)[16] = 9;
    arena.set_len(2);
    assert_eq!(arena.len(), 2);
    assert_eq!(arena.bytes(), vec![0u8; 48]);
    arena.row_ptr_mut(0)[16] = 9;
    arena.set_len(1);
    assert_eq!(arena.len(), 1);
    assert_eq!(arena.bytes(), vec![0u8; 24]);
}

#[test]
fn columns_start_at_the_next_multiple_of_their_alignment() {
    let layout = RowLayout::new(vec![
        PhysType::Bool,
        PhysType::Bool,
        PhysType::I64,
        PhysType::Bool,
        PhysType::F32,
    ]);
    let offsets: Vec<usize> = (0..5).map(|c| layout.column_offset(c)).collect();
    assert_eq!(offsets, vec![16, 17, 24, 32, 36]);
    assert_eq!(layout.row_size(), 40);
}
