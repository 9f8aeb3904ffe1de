use duck_hash_join::bytes::{read_i32, read_u32, read_u64};
use duck_hash_join::checksum::row_checksum;
use duck_hash_join::hash::murmur_hash32;
use duck_hash_join::ht::JoinHashTable;
use duck_hash_join::io::{
    append_batch_into_ht, bench_columns, bench_layout, ingest_batches, key_table_fits,
    keys_only_layout, probe_side, table_from_batches, table_of_keys, write_bool_column, write_f32_column,
    write_f64_column, write_i32_column, write_i64_column, BatchCols, Column,
};
use duck_hash_join::row::{row_hash, PhysType};

fn hashes_of(keys: &[i32]) -> Vec<u64> {
    keys.iter().map(|&k| murmur_hash32(k as u32)).collect()
}

fn bench_batch(keys: &[i32]) -> Vec<Column> {
    vec![
        Column::I32(keys.to_vec()),
        Column::I32(keys.iter().map(|k| -k).collect()),
        Column::I64(keys.iter().map(|&k| k as i64 * 1_000_000_000_000).collect()),
        Column::F64(keys.iter().map(|&k| (k as f64 / 2.0).to_bits()).collect()),
        Column::F32(keys.iter().map(|&k| (k as f32 / 4.0).to_bits()).collect()),
        Column::Bool(keys.iter().map(|k| k % 2 == 0).collect()),
    ]
}

fn batch_cols(keys: &[i32]) -> BatchCols {
    BatchCols {
        k: keys.to_vec(),
        c_int: keys.iter().map(|k| -k).collect(),
        c_bigint: keys.iter().map(|&k| k as i64 * 10).collect(),
        c_dbl: keys.iter().map(|&k| (k as f64).to_bits()).collect(),
        c_flt: keys.iter().map(|&k| (k as f32).to_bits()).collect(),
        c_bool: keys.iter().map(|k| k % 2 == 0).collect(),
        c_short: keys.iter().map(|_| b"ab".to_vec()).collect(),
        c_long: keys.iter().map(|_| Vec::new()).collect(),
        n_rows: keys.len(),
    }
}

#[test]
fn bench_columns_are_named_and_typed() {
    assert_eq!(
        bench_columns(),
        vec![
            ("k", PhysType::I32),
            ("c_int", PhysType::I32),
            ("c_bigint", PhysType::I64),
            ("c_dbl", PhysType::F64),
            ("c_flt", PhysType::F32),
            ("c_bool", PhysType::Bool),
        ]
    );
    let layout = bench_layout();
    let offsets: Vec<usize> = (0..layout.num_columns()).map(|c| layout.column_offset(c)).collect();
    assert_eq!(offsets, vec![16, 20, 24, 32, 40, 44]);
    assert_eq!(layout.row_size(), 48);
    assert_eq!(keys_only_layout().row_size(), 24);
    assert_eq!(keys_only_layout().num_columns(), 1);
}

#[test]
fn columns_know_their_type_and_length() {
    let cols = bench_batch(&[1, 2, 3]);
    for (col, (_, ty)) in cols.iter().zip(bench_columns()) {
        assert_eq!(col.phys_type(), ty);
        assert_eq!(col.len(), 3);
    }
}

#[test]
fn columns_are_written_row_by_row() {
    let mut data = vec![0u8; 64];
    write_i32_column(&mut data, 32, 0, &[-5, 6]);
    write_i64_column(&mut data, 32, 8, &[-7, 8]);
    write_f32_column(&mut data, 32, 4, &[1.5f32.to_bits(), 2.5f32.to_bits()]);
    write_f64_column(&mut data, 32, 16, &[3.5f64.to_bits(), 4.5f64.to_bits()]);
    write_bool_column(&mut data, 32, 24, &[true, false]);
    assert_eq!(read_i32(&data, 0), -5);
    assert_eq!(read_i32(&data, 32), 6);
    assert_eq!(read_u64(&data, 8) as i64, -7);
    assert_eq!(read_u64(&data, 40) as i64, 8);
    assert_eq!(f32::from_bits(read_u32(&data, 36)), 2.5);
    assert_eq!(f64::from_bits(read_u64(&data, 16)), 3.5);
    assert_eq!(data[24], 1);
    assert_eq!(data[56], 0);
    assert_eq!(data[25..32], [0u8; 7]);
}

#[test]
fn appended_batch_is_laid_out_and_hashed() {
    let mut ht = JoinHashTable::new(bench_layout());
    append_batch_into_ht(&mut ht, &bench_batch(&[4, 5]));
    append_batch_into_ht(&mut ht, &bench_batch(&[]));
    append_batch_into_ht(&mut ht, &bench_batch(&[-6]));
    assert_eq!(ht.n_rows(), 3);
    assert_eq!(ht.hashes_base_addr_const(), hashes_of(&[4, 5, -6]));
    let row = ht.row_bytes(2);
    assert_eq!(read_i32(row, 16), -6);
    assert_eq!(read_i32(row, 20), 6);
    assert_eq!(read_u64(row, 24) as i64, -6_000_000_000_000);
    assert_eq!(f64::from_bits(read_u64(row, 32)), -3.0);
    assert_eq!(f32::from_bits(read_u32(row, 40)), -1.5);
    assert_eq!(row[44], 1);
    assert_eq!(row_hash(row), murmur_hash32(-6i32 as u32));
    ht.finalize();
    assert_eq!(ht.probe_i32_inner(&hashes_of(&[5]), &[5]).len(), 1);
}

#[test]
fn ingested_batches_keep_their_order() {
    let mut ht = JoinHashTable::new(bench_layout());
    let total = ingest_batches(
        &mut ht,
        vec![bench_batch(&[9, 8]), bench_batch(&[]), bench_batch(&[7, 6, 5])],
    );
    assert_eq!(total, 5);
    assert_eq!(ht.n_rows(), 5);
    let keys: Vec<i32> = (0..5).map(|r| ht.key_at(r)).collect();
    assert_eq!(keys, vec![9, 8, 7, 6, 5]);
    assert_eq!(ht.hashes_base_addr_const(), hashes_of(&keys));
    for r in 0..5 {
        assert_eq!(read_i32(ht.row_bytes(r), 20), -keys[r]);
    }
    ht.finalize_parallel();
    assert_eq!(ht.probe_i32_inner(&hashes_of(&keys), &keys).len(), 5);
}

#[test]
fn ingest_of_no_batch_is_empty() {
    let mut ht = JoinHashTable::new(keys_only_layout());
    assert_eq!(ingest_batches(&mut ht, Vec::new()), 0);
    assert_eq!(ht.n_rows(), 0);
}

#[test]
fn probe_side_joins_the_batches() {
    let (keys, hashes) = probe_side(&[vec![3, 1], vec![], vec![-2]]);
    assert_eq!(keys, vec![3, 1, -2]);
    assert_eq!(hashes, hashes_of(&[3, 1, -2]));
}

#[test]
fn table_locates_rows_in_batches() {
    let t = table_from_batches(vec![
        batch_cols(&[1, 2, 3]),
        batch_cols(&[]),
        batch_cols(&[4, 5]),
    ]);
    assert_eq!(t.boundaries, vec![0, 3, 3, 5]);
    assert_eq!(t.n_rows(), 5);
    let places: Vec<(usize, usize)> = (0..5).map(|r| t.locate(r)).collect();
    assert_eq!(places, vec![(0, 0), (0, 1), (0, 2), (2, 0), (2, 1)]);
    assert_eq!(t.locate(5), (3, 0));
    assert_eq!(t.locate(7), (3, 2));
    for r in 0..5 {
        let (b, i) = t.locate(r);
        assert_eq!(t.ht.key_at(r), t.batches[b].k[i]);
    }
    assert_eq!(t.ht.hashes_base_addr_const(), hashes_of(&[1, 2, 3, 4, 5]));
    assert!(!t.ht.is_finalized());
}

#[test]
fn batch_columns_must_have_one_length() {
    assert!(batch_cols(&[1, 2]).is_ok());
    let mut short = batch_cols(&[1, 2]);
    short.c_long.pop();
    assert!(!short.is_ok());
    let mut miscounted = batch_cols(&[1, 2]);
    miscounted.n_rows = 3;
    assert!(!miscounted.is_ok());
}

#[test]
fn row_checksum_folds_every_column() {
    let cols = batch_cols(&[2]);
    let expected = (-2i64 as u64)
        .wrapping_add(20)
        .wrapping_add(2.0f64.to_bits())
        .wrapping_add(2.0f32.to_bits() as u64)
        .wrapping_add(1)
        .wrapping_add(2 + b'a' as u64);
    assert_eq!(row_checksum(&cols, 0), expected);
}

#[test]
fn table_of_keys_is_ready_to_probe() {
    let keys = vec![10, 20, 10];
    let ht = table_of_keys(&keys, &hashes_of(&keys));
    assert!(ht.is_finalized());
    assert_eq!(ht.n_rows(), 3);
    assert_eq!(ht.probe_i32_inner(&hashes_of(&[10]), &[10]).len(), 2);
}

#[test]
fn key_tables_are_limited_by_the_address_space() {
    assert!(key_table_fits(0));
    assert!(key_table_fits(1_000_000));
    let most = ((1u64 << 48) - 64) as usize / 24;
    assert!(key_table_fits(most));
    assert!(!key_table_fits(most + 1));
    assert!(!key_table_fits(usize::MAX));
}

#[test]
fn ingest_replaces_what_the_table_held() {
    let mut ht = JoinHashTable::new(bench_layout());
    append_batch_into_ht(&mut ht, &bench_batch(&[1, 2, 3, 4]));
    assert_eq!(ingest_batches(&mut ht, vec![bench_batch(&[8, 9])]), 2);
    assert_eq!(ht.n_rows(), 2);
    assert_eq!(ht.key_at(0), 8);
    assert_eq!(ht.key_at(1), 9);
    assert_eq!(ht.hashes_base_addr_const(), hashes_of(&[8, 9]));
    assert_eq!(row_hash(ht.row_bytes(0)), 0);
}

#[test]
fn ingest_and_append_hold_the_same_rows() {
    let batches = || vec![bench_batch(&[5, 6]), bench_batch(&[]), bench_batch(&[7])];
    let mut whole = JoinHashTable::new(bench_layout());
    ingest_batches(&mut whole, batches());
    let mut piecewise = JoinHashTable::new(bench_layout());
    for b in batches() {
        append_batch_into_ht(&mut piecewise, &b);
    }
    assert_eq!(whole.hashes_base_addr_const(), piecewise.hashes_base_addr_const());
    whole.finalize();
    piecewise.finalize();
    for r in 0..3 {
        assert_eq!(whole.row_bytes(r)[16..], piecewise.row_bytes(r)[16..]);
    }
    let keys = [7, 6, 4];
    assert_eq!(
        whole.probe_i32_inner(&hashes_of(&keys), &keys),
        piecewise.probe_i32_inner(&hashes_of(&keys), &keys)
    );
}
