use duck_hash_join::hash::murmur_hash32;
use duck_hash_join::ht::{
    directory_capacity, directory_capacity_for, JoinHashTable, MIN_CAPACITY,
};
use duck_hash_join::row::{row_hash, row_next_ptr, PhysType, RowLayout, ARENA_BASE};

fn make_ht(payload_types: &[PhysType]) -> JoinHashTable {
    let mut tys = vec![PhysType::I32];
    tys.extend_from_slice(payload_types);
    JoinHashTable::new(RowLayout::new(tys))
}

fn table_with(keys: &[i32]) -> JoinHashTable {
    let mut ht = make_ht(&[]);
    ht.reserve(keys.len());
    for &k in keys {
        ht.insert_test_row(k, &[]);
    }
    ht
}

fn hashes_of(keys: &[i32]) -> Vec<u64> {
    keys.iter().map(|&k| murmur_hash32(k as u32)).collect()
}

#[test]
fn empty_ht_finalizes() {
    let mut ht = make_ht(&[]);
    ht.finalize();
    assert_eq!(ht.n_rows(), 0);
    assert_eq!(ht.capacity(), MIN_CAPACITY);
}

#[test]
fn capacity_is_power_of_two_min_16k() {
    assert_eq!(directory_capacity(0), MIN_CAPACITY);
    assert_eq!(directory_capacity(7), MIN_CAPACITY);
    assert_eq!(directory_capacity(100_000), 262_144);
    assert_eq!(directory_capacity(1_000_000), 2_097_152);
}

#[test]
fn single_row_roundtrip() {
    let mut ht = make_ht(&[]);
    ht.reserve(1);
    ht.insert_test_row(42, &[]);
    ht.finalize();
    let probe_key = 42i32;
    let probe_hash = murmur_hash32(42u32);
    let hits = ht.probe_i32_inner(&[probe_hash], &[probe_key]).len();
    assert_eq!(hits, 1);
}

#[test]
fn nonmatching_probe_zero_hits() {
    let mut ht = make_ht(&[]);
    ht.reserve(1);
    ht.insert_test_row(42, &[]);
    ht.finalize();
    let probe_key = 99i32;
    let probe_hash = murmur_hash32(99u32);
    let hits = ht.probe_i32_inner(&[probe_hash], &[probe_key]).len();
    assert_eq!(hits, 0);
}

#[test]
fn duplicate_build_keys_all_emit() {
    let mut ht = make_ht(&[]);
    ht.reserve(3);
    for _ in 0..3 {
        ht.insert_test_row(42, &[]);
    }
    ht.finalize();
    let probe_hash = murmur_hash32(42u32);
    let hits = ht.probe_i32_inner(&[probe_hash], &[42i32]).len();
    assert_eq!(hits, 3);
}

#[test]
fn batch_probe_mixed_hits() {
    let mut ht = make_ht(&[]);
    ht.reserve(4);
    for k in [1, 2, 3, 2] {
        ht.insert_test_row(k, &[]);
    }
    ht.finalize();
    let probe_keys: Vec<i32> = vec![1, 2, 3, 4, 5];
    let probe_hashes: Vec<u64> = probe_keys.iter().map(|&k| murmur_hash32(k as u32)).collect();
    let mut per_key_hits = vec![0usize; probe_keys.len()];
    for (_row, idx) in ht.probe_i32_inner(&probe_hashes, &probe_keys) {
        per_key_hits[idx] += 1;
    }
    assert_eq!(per_key_hits, vec![1, 2, 1, 0, 0]);
}

#[test]
fn larger_sweep_no_false_negatives() {
    let n = 10_000i32;
    let mut ht = make_ht(&[]);
    ht.reserve(n as usize);
    for k in 0..n {
        ht.insert_test_row(k, &[]);
    }
    ht.finalize();
    let keys: Vec<i32> = (0..n).collect();
    let hashes: Vec<u64> = keys.iter().map(|&k| murmur_hash32(k as u32)).collect();
    let hits = ht.probe_i32_inner(&hashes, &keys).len();
    assert_eq!(hits as i32, n);
}

#[test]
fn capacity_for_is_the_capacity() {
    for n in [0, 1, 8192, 8193, 16384, 16385] {
        assert_eq!(directory_capacity_for(n), directory_capacity(n));
        assert!(2 * n <= directory_capacity(n));
    }
    assert_eq!(directory_capacity(8192), 16384);
    assert_eq!(directory_capacity(8193), 32768);
}

#[test]
fn matches_come_newest_first() {
    let mut ht = table_with(&[7, 5, 7, 7]);
    ht.finalize();
    let out = ht.probe_i32_inner(&hashes_of(&[7]), &[7]);
    assert_eq!(
        out,
        vec![
            (ARENA_BASE + 3 * 24, 0),
            (ARENA_BASE + 2 * 24, 0),
            (ARENA_BASE, 0)
        ]
    );
    for (addr, _) in out {
        let row = ht.row_index(addr);
        assert_eq!(ht.key_at(row), 7);
    }
}

#[test]
fn payload_and_hash_are_stored_in_the_row() {
    let mut ht = make_ht(&[PhysType::Bool, PhysType::Bool]);
    ht.insert_test_row(-3, &[11, 12]);
    let row = ht.row_bytes(0);
    assert_eq!(row[16..20], (-3i32).to_le_bytes());
    assert_eq!(row[20..22], [11, 12]);
    assert_eq!(row_hash(row), murmur_hash32(-3i32 as u32));
    assert_eq!(ht.hashes_base_addr_const()[0], murmur_hash32(-3i32 as u32));
}

#[test]
fn state_before_and_after_finalize() {
    let mut ht = table_with(&[1, 2]);
    assert!(!ht.is_finalized());
    assert_eq!(ht.capacity(), 0);
    assert_eq!(ht.capacity_mask(), 0);
    assert_eq!(ht.key_offset(), 16);
    assert_eq!(ht.arena_base_addr(), ARENA_BASE);
    assert_eq!(ht.layout().row_size(), 24);
    ht.finalize();
    assert!(ht.is_finalized());
    assert_eq!(ht.capacity(), MIN_CAPACITY);
    assert_eq!(ht.capacity_mask(), MIN_CAPACITY - 1);
    assert_eq!(ht.directory_ptr().len(), MIN_CAPACITY);
    let occupied = ht.directory_ptr().iter().filter(|e| e.is_occupied()).count();
    assert_eq!(occupied, 2);
}

#[test]
fn presized_table_takes_rows_and_hashes() {
    let mut ht = make_ht(&[]);
    ht.set_len(2);
    assert_eq!(ht.n_rows(), 2);
    let data = ht.arena_bytes_mut();
    data[16..20].copy_from_slice(&5i32.to_le_bytes());
    data[40..44].copy_from_slice(&6i32.to_le_bytes());
    let slots = ht.hashes_base_addr();
    slots[0] = murmur_hash32(5);
    slots[1] = murmur_hash32(6);
    ht.finalize_parallel();
    let out = ht.probe_i32_inner(&hashes_of(&[6, 5, 4]), &[6, 5, 4]);
    assert_eq!(out, vec![(ARENA_BASE + 24, 0), (ARENA_BASE, 1)]);
}

#[test]
fn appended_rows_are_recorded() {
    let mut ht = make_ht(&[]);
    let rows = ht.append_rows(2);
    assert_eq!(rows.len(), 48);
    rows[16..20].copy_from_slice(&8i32.to_le_bytes());
    rows[40..44].copy_from_slice(&9i32.to_le_bytes());
    ht.record_hashes(&hashes_of(&[8, 9]));
    assert_eq!(row_hash(ht.row_bytes(1)), murmur_hash32(9));
    ht.finalize();
    assert_eq!(ht.probe_i32_inner(&hashes_of(&[9]), &[9]), vec![(ARENA_BASE + 24, 0)]);
}

#[test]
fn rows_with_one_salt_share_a_chain() {
    let mut ht = make_ht(&[]);
    ht.set_len(3);
    let data = ht.arena_bytes_mut();
    for (i, k) in [1i32, 2, 3].iter().enumerate() {
        data[i * 24 + 16..i * 24 + 20].copy_from_slice(&k.to_le_bytes());
    }
    let slots = ht.hashes_base_addr();
    slots[0] = 0xABCD_0000_0000_0001;
    slots[1] = 0xABCD_0000_0000_4001;
    slots[2] = 0x1234_0000_0000_0001;
    ht.finalize();
    assert_eq!(ht.probe_i32_inner(&[0xABCD_0000_0000_0001], &[2]).len(), 1);
    assert_eq!(ht.probe_i32_inner(&[0x1234_0000_0000_0001], &[3]).len(), 1);
    assert_eq!(ht.probe_i32_inner(&[0x1234_0000_0000_0001], &[1]).len(), 0);
}

#[test]
fn parallel_finalize_files_every_row_of_a_large_table() {
    let n = 70_000i32;
    let keys: Vec<i32> = (0..n).map(|i| i / 2).collect();
    let mut serial = table_with(&keys);
    serial.finalize();
    let mut parallel = table_with(&keys);
    parallel.finalize_parallel();
    assert_eq!(parallel.capacity(), 262_144);
    let probes: Vec<i32> = (0..n / 2 + 100).collect();
    let hashes = hashes_of(&probes);
    let a = serial.probe_i32_inner(&hashes, &probes);
    let b = parallel.probe_i32_inner(&hashes, &probes);
    assert_eq!(a.len(), n as usize);
    assert_eq!(a, b);
}

#[test]
fn set_len_leaves_no_row_behind() {
    let mut ht = table_with(&[7, 8]);
    ht.set_len(3);
    assert_eq!(ht.n_rows(), 3);
    for r in 0..3 {
        assert_eq!(ht.row_bytes(r), [0u8; 24]);
    }
    assert_eq!(ht.hashes_base_addr_const(), [murmur_hash32(7), murmur_hash32(8), 0]);
}

#[test]
fn every_row_stands_on_one_chain() {
    let mut ht = table_with(&[7, 5, 7, 9, 7, 5]);
    ht.finalize();
    let mut seen: Vec<usize> = Vec::new();
    for entry in ht.directory_ptr() {
        let mut addr = if entry.is_occupied() { entry.pointer() } else { 0 };
        while addr != 0 {
            let row = ht.row_index(addr);
            seen.push(row);
            addr = row_next_ptr(ht.row_bytes(row)) as usize;
        }
    }
    seen.sort();
    assert_eq!(seen, vec![0, 1, 2, 3, 4, 5]);
}

#[test]
fn both_ways_to_finalize_agree_on_chosen_hashes() {
    let n = 66_000usize;
    let fill = |ht: &mut JoinHashTable| {
        ht.set_len(n);
        let data = ht.arena_bytes_mut();
        for r in 0..n {
            data[r * 24 + 16..r * 24 + 20].copy_from_slice(&((r % 100) as i32).to_le_bytes());
        }
        for (r, h) in ht.hashes_base_addr().iter_mut().enumerate() {
            *h = (r % 200) as u64 * 0x0101_0000_0000_0001;
        }
    };
    let mut serial = make_ht(&[]);
    fill(&mut serial);
    serial.finalize();
    let mut parallel = make_ht(&[]);
    fill(&mut parallel);
    parallel.finalize_parallel();
    let keys: Vec<i32> = (0..200).map(|h| h % 100).collect();
    let hashes: Vec<u64> = (0..200).map(|h| h as u64 * 0x0101_0000_0000_0001).collect();
    let a = serial.probe_i32_inner(&hashes, &keys);
    assert_eq!(a.len(), n);
    assert_eq!(a, parallel.probe_i32_inner(&hashes, &keys));
}
