use duck_hash_join::chain::{extract_keys, probe_lookup, run_key_chain};
use duck_hash_join::checksum::{row_checksum, SENTINEL};
use duck_hash_join::hash::murmur_hash32;
use duck_hash_join::ht::JoinHashTable;
use duck_hash_join::io::{
    bench_layout, ingest_batches, keys_only_layout, table_from_batches, BatchCols, Column,
    TableData,
};
use duck_hash_join::row::ARENA_BASE;
use duck_hash_join::row_chain::{chain_step, initial_chain, run_row_chain, ChainRow};
use duck_hash_join::sink::{lance_sink, materialize_sink, pipelined_sink};

fn hashes_of(keys: &[i32]) -> Vec<u64> {
    keys.iter().map(|&k| murmur_hash32(k as u32)).collect()
}

fn key_table(keys: &[i32]) -> JoinHashTable {
    let mut ht = JoinHashTable::new(keys_only_layout());
    ingest_batches(&mut ht, vec![vec![Column::I32(keys.to_vec())]]);
    ht
}

fn bench_table(keys: &[i32]) -> JoinHashTable {
    let mut ht = JoinHashTable::new(bench_layout());
    let n = keys.len();
    ingest_batches(
        &mut ht,
        vec![vec![
            Column::I32(keys.to_vec()),
            Column::I32(keys.iter().map(|k| k + 1).collect()),
            Column::I64(keys.iter().map(|&k| k as i64 * 3).collect()),
            Column::F64(vec![2.0f64.to_bits(); n]),
            Column::F32(vec![0.5f32.to_bits(); n]),
            Column::Bool(vec![true; n]),
        ]],
    );
    ht
}

fn column_table(batches: &[&[i32]]) -> TableData {
    table_from_batches(
        batches
            .iter()
            .map(|keys| BatchCols {
                k: keys.to_vec(),
                c_int: keys.iter().map(|k| k + 1).collect(),
                c_bigint: keys.iter().map(|&k| k as i64 * 3).collect(),
                c_dbl: vec![2.0f64.to_bits(); keys.len()],
                c_flt: vec![0.5f32.to_bits(); keys.len()],
                c_bool: vec![true; keys.len()],
                c_short: keys.iter().map(|k| k.to_string().into_bytes()).collect(),
                c_long: vec![Vec::new(); keys.len()],
                n_rows: keys.len(),
            })
            .collect(),
    )
}

/// What a sink reads of a row of `bench_table`: eight bytes from the start of
/// each data column on, zeros past the end of the row.
fn bench_row_sum(key: i32) -> u64 {
    let mut row = [0u8; 64];
    row[16..20].copy_from_slice(&key.to_le_bytes());
    row[20..24].copy_from_slice(&(key + 1).to_le_bytes());
    row[24..32].copy_from_slice(&(key as i64 * 3).to_le_bytes());
    row[32..40].copy_from_slice(&2.0f64.to_le_bytes());
    row[40..44].copy_from_slice(&0.5f32.to_le_bytes());
    row[44] = 1;
    let mut sum = 0u64;
    for off in [20, 24, 32, 40, 44] {
        let mut word = [0u8; 8];
        word.copy_from_slice(&row[off..off + 8]);
        sum = sum.wrapping_add(u64::from_le_bytes(word));
    }
    sum
}

#[test]
fn extracted_keys_are_those_of_the_rows() {
    let ht = key_table(&[3, -1, 3]);
    let (keys, hashes) = extract_keys(&ht);
    assert_eq!(keys, vec![3, -1, 3]);
    assert_eq!(hashes, hashes_of(&[3, -1, 3]));
}

#[test]
fn lookup_finds_the_newest_row() {
    let mut ht = key_table(&[3, -1, 3]);
    ht.finalize_parallel();
    assert_eq!(probe_lookup(&ht, murmur_hash32(3), 3), Some(ARENA_BASE + 48));
    assert_eq!(probe_lookup(&ht, murmur_hash32(-1i32 as u32), -1), Some(ARENA_BASE + 24));
    assert_eq!(probe_lookup(&ht, murmur_hash32(4), 4), None);
}

#[test]
fn inner_chain_keeps_the_keys_of_all_tables() {
    let mut tables = vec![
        key_table(&[1, 2, 3, 4, 5]),
        key_table(&[5, 4, 3, 9]),
        key_table(&[3, 7, 5]),
    ];
    tables[0].finalize_parallel();
    let (keys, hashes) = run_key_chain(&tables, false).unwrap();
    assert_eq!(keys, vec![3, 5]);
    assert_eq!(hashes, hashes_of(&[3, 5]));
}

#[test]
fn outer_chain_makes_the_union() {
    let mut tables = vec![key_table(&[1, 2]), key_table(&[2, 3]), key_table(&[4, 1, 3, 5])];
    tables[0].finalize();
    let (keys, hashes) = run_key_chain(&tables, true).unwrap();
    assert_eq!(keys, vec![1, 2, 3, 4, 5]);
    assert_eq!(hashes, hashes_of(&[1, 2, 3, 4, 5]));
}

#[test]
fn chains_of_the_half_overlapping_workload() {
    let shared: Vec<i32> = (0..300).collect();
    let make = |t: i32| -> Vec<i32> {
        let own = 10_000 * (t + 1);
        shared.iter().copied().chain(own..own + 300).collect()
    };
    let mut tables: Vec<JoinHashTable> = (0..5).map(|t| key_table(&make(t))).collect();
    tables[0].finalize_parallel();
    assert_eq!(run_key_chain(&tables, false).unwrap().0.len(), 300);
    assert_eq!(run_key_chain(&tables, true).unwrap().0.len(), 300 + 5 * 300);
    let refs: Vec<&JoinHashTable> = tables.iter().collect();
    assert_eq!(run_row_chain(&refs).unwrap().len(), 300 + 5 * 300);
}

#[test]
fn inner_chain_repeats_keys_per_match() {
    let mut tables = vec![key_table(&[1, 1, 2]), key_table(&[1, 1])];
    tables[0].finalize();
    assert_eq!(run_key_chain(&tables, false).unwrap().0, vec![1, 1, 1, 1]);
}

#[test]
fn row_chain_carries_the_addresses() {
    let t0 = key_table(&[1, 2]);
    let t1 = key_table(&[2, 3]);
    let t2 = key_table(&[3, 1]);
    let chain = run_row_chain(&[&t0, &t1, &t2]).unwrap();
    let a = |r: u64| ARENA_BASE as u64 + 24 * r;
    let rows: Vec<(i32, u64, [u64; 5])> = chain.iter().map(|c| (c.key, c.hash, c.ptrs)).collect();
    assert_eq!(
        rows,
        vec![
            (1, murmur_hash32(1), [a(0), 0, a(1), 0, 0]),
            (2, murmur_hash32(2), [a(1), a(0), 0, 0, 0]),
            (3, murmur_hash32(3), [0, a(1), a(0), 0, 0]),
        ]
    );
}

#[test]
fn row_chain_has_the_keys_of_the_key_chain() {
    let sets: [&[i32]; 4] = [&[5, 1, 9], &[9, 2], &[], &[2, 7, 5, 8]];
    let mut tables: Vec<JoinHashTable> = sets.iter().map(|s| key_table(s)).collect();
    tables[0].finalize();
    let refs: Vec<&JoinHashTable> = tables.iter().collect();
    let rows: Vec<i32> = run_row_chain(&refs).unwrap().iter().map(|c| c.key).collect();
    assert_eq!(run_key_chain(&tables, true).unwrap().0, rows);
    assert_eq!(rows, vec![5, 1, 9, 2, 7, 8]);
}

#[test]
fn chain_steps_make_the_chain() {
    let t0 = key_table(&[1, 2]);
    let t1 = key_table(&[2, 3]);
    let mut chain = initial_chain(&t0);
    assert_eq!(chain.len(), 2);
    assert_eq!(chain[1].ptrs, [ARENA_BASE as u64 + 24, 0, 0, 0, 0]);
    chain_step(&mut chain, &t1, 4);
    assert_eq!(chain.len(), 3);
    assert_eq!(chain[1].ptrs, [ARENA_BASE as u64 + 24, 0, 0, 0, ARENA_BASE as u64]);
    assert_eq!(chain[2].key, 3);
    assert_eq!(chain[2].ptrs, [0, 0, 0, 0, ARENA_BASE as u64 + 24]);
}

#[test]
fn materializing_sink_reads_rows_and_sentinels() {
    let mut tables = vec![bench_table(&[1, 2]), bench_table(&[2, 3])];
    for t in &mut tables {
        t.finalize_parallel();
    }
    let keys = vec![1, 2, 3];
    let sum = materialize_sink(&tables, &keys, &hashes_of(&keys));
    let expected = bench_row_sum(1)
        .wrapping_add(SENTINEL)
        .wrapping_add(bench_row_sum(2))
        .wrapping_add(bench_row_sum(2))
        .wrapping_add(SENTINEL)
        .wrapping_add(bench_row_sum(3));
    assert_eq!(sum, expected);
    assert_eq!(materialize_sink(&tables, &[], &[]), 0);
}

#[test]
fn pipelined_sink_reads_what_the_chain_holds() {
    let tables = vec![bench_table(&[1, 2]), bench_table(&[2, 3])];
    let refs: Vec<&JoinHashTable> = tables.iter().collect();
    let chain = run_row_chain(&refs).unwrap();
    let rows = bench_row_sum(1)
        .wrapping_add(bench_row_sum(2).wrapping_mul(2))
        .wrapping_add(bench_row_sum(3));
    let holes = 3 * 5 - 4;
    assert_eq!(
        pipelined_sink(&chain, &tables),
        rows.wrapping_add(SENTINEL.wrapping_mul(holes))
    );
}

#[test]
fn lance_sink_reads_from_the_batches() {
    let tables = [column_table(&[&[1], &[], &[2, 3]]), column_table(&[&[3, 4]])];
    let chain = run_row_chain(&[&tables[0].ht, &tables[1].ht]).unwrap();
    let refs: Vec<&TableData> = tables.iter().collect();
    let b = &tables[0].batches;
    let rows = [
        row_checksum(&b[0], 0),
        row_checksum(&b[2], 0),
        row_checksum(&b[2], 1),
        row_checksum(&tables[1].batches[0], 0),
        row_checksum(&tables[1].batches[0], 1),
    ]
    .iter()
    .fold(0u64, |a, &x| a.wrapping_add(x));
    let holes = 4 * 5 - 5;
    assert_eq!(
        lance_sink(&refs, &chain),
        rows.wrapping_add(SENTINEL.wrapping_mul(holes))
    );
    assert_eq!(lance_sink(&refs, &[]), 0);
}

#[test]
fn sinks_split_long_chains() {
    let keys: Vec<i32> = (0..40_000).collect();
    let table = key_table(&keys);
    let row = ChainRow { key: 0, hash: murmur_hash32(0), ptrs: [ARENA_BASE as u64, 0, 0, 0, 0] };
    let chain = vec![row; 40_000];
    assert_eq!(
        pipelined_sink(&chain, &[table]),
        SENTINEL.wrapping_mul(4 * 40_000)
    );
}

#[test]
fn both_sinks_give_one_checksum_over_five_tables() {
    let sets: [&[i32]; 5] = [&[1, 2, 3], &[3, 4], &[], &[5, 1, 6], &[2, 7, 3]];
    let mut tables: Vec<JoinHashTable> = sets.iter().map(|s| bench_table(s)).collect();
    let chain = {
        let refs: Vec<&JoinHashTable> = tables.iter().collect();
        run_row_chain(&refs).unwrap()
    };
    for t in &mut tables {
        t.finalize_parallel();
    }
    let keys: Vec<i32> = chain.iter().map(|c| c.key).collect();
    let hashes: Vec<u64> = chain.iter().map(|c| c.hash).collect();
    assert_eq!(keys, vec![1, 2, 3, 4, 5, 6, 7]);
    assert_eq!(materialize_sink(&tables, &keys, &hashes), pipelined_sink(&chain, &tables));
}

#[test]
fn chain_step_goes_by_the_hashes_that_it_is_given() {
    let mut t = JoinHashTable::new(keys_only_layout());
    t.set_len(2);
    let data = t.arena_bytes_mut();
    data[16..20].copy_from_slice(&5i32.to_le_bytes());
    data[40..44].copy_from_slice(&6i32.to_le_bytes());
    let row = |key: i32, addr: u64| ChainRow { key, hash: 0, ptrs: [addr, 0, 0, 0, 0] };
    let mut chain = vec![row(6, 100), row(7, 200)];
    chain_step(&mut chain, &t, 1);
    let out: Vec<(i32, u64, [u64; 5])> = chain.iter().map(|r| (r.key, r.hash, r.ptrs)).collect();
    let base = ARENA_BASE as u64;
    assert_eq!(
        out,
        vec![
            (6, 0, [100, base + 24, 0, 0, 0]),
            (7, 0, [200, 0, 0, 0, 0]),
            (5, 0, [0, base, 0, 0, 0]),
        ]
    );
}
