use std::sync::Arc;

use duck_hash_join::bytes::read_i32;
use duck_hash_join::checksum::SENTINEL;
use duck_hash_join::hash::murmur_hash32;
use duck_hash_join::hash_join::{
    build_side_fits, BuildGlobalState, BuildLocalState, HashJoinOp, ProbeLocal, ProbeOperator,
    UnmatchedLocal, UnmatchedSource, BUILD_KEY_OFF, BUILD_ROW_SIZE, UNMATCHED_CHUNK,
};
use duck_hash_join::io::{table_from_batches, BatchCols, TableData};
use duck_hash_join::operator_chain::run_chain_operator;
use duck_hash_join::pipeline::{
    drive_source_op_sink, drive_source_to_sink, Batch, Operator, Sink, Source, StagedPipeline,
};
use duck_hash_join::row::ARENA_BASE;
use duck_hash_join::row_chain::run_row_chain;
use duck_hash_join::scan::{ChecksumLocal, ChecksumSinkOp, ParquetScanLocal, ParquetScanSource};
use duck_hash_join::sink::lance_sink;

fn table(batches: &[&[i32]]) -> Arc<TableData> {
    Arc::new(table_from_batches(
        batches
            .iter()
            .map(|keys| BatchCols {
                k: keys.to_vec(),
                c_int: keys.to_vec(),
                c_bigint: keys.iter().map(|&k| k as i64).collect(),
                c_dbl: vec![1; keys.len()],
                c_flt: vec![1; keys.len()],
                c_bool: vec![true; keys.len()],
                c_short: keys.iter().map(|k| k.to_string().into_bytes()).collect(),
                c_long: vec![b"long".to_vec(); keys.len()],
                n_rows: keys.len(),
            })
            .collect(),
    ))
}

fn batch(rows: &[(i32, [u64; 5])]) -> Batch {
    let mut b = Batch::default();
    for &(k, ptrs) in rows {
        b.push(k, murmur_hash32(k as u32), ptrs);
    }
    b
}

fn joined(build: &[(i32, [u64; 5])]) -> HashJoinOp {
    let mut j = HashJoinOp::new(build.len(), 0);
    let mut local = BuildLocalState::default();
    j.sink(batch(build), &mut local);
    j.combine(local);
    j.finalize();
    j
}

#[test]
fn batches_hold_rows() {
    let mut b = Batch::with_capacity(4);
    assert!(b.is_empty());
    b.push(7, 8, [1, 2, 3, 4, 5]);
    assert_eq!(b.len(), 1);
    assert_eq!(b.keys, vec![7]);
    assert_eq!(b.hashes, vec![8]);
    assert_eq!(b.ptrs, vec![[1, 2, 3, 4, 5]]);
    b.clear();
    assert!(b.is_empty());
}

#[test]
fn local_rows_are_combined_in_order() {
    let mut global = BuildGlobalState::new(10);
    let mut a = BuildLocalState::default();
    a.append_batch(&batch(&[(1, [0; 5]), (2, [0; 5])]));
    a.append_batch(&batch(&[(3, [0; 5])]));
    assert_eq!(a.n_rows, 3);
    assert_eq!(a.bytes.len(), 3 * BUILD_ROW_SIZE);
    let mut b = BuildLocalState::default();
    b.append_batch(&batch(&[(4, [0; 5])]));
    global.combine_local(a);
    global.combine_local(BuildLocalState::default());
    global.combine_local(b);
    assert_eq!(global.n_rows, 4);
    assert_eq!(global.reserved_rows, 10);
    let keys: Vec<u8> = (0..4).map(|r| global.arena[r * BUILD_ROW_SIZE + 16]).collect();
    assert_eq!(keys, vec![1, 2, 3, 4]);
}

#[test]
fn appended_rows_follow_what_is_there() {
    let mut local = BuildLocalState::default();
    local.append_batch(&batch(&[(1, [9; 5])]));
    let before = local.bytes.clone();
    local.append_batch(&batch(&[(-2, [1, 2, 3, 4, 5])]));
    assert_eq!(local.bytes[..BUILD_ROW_SIZE], before);
    let mut row = vec![0u8; 8];
    row.extend(murmur_hash32(-2i32 as u32).to_le_bytes());
    row.extend((-2i32).to_le_bytes());
    row.extend([0u8; 4]);
    for p in 1u64..6 {
        row.extend(p.to_le_bytes());
    }
    assert_eq!(local.bytes[BUILD_ROW_SIZE..], row);
}

#[test]
fn combined_arena_is_the_local_arenas_in_a_row() {
    let mut global = BuildGlobalState::new(0);
    let mut expected: Vec<u8> = Vec::new();
    for keys in [[1, 2], [3, 4]] {
        let mut local = BuildLocalState::default();
        local.append_batch(&batch(&[(keys[0], [7; 5]), (keys[1], [8; 5])]));
        expected.extend(&local.bytes);
        global.combine_local(local);
    }
    assert_eq!(global.arena, expected);
}

#[test]
fn new_join_is_empty_and_not_built() {
    let j = HashJoinOp::new(100, 3);
    assert_eq!(j.n_rows(), 0);
    assert_eq!(j.slot_idx, 3);
    assert!(!j.built);
    assert!(j.matched.is_empty());
    assert!(j.build.arena.is_empty());
}

#[test]
fn marks_are_cleared_by_finalize_and_set_by_probes() {
    let rows: Vec<(i32, [u64; 5])> = (0..70).map(|k| (k, [1; 5])).collect();
    let mut j = joined(&rows);
    assert_eq!(j.matched, vec![0, 0]);
    j.probe_execute(&batch(&[(0, [0; 5]), (65, [0; 5]), (99, [0; 5])]));
    assert_eq!(j.matched, vec![1, 2]);
    j.probe_execute(&batch(&[(3, [0; 5]), (65, [0; 5])]));
    assert_eq!(j.matched, vec![9, 2]);
}

#[test]
fn every_worker_pulls_until_nothing_is_left() {
    let t = table(&[&[1, 2], &[3]]);
    for threads in [1, 2, 5] {
        let mut source = ParquetScanSource::new(t.clone(), 0);
        let mut sink = HashJoinOp::new(3, 0);
        drive_source_to_sink(&mut source, &mut sink, threads);
        assert_eq!(source.global.next_rg, 2 + threads);
        assert_eq!(sink.n_rows(), 3);
    }
}

/// The keys of the build rows, in the order of the rows.
fn build_keys(j: &HashJoinOp) -> Vec<i32> {
    (0..j.n_rows()).map(|r| read_i32(&j.build.arena, r * BUILD_ROW_SIZE + BUILD_KEY_OFF)).collect()
}

#[test]
fn workers_sink_whole_batches_by_turns() {
    let t = table(&[&[1, 2], &[3], &[4, 5, 6], &[], &[7]]);
    let by_workers: [(usize, Vec<i32>); 4] = [
        (1, vec![1, 2, 3, 4, 5, 6, 7]),
        (2, vec![1, 2, 4, 5, 6, 7, 3]),
        (3, vec![1, 2, 3, 7, 4, 5, 6]),
        (9, vec![1, 2, 3, 4, 5, 6, 7]),
    ];
    for (threads, keys) in by_workers {
        let mut sink = HashJoinOp::new(7, 0);
        drive_source_to_sink(&mut ParquetScanSource::new(t.clone(), 0), &mut sink, threads);
        assert_eq!(build_keys(&sink), keys);
        assert!(!sink.built);
        assert_eq!(sink.build.reserved_rows, 7);
    }
}

#[test]
fn workers_sink_what_comes_out_for_their_batches() {
    let t = table(&[&[1, 2], &[3], &[2, 8]]);
    for (threads, keys) in [(1, vec![1, 2, 2, 3, 2, 2, 8]), (2, vec![1, 2, 2, 2, 2, 8, 3])] {
        let mut probe = ProbeOperator::new(joined(&[(2, [1; 5]), (2, [2; 5]), (9, [3; 5])]));
        let mut sink = HashJoinOp::new(0, 0);
        let mut scan = ParquetScanSource::new(t.clone(), 1);
        drive_source_op_sink(&mut scan, &mut probe, &mut sink, threads);
        assert_eq!(build_keys(&sink), keys);
        assert_eq!(scan.global.next_rg, 3 + threads);
        assert_eq!(probe.hj.matched, vec![3]);
    }
}

#[test]
fn locals_combined_in_any_order_lie_side_by_side() {
    let locals = || {
        [vec![(1, [1; 5])], vec![], vec![(2, [2; 5]), (3, [3; 5])]].map(|rows| {
            let mut l = BuildLocalState::default();
            l.append_batch(&batch(&rows));
            l
        })
    };
    for order in [[0usize, 1, 2], [2, 0, 1], [1, 2, 0]] {
        let mut global = BuildGlobalState::new(5);
        let mut expected: Vec<u8> = Vec::new();
        for i in order {
            let [a, b, c] = locals();
            let local = [a, b, c].into_iter().nth(i).unwrap();
            expected.extend(&local.bytes);
            global.combine_local(local);
        }
        assert_eq!(global.arena, expected);
        assert_eq!(global.n_rows, 3);
        assert_eq!(global.arena.len(), 3 * BUILD_ROW_SIZE);
        assert_eq!(global.reserved_rows, 5);
    }
}

#[test]
fn build_sides_are_limited_by_the_address_space() {
    assert!(build_side_fits(0));
    let most = ((1u64 << 48) - 64) as usize / BUILD_ROW_SIZE;
    assert!(build_side_fits(most));
    assert!(!build_side_fits(most + 1));
    assert!(!build_side_fits(usize::MAX));
}

#[test]
fn probes_join_merge_and_mark() {
    let mut j = joined(&[(1, [11, 0, 0, 0, 0]), (2, [12, 0, 0, 0, 0]), (2, [13, 0, 0, 0, 0])]);
    assert_eq!(j.n_rows(), 3);
    let out = j.probe_execute(&batch(&[(2, [0, 21, 0, 0, 0]), (5, [0, 22, 0, 0, 0])]));
    assert_eq!(out.keys, vec![2, 2, 5]);
    assert_eq!(
        out.ptrs,
        vec![[13, 21, 0, 0, 0], [12, 21, 0, 0, 0], [0, 22, 0, 0, 0]]
    );
    let rest = j.emit_unmatched_batch(0, 100).unwrap();
    assert_eq!(rest.keys, vec![1]);
    assert_eq!(rest.ptrs, vec![[11, 0, 0, 0, 0]]);
    assert!(j.emit_unmatched_batch(1, 100).is_none());
    assert!(j.emit_unmatched_batch(3, 100).is_none());
}

#[test]
fn build_addresses_win_over_probe_addresses() {
    let mut j = joined(&[(1, [7, 0, 9, 0, 0])]);
    let out = j.probe_execute(&batch(&[(1, [1, 2, 3, 4, 5])]));
    assert_eq!(out.ptrs, vec![[7, 2, 9, 4, 5]]);
}

#[test]
fn join_over_an_empty_build_side() {
    let mut j = joined(&[]);
    let out = j.probe_execute(&batch(&[(1, [0, 1, 0, 0, 0])]));
    assert_eq!(out.keys, vec![1]);
    assert!(j.emit_unmatched_batch(0, 10).is_none());
}

#[test]
fn operator_puts_out_what_the_join_gives() {
    let mut op = ProbeOperator::new(joined(&[(1, [1, 0, 0, 0, 0])]));
    let mut local = ProbeLocal::default();
    let out = op.execute(batch(&[(1, [0; 5]), (2, [0; 5])]), &mut local);
    assert_eq!(out.len(), 1);
    assert_eq!(out[0].keys, vec![1, 2]);
    assert!(op.execute(Batch::default(), &mut local).is_empty());
    let _ = op.global_state();
}

#[test]
fn unmatched_source_hands_out_each_row_once() {
    let rows: Vec<(i32, [u64; 5])> = (0..10_000).map(|k| (k, [k as u64 + 1, 0, 0, 0, 0])).collect();
    let mut j = joined(&rows);
    let probes: Vec<(i32, [u64; 5])> = (0..10_000).step_by(2).map(|k| (k, [0; 5])).collect();
    j.probe_execute(&batch(&probes));
    let mut source = UnmatchedSource::new(&j);
    let mut local = UnmatchedLocal::default();
    let mut keys: Vec<i32> = Vec::new();
    while let Some(b) = source.get_data(&mut local) {
        assert!(!b.is_empty());
        keys.extend(b.keys);
    }
    assert_eq!(keys, (1..10_000).step_by(2).collect::<Vec<i32>>());
    assert!(source.get_data(&mut local).is_none());
    assert_eq!(source.global_state().next_row, 5 * UNMATCHED_CHUNK);
}

#[test]
fn scan_hands_out_the_batches() {
    let mut source = ParquetScanSource::new(table(&[&[4, 5], &[], &[6]]), 2);
    let mut local = ParquetScanLocal::default();
    let first = source.get_data(&mut local).unwrap();
    assert_eq!(first.keys, vec![4, 5]);
    assert_eq!(first.hashes, vec![murmur_hash32(4), murmur_hash32(5)]);
    assert_eq!(first.ptrs[1], [0, 0, ARENA_BASE as u64 + 24, 0, 0]);
    assert!(source.get_data(&mut local).unwrap().is_empty());
    let last = source.get_data(&mut local).unwrap();
    assert_eq!(last.keys, vec![6]);
    assert_eq!(last.ptrs[0], [0, 0, ARENA_BASE as u64 + 48, 0, 0]);
    assert!(source.get_data(&mut local).is_none());
    assert_eq!(source.global_state().next_rg, 4);
}

#[test]
fn checksum_sink_counts_and_sums() {
    let t = table(&[&[4, 5]]);
    let mut sink = ChecksumSinkOp::new(vec![t.clone()]);
    let mut local = ChecksumLocal::default();
    sink.sink(batch(&[(9, [0; 5]), (8, [0; 5])]), &mut local);
    sink.combine(local);
    assert_eq!(sink.finish(), (SENTINEL.wrapping_mul(10), 2));
    assert_eq!(sink.global_state().rows_sunk, 2);
}

#[test]
fn driving_without_workers_does_nothing() {
    let t = table(&[&[1, 2]]);
    let mut source = ParquetScanSource::new(t.clone(), 0);
    let mut sink = ChecksumSinkOp::new(vec![t]);
    drive_source_to_sink(&mut source, &mut sink, 0);
    assert_eq!(sink.finish(), (0, 0));
    assert_eq!(source.global.next_rg, 0);
}

#[test]
fn two_table_full_outer_join_agrees_with_the_chain() {
    for threads in [1, 3, 8] {
        let t0 = table(&[&[1, 2, 3], &[4], &[5, 6]]);
        let t1 = table(&[&[6, 7], &[8, 2], &[9]]);
        let tables = vec![t0.clone(), t1.clone()];

        let mut join = HashJoinOp::new(6, 0);
        drive_source_to_sink(&mut ParquetScanSource::new(t0.clone(), 0), &mut join, threads);
        join.finalize();
        let mut probe = ProbeOperator::new(join);
        let mut sink = ChecksumSinkOp::new(tables);
        let mut scan = ParquetScanSource::new(t1.clone(), 1);
        drive_source_op_sink(&mut scan, &mut probe, &mut sink, threads);
        let mut rest = UnmatchedSource::new(&probe.hj);
        drive_source_to_sink(&mut rest, &mut sink, threads);
        sink.finalize();

        let chain = run_row_chain(&[&t0.ht, &t1.ht]).unwrap();
        let (checksum, rows) = sink.finish();
        assert_eq!(rows, 9);
        assert_eq!(rows, chain.len());
        assert_eq!(checksum, lance_sink(&[&*t0, &*t1], &chain));
    }
}

#[test]
fn staged_pipeline_drains_both_sources() {
    let t0 = table(&[&[1]]);
    let t1 = table(&[&[2], &[3]]);
    let mut a = ParquetScanSource::new(t0.clone(), 0);
    let mut b = ParquetScanSource::new(t1.clone(), 1);
    let mut sink = HashJoinOp::new(0, 0);
    let stage = StagedPipeline { primary: &mut a, secondary: &mut b, sink: &mut sink, num_threads: 2 };
    stage.run();
    assert_eq!(sink.n_rows(), 3);
    assert_eq!(sink.global_state().n_rows, 3);
    assert!(sink.built);
    let out = sink.probe_execute(&batch(&[(3, [0; 5])]));
    assert_eq!(out.ptrs, vec![[0, ARENA_BASE as u64 + 24, 0, 0, 0]]);
}

#[test]
fn operator_chain_agrees_with_the_row_chain() {
    let tables = vec![
        table(&[&[1, 2, 3], &[4, 5]]),
        table(&[&[5, 6], &[], &[1]]),
        table(&[&[7, 2], &[6]]),
        table(&[]),
        table(&[&[9, 1, 6, 8]]),
    ];
    for k in 1..6 {
        let refs: Vec<&TableData> = tables[..k].iter().map(|t| &**t).collect();
        let hts: Vec<_> = refs.iter().map(|t| &t.ht).collect();
        let chain = run_row_chain(&hts).unwrap();
        let checksum = lance_sink(&refs, &chain);
        for threads in [1, 4] {
            assert_eq!(run_chain_operator(&tables[..k], threads), Some((checksum, chain.len())));
        }
    }
    assert_eq!(run_chain_operator(&tables, 2).unwrap().1, 9);
}

#[test]
fn operator_chain_joins_every_pair_of_equal_keys() {
    let tables = vec![table(&[&[1, 1, 2]]), table(&[&[1, 1, 3]])];
    let (_, rows) = run_chain_operator(&tables, 2).unwrap();
    assert_eq!(rows, 4 + 1 + 1);
    let more = vec![table(&[&[1, 1]]), table(&[&[1, 1]]), table(&[&[1], &[1]])];
    assert_eq!(run_chain_operator(&more, 3).unwrap().1, 8);
}
