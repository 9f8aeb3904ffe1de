use duck_hash_join::hash::murmur_hash32;
use duck_hash_join::ht::JoinHashTable;
use duck_hash_join::io::{keys_only_layout, table_of_keys};
use duck_hash_join::row::ARENA_BASE;

fn hashes_of(keys: &[i32]) -> Vec<u64> {
    keys.iter().map(|&k| murmur_hash32(k as u32)).collect()
}

fn table(keys: &[i32]) -> JoinHashTable {
    table_of_keys(keys, &hashes_of(keys))
}

#[test]
fn unmatched_probes_keep_their_order() {
    let ht = table(&[1, 2, 3]);
    let probes = vec![5, 1, 9, 3, 5, 7];
    for chunk in [1, 2, 4, 100] {
        let (keys, hashes) = ht.probe_i32_collect_unmatched(&hashes_of(&probes), &probes, chunk);
        assert_eq!(keys, vec![5, 9, 5, 7]);
        assert_eq!(hashes, hashes_of(&[5, 9, 5, 7]));
    }
}

#[test]
fn matched_probes_are_collected_once_per_match() {
    let ht = table(&[1, 2, 2]);
    let probes = vec![2, 4, 1];
    for chunk in [1, 2, 100] {
        let (keys, hashes) = ht.probe_i32_collect_matched(&hashes_of(&probes), &probes, chunk);
        assert_eq!(keys, vec![2, 2, 1]);
        assert_eq!(hashes, hashes_of(&[2, 2, 1]));
    }
}

#[test]
fn full_outer_counts_of_distinct_keys_make_the_union() {
    let build: Vec<i32> = (0..100).collect();
    let probes: Vec<i32> = (60..150).collect();
    let ht = table(&build);
    for chunk in [1, 7, 64, 1000] {
        let (m, pu, bu) = ht.probe_i32_full_outer_count(&hashes_of(&probes), &probes, chunk);
        assert_eq!((m, pu, bu), (40, 50, 60));
        assert_eq!(m + pu + bu, build.len() + probes.len() - 40);
    }
}

#[test]
fn full_outer_counts_with_duplicates() {
    let ht = table(&[1, 1, 2]);
    let probes = vec![1, 3, 1];
    let counts = ht.probe_i32_full_outer_count(&hashes_of(&probes), &probes, 2);
    assert_eq!(counts, (4, 1, 1));
}

#[test]
fn full_outer_counts_around_a_word_of_the_bitmap() {
    for n in [63i32, 64, 65, 128, 129] {
        let build: Vec<i32> = (0..n).collect();
        let ht = table(&build);
        let counts = ht.probe_i32_full_outer_count(&hashes_of(&[n - 1]), &[n - 1], 16);
        assert_eq!(counts, (1, 0, n as usize - 1));
    }
}

#[test]
fn full_outer_counts_of_an_empty_side() {
    let mut empty = JoinHashTable::new(keys_only_layout());
    empty.finalize();
    let probes = vec![4, 5];
    assert_eq!(empty.probe_i32_full_outer_count(&hashes_of(&probes), &probes, 8), (0, 2, 0));
    let ht = table(&[4, 5, 6]);
    assert_eq!(ht.probe_i32_full_outer_count(&[], &[], 8), (0, 0, 3));
}

#[test]
fn parallel_probe_counts_like_the_serial_one() {
    let build: Vec<i32> = (0..500).map(|i| i % 50).collect();
    let ht = table(&build);
    let probes: Vec<i32> = (0..100).collect();
    let hashes = hashes_of(&probes);
    let serial = ht.probe_i32_inner(&hashes, &probes).len();
    assert_eq!(serial, 500);
    for chunk in [1, 3, 16, 1000] {
        let count = ht.probe_i32_inner_parallel(
            &hashes,
            &probes,
            chunk,
            || 0usize,
            |s, _row, _idx| s + 1,
            |a, b| a + b,
        );
        assert_eq!(count, serial);
    }
}

#[test]
fn parallel_probe_keeps_the_order_of_the_matches() {
    let ht = table(&[3, 1, 3]);
    let probes = vec![3, 2, 1];
    let hashes = hashes_of(&probes);
    let pairs = ht.probe_i32_inner_parallel(
        &hashes,
        &probes,
        1,
        Vec::new,
        |mut s: Vec<(usize, usize)>, row, idx| {
            s.push((row, idx));
            s
        },
        |mut a, b| {
            a.extend(b);
            a
        },
    );
    assert_eq!(
        pairs,
        vec![(ARENA_BASE + 48, 0), (ARENA_BASE, 0), (ARENA_BASE + 24, 2)]
    );
    assert_eq!(pairs, ht.probe_i32_inner(&hashes, &probes));
}
