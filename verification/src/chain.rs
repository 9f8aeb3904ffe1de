//! Chains of joins over several tables on one key.
//!
//! A chain runs left-deep: the keys that came out of the joins so far are the
//! build side of the next join, the next table is its probe side. An inner chain
//! keeps the keys that are in every table, a full outer chain the keys that are in
//! any of them. The row chain carries, for every key, the address of its row in
//! each table, so that a sink can read the columns without another probe.

use crate::hash;
use crate::ht;
use crate::ht::JoinHashTable;
use crate::io;
use crate::io::{key_table_fits, table_of_keys};
use crate::probe;
use crate::row;
use crate::select;
use vstd::prelude::*;

verus! {

/// How many probes or rows are handed out at a time.
pub const PROBE_CHUNK: usize = 16384;

/// The keys of a table and the hashes recorded for them, in the order of the
/// rows.
pub fn extract_keys(ht: &JoinHashTable) -> (r: (Vec<i32>, Vec<u64>))
    requires
        ht.wf(),
        ht.rows() <= ht.hashes().len(),
    ensures
        r.0@ == ht.keys(),
        r.1@ == ht.hashes().take(ht.rows() as int),
{
    let n: usize = ht.n_rows();
    let recorded: &[u64] = ht.hashes_base_addr_const();
    let mut keys: Vec<i32> = Vec::with_capacity(n);
    let mut hashes: Vec<u64> = Vec::with_capacity(n);
    let mut i: usize = 0;
    while i < n
        invariant
            ht.wf(),
            n == ht.rows(),
            n <= ht.hashes().len(),
            recorded@ == ht.hashes(),
            i <= n,
            keys@ == ht.keys().take(i as int),
            hashes@ == ht.hashes().take(i as int),
        decreases n - i,
    {
        keys.push(ht.key_at(i));
        hashes.push(recorded[i]);
        assert(keys@ =~= ht.keys().take(i + 1));
        assert(hashes@ =~= ht.hashes().take(i + 1));
        i += 1;
    }
    assert(ht.keys().take(n as int) =~= ht.keys());
    (keys, hashes)
}

/// The address of the first row that a probe matches.
pub fn probe_lookup(table: &JoinHashTable, hash: u64, key: i32) -> (found: Option<usize>)
    requires
        table.wf(),
        table.is_final(),
    ensures
        match found {
            Some(a) => table.matches(hash, key).len() > 0 && a == row::row_address(
                table.matches(hash, key)[0],
                table.row_size(),
            ),
            None => table.matches(hash, key).len() == 0,
        },
{
    proof {
        ht::law_matches(*table, hash, key);
    }
    match table.first_match(hash, key) {
        Some(r) => Some(table.row_addr(r)),
        None => None,
    }
}

/// What comes out of an inner join with build side `cur` and probe side `ks`:
/// each probe key once for every time it stands in `cur`.
pub open spec fn inner_step(cur: Seq<i32>, ks: Seq<i32>) -> Seq<i32>
    decreases ks.len(),
{
    if ks.len() == 0 {
        Seq::empty()
    } else {
        inner_step(cur, ks.drop_last()) + Seq::new(
            select::places(cur, ks.last()).len(),
            |i: int| ks.last(),
        )
    }
}

/// What comes out of a full outer join: `cur`, and behind it the keys of `ks`
/// that are not in `cur`.
pub open spec fn outer_step(cur: Seq<i32>, ks: Seq<i32>) -> Seq<i32> {
    cur + probe::pick(ks, select::select(0, ks.len() as int, probe::not_in(ks, cur)))
}

/// What comes out of the chain over the first `n` tables with the given keys.
pub open spec fn chain_result(tables: Seq<Seq<i32>>, outer: bool, n: nat) -> Seq<i32>
    decreases n,
{
    if n <= 1 {
        tables[0]
    } else if outer {
        outer_step(chain_result(tables, outer, (n - 1) as nat), tables[n - 1])
    } else {
        inner_step(chain_result(tables, outer, (n - 1) as nat), tables[n - 1])
    }
}

/// The keys of some tables.
pub open spec fn keys_of_tables(tables: Seq<JoinHashTable>) -> Seq<Seq<i32>> {
    tables.map_values(|t: JoinHashTable| t.keys())
}

/// What the first `n` probes of an inner join emit.
proof fn lemma_inner_emitted(build: JoinHashTable, hs: Seq<u64>, ks: Seq<i32>, n: int)
    requires
        build.wf(),
        build.is_final(),
        build.hashed_by_key(),
        probe::probes_hashed(hs, ks),
        0 <= n <= ks.len(),
    ensures
        probe::probed(ks, build.emitted(hs, ks, 0, n)) == inner_step(build.keys(), ks.take(n)),
    decreases n,
{
    let out = probe::probed(ks, build.emitted(hs, ks, 0, n));
    if n > 0 {
        lemma_inner_emitted(build, hs, ks, n - 1);
        let k = ks[n - 1];
        ht::law_lookup(build, k);
        assert(hs[n - 1] == hash::key_hash(k));
        assert(ks.take(n).drop_last() =~= ks.take(n - 1));
        let here = select::places(build.keys(), k);
        assert(out =~= inner_step(build.keys(), ks.take(n - 1)) + Seq::new(here.len(), |i: int| k));
    } else {
        assert(out =~= inner_step(build.keys(), ks.take(0)));
    }
}

/// The hashes that go with the emitted keys.
proof fn lemma_probed_hashes(hs: Seq<u64>, ks: Seq<i32>, pairs: Seq<(int, int)>)
    requires
        probe::probes_hashed(hs, ks),
        forall|e: int| 0 <= e < pairs.len() ==> 0 <= (#[trigger] pairs[e]).1 < ks.len(),
    ensures
        probe::probed(hs, pairs) == io::key_hashes(probe::probed(ks, pairs)),
{
    assert(probe::probed(hs, pairs) =~= io::key_hashes(probe::probed(ks, pairs)));
}

/// One join of a chain: `build` holds the keys so far, `ks` and `hs` are the keys
/// and hashes of the next table.
fn join_step(build: &JoinHashTable, hs: &[u64], ks: &[i32], outer: bool) -> (out: (
    Vec<i32>,
    Vec<u64>,
))
    requires
        build.wf(),
        build.is_final(),
        build.hashed_by_key(),
        build.cached(),
        probe::probes_hashed(hs@, ks@),
    ensures
        out.0@ == (if outer {
            outer_step(build.keys(), ks@)
        } else {
            inner_step(build.keys(), ks@)
        }),
        out.1@ == io::key_hashes(out.0@),
{
    let ghost n = ks@.len() as int;
    if outer {
        let (un_keys, un_hashes): (Vec<i32>, Vec<u64>) = build.probe_i32_collect_unmatched(
            hs,
            ks,
            PROBE_CHUNK,
        );
        let (mut keys, mut hashes): (Vec<i32>, Vec<u64>) = extract_keys(build);
        proof {
            probe::law_outer_sides(*build, hs@, ks@);
            let at = build.missed(hs@, ks@, 0, n);
            select::lemma_select(0, n, build.misses(hs@, ks@));
            assert(build.hashes().take(build.rows() as int) =~= io::key_hashes(build.keys()));
            assert(probe::pick(hs@, at) =~= io::key_hashes(probe::pick(ks@, at)));
            assert(io::key_hashes(build.keys()) + io::key_hashes(probe::pick(ks@, at))
                =~= io::key_hashes(build.keys() + probe::pick(ks@, at)));
        }
        keys.extend_from_slice(un_keys.as_slice());
        hashes.extend_from_slice(un_hashes.as_slice());
        proof {
            assert(keys@ =~= outer_step(build.keys(), ks@));
            assert(hashes@ =~= io::key_hashes(keys@));
        }
        (keys, hashes)
    } else {
        let out: (Vec<i32>, Vec<u64>) = build.probe_i32_collect_matched(hs, ks, PROBE_CHUNK);
        proof {
            lemma_inner_emitted(*build, hs@, ks@, n);
            assert(ks@.take(n) =~= ks@);
            probe::lemma_emitted(*build, hs@, ks@, 0, n);
            lemma_probed_hashes(hs@, ks@, build.emitted(hs@, ks@, 0, n));
        }
        out
    }
}

/// Whether the result of every step but the last can be built into a table.
pub open spec fn chain_fits(tables: Seq<Seq<i32>>, outer: bool, k: nat) -> bool {
    forall|n: nat|
        2 <= n < k ==> io::keys_fit((#[trigger] chain_result(tables, outer, n)).len() as int)
}

/// Runs the chain over all tables, of which the first is filed under its recorded
/// hashes: the keys that come out, and their hashes; or `None` if the result of a
/// step is too large to be built into a table.
pub fn run_key_chain(tables: &[JoinHashTable], outer: bool) -> (out: Option<(Vec<i32>, Vec<u64>)>)
    requires
        tables@.len() >= 2,
        forall|t: int|
            0 <= t < tables@.len() ==> (#[trigger] tables@[t]).wf() && tables@[t].cached(),
        tables@[0].is_final(),
        tables@[0].dir().filed() == tables@[0].hashes(),
    ensures
        out is Some <==> chain_fits(keys_of_tables(tables@), outer, tables@.len()),
        out matches Some(o) ==> {
            &&& o.0@ == chain_result(keys_of_tables(tables@), outer, tables@.len())
            &&& o.1@ == io::key_hashes(o.0@)
        },
{
    let ghost all = keys_of_tables(tables@);
    proof {
        assert(tables@[0].wf() && tables@[0].cached());
        assert(all[0] == tables@[0].keys());
    }
    let k: usize = tables.len();
    let (mut keys, mut hashes): (Vec<i32>, Vec<u64>) = {
        let (ks, hs): (Vec<i32>, Vec<u64>) = extract_keys(&tables[1]);
        proof {
            assert(tables@[1].wf() && tables@[1].cached());
            assert(tables@[1].hashes().take(tables@[1].rows() as int) =~= tables@[1].hashes());
            assert(all[1] == ks@);
        }
        join_step(&tables[0], hs.as_slice(), ks.as_slice(), outer)
    };
    let mut i: usize = 2;
    assert(chain_result(all, outer, 1) == all[0]);
    while i < k
        invariant
            2 <= i <= k,
            k == tables@.len(),
            all == keys_of_tables(tables@),
            forall|t: int|
                0 <= t < tables@.len() ==> (#[trigger] tables@[t]).wf() && tables@[t].cached(),
            chain_fits(all, outer, i as nat),
            keys@ == chain_result(all, outer, i as nat),
            hashes@ == io::key_hashes(keys@),
        decreases k - i,
    {
        if !key_table_fits(keys.len()) {
            assert(!chain_fits(all, outer, k as nat)) by {
                assert(!io::keys_fit(chain_result(all, outer, i as nat).len() as int));
            }
            return None;
        }
        let build: JoinHashTable = table_of_keys(keys.as_slice(), hashes.as_slice());
        let (ks, hs): (Vec<i32>, Vec<u64>) = extract_keys(&tables[i]);
        proof {
            let t = tables@[i as int];
            assert(t.wf() && t.cached());
            assert(t.hashes().take(t.rows() as int) =~= t.hashes());
            assert(all[i as int] == ks@);
            assert forall|r: int| 0 <= r < build.rows() implies #[trigger] build.dir().filed()[r]
                == hash::key_hash(build.keys()[r]) by {}
        }
        let (next_keys, next_hashes): (Vec<i32>, Vec<u64>) = join_step(
            &build,
            hs.as_slice(),
            ks.as_slice(),
            outer,
        );
        keys = next_keys;
        hashes = next_hashes;
        i += 1;
    }
    Some((keys, hashes))
}

/// A key stands somewhere if and only if it is among the keys, and at most once if
/// the keys are distinct.
pub proof fn lemma_places(keys: Seq<i32>, key: i32)
    ensures
        select::places(keys, key).len() > 0 <==> keys.contains(key),
        keys.no_duplicates() ==> select::places(keys, key).len() <= 1,
{
    let at = select::places(keys, key);
    select::lemma_select(0, keys.len() as int, select::holds(keys, key));
    if at.len() > 0 {
        assert(select::holds(keys, key)(at[0]));
    }
    if keys.contains(key) {
        let r = choose|r: int| 0 <= r < keys.len() && keys[r] == key;
        assert(select::holds(keys, key)(r));
        assert(at.contains(r));
    }
    if keys.no_duplicates() && at.len() > 1 {
        assert(select::holds(keys, key)(at[0]) && select::holds(keys, key)(at[1]));
        assert(at[0] < at[1]);
    }
}

/// An inner join gives the keys that are on both sides; distinct keys give
/// distinct keys.
pub proof fn law_inner_step(cur: Seq<i32>, ks: Seq<i32>)
    ensures
        forall|k: i32| #[trigger]
            inner_step(cur, ks).contains(k) <==> cur.contains(k) && ks.contains(k),
        cur.no_duplicates() && ks.no_duplicates() ==> inner_step(cur, ks).no_duplicates(),
    decreases ks.len(),
{
    let out = inner_step(cur, ks);
    if ks.len() > 0 {
        let prev = ks.drop_last();
        let x = ks.last();
        law_inner_step(cur, prev);
        lemma_places(cur, x);
        let before = inner_step(cur, prev);
        let copies = Seq::new(select::places(cur, x).len(), |i: int| x);
        assert(out == before + copies);
        assert forall|k: i32| #[trigger] out.contains(k) <==> cur.contains(k) && ks.contains(k) by {
            if out.contains(k) {
                let e = choose|e: int| 0 <= e < out.len() && out[e] == k;
                if e < before.len() {
                    assert(before[e] == k);
                    assert(before.contains(k));
                    let j = choose|j: int| 0 <= j < prev.len() && prev[j] == k;
                    assert(ks[j] == k);
                } else {
                    assert(copies[e - before.len()] == k);
                    assert(ks[ks.len() - 1] == k);
                }
            }
            if cur.contains(k) && ks.contains(k) {
                let j = choose|j: int| 0 <= j < ks.len() && ks[j] == k;
                if j < prev.len() {
                    assert(prev[j] == k);
                    assert(before.contains(k));
                    let e = choose|e: int| 0 <= e < before.len() && before[e] == k;
                    assert(out[e] == k);
                } else {
                    assert(copies[0] == k);
                    assert(out[before.len() as int] == k);
                }
            }
        }
        if cur.no_duplicates() && ks.no_duplicates() {
            assert(prev.no_duplicates());
            assert forall|i: int, j: int|
                0 <= i < out.len() && 0 <= j < out.len() && i != j implies out[i] != out[j] by {
                if i < before.len() && j >= before.len() {
                    assert(before.contains(before[i]));
                    let m = choose|m: int| 0 <= m < prev.len() && prev[m] == before[i];
                    assert(ks[m] != ks[ks.len() - 1]);
                } else if j < before.len() && i >= before.len() {
                    assert(before.contains(before[j]));
                    let m = choose|m: int| 0 <= m < prev.len() && prev[m] == before[j];
                    assert(ks[m] != ks[ks.len() - 1]);
                }
            }
        }
    }
}

/// A full outer join gives the keys that are on either side; distinct keys give
/// distinct keys.
pub proof fn law_outer_step(cur: Seq<i32>, ks: Seq<i32>)
    ensures
        forall|k: i32| #[trigger]
            outer_step(cur, ks).contains(k) <==> cur.contains(k) || ks.contains(k),
        cur.no_duplicates() && ks.no_duplicates() ==> outer_step(cur, ks).no_duplicates(),
{
    let out = outer_step(cur, ks);
    let at = select::select(0, ks.len() as int, probe::not_in(ks, cur));
    let more = probe::pick(ks, at);
    select::lemma_select(0, ks.len() as int, probe::not_in(ks, cur));
    assert forall|k: i32| #[trigger] out.contains(k) <==> cur.contains(k) || ks.contains(k) by {
        if out.contains(k) {
            let e = choose|e: int| 0 <= e < out.len() && out[e] == k;
            if e < cur.len() {
                assert(cur[e] == k);
            } else {
                assert(more[e - cur.len()] == k);
                assert(ks[at[e - cur.len()]] == k);
            }
        }
        if cur.contains(k) {
            let e = choose|e: int| 0 <= e < cur.len() && cur[e] == k;
            assert(out[e] == k);
        } else if ks.contains(k) {
            let j = choose|j: int| 0 <= j < ks.len() && ks[j] == k;
            assert(probe::not_in(ks, cur)(j));
            assert(at.contains(j));
            let e = choose|e: int| 0 <= e < at.len() && at[e] == j;
            assert(more[e] == k);
            assert(out[cur.len() + e] == k);
        }
    }
    if cur.no_duplicates() && ks.no_duplicates() {
        assert forall|i: int, j: int|
            0 <= i < out.len() && 0 <= j < out.len() && i != j implies out[i] != out[j] by {
            if i >= cur.len() {
                assert(probe::not_in(ks, cur)(at[i - cur.len()]));
            }
            if j >= cur.len() {
                assert(probe::not_in(ks, cur)(at[j - cur.len()]));
            }
            if i >= cur.len() && j >= cur.len() {
                assert(at[i - cur.len()] != at[j - cur.len()]);
            }
        }
    }
}

/// An inner chain gives the keys that are in every one of its tables; a full
/// outer chain gives the keys that are in any of them. When the keys of each table
/// are distinct, so are those that come out.
pub proof fn law_chain_result(tables: Seq<Seq<i32>>, outer: bool, n: nat)
    requires
        1 <= n <= tables.len(),
    ensures
        forall|k: i32| #[trigger]
            chain_result(tables, outer, n).contains(k) <==> if outer {
                exists|t: int| 0 <= t < n && #[trigger] tables[t].contains(k)
            } else {
                forall|t: int| 0 <= t < n ==> #[trigger] tables[t].contains(k)
            },
        (forall|t: int| 0 <= t < n ==> (#[trigger] tables[t]).no_duplicates()) ==> chain_result(
            tables,
            outer,
            n,
        ).no_duplicates(),
    decreases n,
{
    let out = chain_result(tables, outer, n);
    if n > 1 {
        let n1 = (n - 1) as nat;
        law_chain_result(tables, outer, n1);
        let cur = chain_result(tables, outer, n1);
        let ks = tables[n - 1];
        law_inner_step(cur, ks);
        law_outer_step(cur, ks);
        assert forall|k: i32| #[trigger] out.contains(k) <==> if outer {
            exists|t: int| 0 <= t < n && #[trigger] tables[t].contains(k)
        } else {
            forall|t: int| 0 <= t < n ==> #[trigger] tables[t].contains(k)
        } by {
            if outer {
                if cur.contains(k) {
                    let t = choose|t: int| 0 <= t < n1 && #[trigger] tables[t].contains(k);
                    assert(tables[t].contains(k));
                }
                if exists|t: int| 0 <= t < n && #[trigger] tables[t].contains(k) {
                    let t = choose|t: int| 0 <= t < n && #[trigger] tables[t].contains(k);
                    if t < n1 {
                        assert(cur.contains(k));
                    }
                    assert(outer_step(cur, ks).contains(k));
                }
            } else {
                assert(inner_step(cur, ks).contains(k) <==> cur.contains(k) && ks.contains(k));
                assert(cur.contains(k) <==> forall|t: int|
                    0 <= t < n1 ==> #[trigger] tables[t].contains(k));
            }
        }
        if forall|t: int| 0 <= t < n ==> (#[trigger] tables[t]).no_duplicates() {
            assert(tables[n - 1].no_duplicates());
        }
    } else {
        assert(out == tables[0]);
        assert forall|k: i32| #[trigger] out.contains(k) <==> if outer {
            exists|t: int| 0 <= t < n && #[trigger] tables[t].contains(k)
        } else {
            forall|t: int| 0 <= t < n ==> #[trigger] tables[t].contains(k)
        } by {
            assert(tables[0].contains(k) == out.contains(k));
        }
    }
}

/// A key has as many places as it stands in the keys.
pub proof fn lemma_places_count(keys: Seq<i32>, key: i32)
    ensures
        select::places(keys, key).len() == keys.to_multiset().count(key),
    decreases keys.len(),
{
    broadcast use vstd::seq_lib::group_to_multiset_ensures;

    let n = keys.len() as int;
    if n > 0 {
        let prev = keys.drop_last();
        lemma_places_count(prev, key);
        select::lemma_select_same(0, n - 1, select::holds(keys, key), select::holds(prev, key));
        assert(prev.push(keys.last()) =~= keys);
        assert(keys.to_multiset() =~= prev.to_multiset().insert(keys.last()));
    } else {
        assert(keys =~= Seq::empty());
    }
}

/// An inner join takes the probe keys one after the other: what comes out for two
/// stretches of them is what comes out for the first and then for the second; and for
/// one key, that key as often as it stands in the build side.
pub proof fn law_inner_step_by_key(cur: Seq<i32>, a: Seq<i32>, b: Seq<i32>, k: i32)
    ensures
        inner_step(cur, Seq::<i32>::empty()) == Seq::<i32>::empty(),
        inner_step(cur, a + b) == inner_step(cur, a) + inner_step(cur, b),
        inner_step(cur, seq![k]).len() == cur.to_multiset().count(k),
        forall|i: int|
            0 <= i < inner_step(cur, seq![k]).len() ==> #[trigger] inner_step(cur, seq![k])[i] == k,
    decreases b.len(),
{
    lemma_places_count(cur, k);
    assert(seq![k].drop_last() =~= Seq::empty());
    assert(inner_step(cur, seq![k].drop_last()) =~= Seq::empty());
    if b.len() == 0 {
        assert(a + b =~= a);
        assert(inner_step(cur, a) + inner_step(cur, b) =~= inner_step(cur, a));
    } else {
        law_inner_step_by_key(cur, a, b.drop_last(), k);
        assert((a + b).drop_last() =~= a + b.drop_last());
        assert(inner_step(cur, a + b) =~= inner_step(cur, a) + inner_step(cur, b));
    }
}

/// How often a key comes out of an inner join: as often as it stands on one side times
/// as often as it stands on the other.
pub proof fn law_inner_step_count(cur: Seq<i32>, ks: Seq<i32>, k: i32)
    ensures
        inner_step(cur, ks).to_multiset().count(k) == cur.to_multiset().count(k)
            * ks.to_multiset().count(k),
    decreases ks.len(),
{
    broadcast use vstd::seq_lib::group_to_multiset_ensures;

    if ks.len() > 0 {
        let prev = ks.drop_last();
        let x = ks.last();
        let before = inner_step(cur, prev);
        let copies = Seq::new(select::places(cur, x).len(), |i: int| x);
        law_inner_step_count(cur, prev, k);
        lemma_places_count(cur, x);
        lemma_copies(x, copies.len(), k);
        vstd::seq_lib::lemma_multiset_commutative(before, copies);
        assert(prev.push(x) =~= ks);
        let c = cur.to_multiset().count(k);
        let p = prev.to_multiset().count(k);
        assert(ks.to_multiset() =~= prev.to_multiset().insert(x));
        assert(c * (p + 1) == c * p + c) by (nonlinear_arith);
    } else {
        assert(ks =~= Seq::empty());
        assert(inner_step(cur, ks) =~= Seq::empty());
        let c = cur.to_multiset().count(k);
        assert(c * 0 == 0);
        assert(Seq::<i32>::empty().to_multiset().count(k) == 0);
    }
}

proof fn lemma_copies(x: i32, n: nat, k: i32)
    ensures
        Seq::new(n, |i: int| x).to_multiset().count(k) == (if k == x {
            n
        } else {
            0
        }),
    decreases n,
{
    broadcast use vstd::seq_lib::group_to_multiset_ensures;

    let all = Seq::new(n, |i: int| x);
    if n > 0 {
        let prev = Seq::new((n - 1) as nat, |i: int| x);
        lemma_copies(x, (n - 1) as nat, k);
        assert(prev.push(x) =~= all);
        assert(all.to_multiset() =~= prev.to_multiset().insert(x));
    } else {
        assert(all =~= Seq::empty());
    }
}

/// A full outer join keeps the build side as it is and takes the probe keys one after
/// the other: each is added at the end if the build side does not hold it.
pub proof fn law_outer_step_by_key(cur: Seq<i32>, ks: Seq<i32>, k: i32)
    ensures
        outer_step(cur, Seq::<i32>::empty()) == cur,
        outer_step(cur, ks.push(k)) == (if cur.contains(k) {
            outer_step(cur, ks)
        } else {
            outer_step(cur, ks).push(k)
        }),
{
    let none = Seq::<i32>::empty();
    assert(outer_step(cur, none) =~= cur);
    let all = ks.push(k);
    let n = ks.len() as int;
    select::lemma_select_same(0, n, probe::not_in(all, cur), probe::not_in(ks, cur));
    select::lemma_select(0, n, probe::not_in(ks, cur));
    assert(outer_step(cur, all) =~= (if cur.contains(k) {
        outer_step(cur, ks)
    } else {
        outer_step(cur, ks).push(k)
    }));
}

/// A chain over one table gives its keys. One more table is joined to what came out so
/// far: in an inner chain a key then comes out as often as before times as often as the
/// table holds it; in a full outer chain what came out stays in front.
pub proof fn law_chain_step(tables: Seq<Seq<i32>>, n: nat, k: i32)
    requires
        1 <= n < tables.len(),
    ensures
        chain_result(tables, false, 1) == tables[0],
        chain_result(tables, true, 1) == tables[0],
        chain_result(tables, false, n + 1).to_multiset().count(k) == chain_result(
            tables,
            false,
            n,
        ).to_multiset().count(k) * tables[n as int].to_multiset().count(k),
        chain_result(tables, true, n + 1).len() >= chain_result(tables, true, n).len(),
        chain_result(tables, true, n + 1).take(chain_result(tables, true, n).len() as int)
            == chain_result(tables, true, n),
        chain_result(tables, true, n + 1).skip(
            chain_result(tables, true, n).len() as int,
        ).to_multiset().count(k) == (if chain_result(tables, true, n).contains(k) {
            0
        } else {
            tables[n as int].to_multiset().count(k)
        }),
{
    let cur = chain_result(tables, true, n);
    let ks = tables[n as int];
    let out = chain_result(tables, true, n + 1);
    law_inner_step_count(chain_result(tables, false, n), ks, k);
    assert(out == outer_step(cur, ks));
    assert(out.take(cur.len() as int) =~= cur);
    lemma_outer_tail(cur, ks, k);
}

proof fn lemma_outer_tail(cur: Seq<i32>, ks: Seq<i32>, k: i32)
    ensures
        outer_step(cur, ks).skip(cur.len() as int).to_multiset().count(k) == (if cur.contains(k) {
            0
        } else {
            ks.to_multiset().count(k)
        }),
    decreases ks.len(),
{
    broadcast use vstd::seq_lib::group_to_multiset_ensures;

    let out = outer_step(cur, ks);
    if ks.len() > 0 {
        let prev = ks.drop_last();
        let x = ks.last();
        lemma_outer_tail(cur, prev, k);
        law_outer_step_by_key(cur, prev, x);
        assert(prev.push(x) =~= ks);
        let before = outer_step(cur, prev).skip(cur.len() as int);
        if cur.contains(x) {
            assert(out.skip(cur.len() as int) =~= before);
        } else {
            assert(out.skip(cur.len() as int) =~= before.push(x));
        }
        assert(ks.to_multiset() =~= prev.to_multiset().insert(x));
    } else {
        assert(ks =~= Seq::empty());
        assert(out.skip(cur.len() as int) =~= Seq::empty());
    }
}

/// The keys of several tables are those of each, in the order of the tables.
pub proof fn law_keys_of_tables(tables: Seq<JoinHashTable>, t: int)
    requires
        0 <= t < tables.len(),
    ensures
        keys_of_tables(tables).len() == tables.len(),
        keys_of_tables(tables)[t] == tables[t].keys(),
{
}

/// A chain fits if what comes out of its joins but the last fits a table of bare keys.
pub proof fn law_chain_fits(tables: Seq<Seq<i32>>, outer: bool, k: nat)
    ensures
        chain_fits(tables, outer, k) <==> forall|n: nat|
            2 <= n < k ==> 24 * (#[trigger] chain_result(tables, outer, n)).len() <= isize::MAX && 64
                + 24 * chain_result(tables, outer, n).len() <= 0x1_0000_0000_0000 && 64 + 24
                * chain_result(tables, outer, n).len() <= usize::MAX,
{
    if chain_fits(tables, outer, k) {
        assert forall|n: nat| 2 <= n < k implies 24 * (#[trigger] chain_result(
            tables,
            outer,
            n,
        )).len() <= isize::MAX && 64 + 24 * chain_result(tables, outer, n).len()
            <= 0x1_0000_0000_0000 && 64 + 24 * chain_result(tables, outer, n).len()
            <= usize::MAX by {
            assert(io::keys_fit(chain_result(tables, outer, n).len() as int));
        }
    }
}

} // verus!
