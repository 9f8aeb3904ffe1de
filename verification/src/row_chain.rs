//! A full outer chain that carries row addresses.
//!
//! Every row of the chain stands for one key and holds, for each table, the
//! address of the row with that key, or 0. A step probes the rows of the next table
//! against the chain: a key that is in the chain gets its slot filled, a key that is
//! not becomes a new row of the chain.

use crate::chain;
use crate::hash;
use crate::ht;
use crate::ht::JoinHashTable;
use crate::io;
use crate::io::{key_table_fits, table_of_keys};
use crate::par::par_map;
use crate::partition;
use crate::probe;
use crate::row;
use crate::select;
use crate::select::chunk_bounds;
use vstd::prelude::*;

verus! {

/// Most tables that a chain can run over.
pub const SLOTS: usize = 5;

/// How many probes are handed out at a time.
pub const STEP_CHUNK: usize = 16384;

/// A row of a chain: the key, its hash, and for each table the address of the row
/// with that key, or 0.
#[derive(Copy, Clone)]
pub struct ChainRow {
    pub key: i32,
    pub hash: u64,
    pub ptrs: [u64; 5],
}

impl View for ChainRow {
    type V = (i32, u64, Seq<u64>);

    open spec fn view(&self) -> (i32, u64, Seq<u64>) {
        (self.key, self.hash, self.ptrs@)
    }
}

/// The rows of a chain as key, hash and slots.
pub open spec fn rows_of(chain: Seq<ChainRow>) -> Seq<(i32, u64, Seq<u64>)> {
    chain.map_values(|c: ChainRow| c@)
}

/// The keys of the rows of a chain.
pub open spec fn chain_keys(rows: Seq<(i32, u64, Seq<u64>)>) -> Seq<i32> {
    rows.map_values(|c: (i32, u64, Seq<u64>)| c.0)
}

/// Whether every row of a chain holds the hash of its key.
pub open spec fn rows_hashed(rows: Seq<(i32, u64, Seq<u64>)>) -> bool {
    forall|i: int| 0 <= i < rows.len() ==> (#[trigger] rows[i]).1 == hash::key_hash(rows[i].0)
}

/// The slots of a key that one table holds.
pub open spec fn one_slot(slot: int, p: u64) -> Seq<u64> {
    Seq::new(
        SLOTS as nat,
        |s: int|
            if s == slot {
                p
            } else {
                0u64
            },
    )
}

/// Address of row `r` of a table, as a slot holds it.
pub open spec fn slot_addr(t: JoinHashTable, r: int) -> u64 {
    row::row_address(r, t.row_size()) as u64
}

/// The chain over one table: one row for each of its rows.
pub open spec fn first_rows(t: JoinHashTable) -> Seq<(i32, u64, Seq<u64>)> {
    Seq::new(t.rows(), |r: int| (t.keys()[r], t.hashes()[r], one_slot(0, slot_addr(t, r))))
}

/// Which row of the chain each of the probes `lo..hi` hits, as pairs of a row of
/// the chain and the number of the probe. Of several rows with the key it is the
/// last.
pub open spec fn hits(cur: Seq<i32>, ks: Seq<i32>, lo: int, hi: int) -> Seq<(int, int)>
    decreases hi - lo,
{
    if hi <= lo {
        Seq::empty()
    } else {
        let at = select::places(cur, ks[hi - 1]);
        if at.len() > 0 {
            hits(cur, ks, lo, hi - 1).push((at.last(), hi - 1))
        } else {
            hits(cur, ks, lo, hi - 1)
        }
    }
}

/// A chain after the slots of the rows that were hit were filled.
pub open spec fn filled(
    rows: Seq<(i32, u64, Seq<u64>)>,
    pairs: Seq<(int, int)>,
    t: JoinHashTable,
    slot: int,
) -> Seq<(i32, u64, Seq<u64>)>
    decreases pairs.len(),
{
    if pairs.len() == 0 {
        rows
    } else {
        let prev = filled(rows, pairs.drop_last(), t, slot);
        let (c, j) = pairs.last();
        prev.update(c, (prev[c].0, prev[c].1, prev[c].2.update(slot, slot_addr(t, j))))
    }
}

/// The new rows of a chain, for the rows of the table at `at`.
pub open spec fn new_rows(t: JoinHashTable, slot: int, at: Seq<int>) -> Seq<
    (i32, u64, Seq<u64>),
> {
    at.map_values(|j: int| (t.keys()[j], t.hashes()[j], one_slot(slot, slot_addr(t, j))))
}

/// The rows of a table whose key is not in the chain.
pub open spec fn strangers(rows: Seq<(i32, u64, Seq<u64>)>, t: JoinHashTable) -> Seq<int> {
    select::select(0, t.rows() as int, probe::not_in(t.keys(), chain_keys(rows)))
}

/// A chain after a step over table `t`, which takes the given slot.
pub open spec fn stepped(rows: Seq<(i32, u64, Seq<u64>)>, t: JoinHashTable, slot: int) -> Seq<
    (i32, u64, Seq<u64>),
> {
    filled(rows, hits(chain_keys(rows), t.keys(), 0, t.rows() as int), t, slot) + new_rows(
        t,
        slot,
        strangers(rows, t),
    )
}

/// The chain over the first `n` tables.
pub open spec fn chained(tables: Seq<JoinHashTable>, n: nat) -> Seq<(i32, u64, Seq<u64>)>
    decreases n,
{
    if n <= 1 {
        first_rows(tables[0])
    } else {
        stepped(chained(tables, (n - 1) as nat), tables[n - 1], n - 1)
    }
}

/// The chain over one table.
pub fn initial_chain(t: &JoinHashTable) -> (chain: Vec<ChainRow>)
    requires
        t.wf(),
        t.rows() <= t.hashes().len(),
    ensures
        rows_of(chain@) == first_rows(*t),
{
    let n: usize = t.n_rows();
    let hashes: &[u64] = t.hashes_base_addr_const();
    let mut chain: Vec<ChainRow> = Vec::with_capacity(n);
    let mut r: usize = 0;
    while r < n
        invariant
            t.wf(),
            n == t.rows(),
            n <= t.hashes().len(),
            hashes@ == t.hashes(),
            r <= n,
            rows_of(chain@) == first_rows(*t).take(r as int),
        decreases n - r,
    {
        let p: u64 = t.row_addr(r) as u64;
        let row: ChainRow = ChainRow {
            key: t.key_at(r),
            hash: hashes[r],
            ptrs: [p, 0, 0, 0, 0],
        };
        proof {
            assert(row.ptrs@ =~= one_slot(0, p));
        }
        let ghost before = chain@;
        chain.push(row);
        proof {
            assert(rows_of(chain@) =~= rows_of(before).push(row@));
            assert(first_rows(*t).take(r + 1) =~= first_rows(*t).take(r as int).push(
                first_rows(*t)[r as int],
            ));
        }
        r += 1;
    }
    assert(first_rows(*t).take(n as int) =~= first_rows(*t));
    chain
}

/// Whether the rows of a chain and those of a table that have equal keys have equal
/// hashes.
pub open spec fn hashes_agree(rows: Seq<(i32, u64, Seq<u64>)>, t: JoinHashTable) -> bool {
    forall|i: int, j: int|
        0 <= i < rows.len() && 0 <= j < t.rows() && (#[trigger] rows[i]).0 == #[trigger] t.keys()[j]
            ==> rows[i].1 == t.hashes()[j]
}

/// Whether the rows of `index` are filed under the hashes that the rows of `t` with
/// equal keys have.
spec fn filed_alike(index: JoinHashTable, t: JoinHashTable) -> bool {
    forall|i: int, j: int|
        0 <= i < index.rows() && 0 <= j < t.rows() && #[trigger] index.keys()[i]
            == #[trigger] t.keys()[j] ==> index.dir().filed()[i] == t.hashes()[j]
}

/// What the rows `lo..hi` of a table do to a chain: the rows of the chain that
/// they hit, and those that are not in the chain. `index` is a table over the keys
/// of the chain.
fn step_range(index: &JoinHashTable, t: &JoinHashTable, lo: usize, hi: usize) -> (r: (
    Vec<(usize, usize)>,
    Vec<usize>,
))
    requires
        index.wf(),
        index.is_final(),
        t.wf(),
        t.rows() <= t.hashes().len(),
        filed_alike(*index, *t),
        lo <= hi <= t.rows(),
    ensures
        probe::int_pairs(r.0@) == hits(index.keys(), t.keys(), lo as int, hi as int),
        partition::ints(r.1@) == select::select(
            lo as int,
            hi as int,
            probe::not_in(t.keys(), index.keys()),
        ),
{
    let ghost cur = index.keys();
    let ghost ks = t.keys();
    let ghost absent = probe::not_in(ks, cur);
    let hashes: &[u64] = t.hashes_base_addr_const();
    let mut found: Vec<(usize, usize)> = Vec::new();
    let mut missed: Vec<usize> = Vec::new();
    let mut j: usize = lo;
    assert(probe::int_pairs(found@) =~= hits(cur, ks, lo as int, lo as int));
    assert(partition::ints(missed@) =~= select::select(lo as int, lo as int, absent));
    while j < hi
        invariant
            index.wf(),
            index.is_final(),
            t.wf(),
            t.rows() <= t.hashes().len(),
            filed_alike(*index, *t),
            lo <= j <= hi <= t.rows(),
            hashes@ == t.hashes(),
            cur == index.keys(),
            ks == t.keys(),
            absent == probe::not_in(ks, cur),
            probe::int_pairs(found@) == hits(cur, ks, lo as int, j as int),
            partition::ints(missed@) == select::select(lo as int, j as int, absent),
        decreases hi - j,
    {
        let k: i32 = t.key_at(j);
        let h: u64 = hashes[j];
        proof {
            assert(ks[j as int] == k);
            ht::law_lookup_under(*index, h, k);
            chain::lemma_places(cur, k);
            let at = select::places(cur, k);
            assert(index.matches(h, k).len() == at.len());
            if at.len() > 0 {
                assert(index.matches(h, k)[0] == at.last());
            }
        }
        let ghost found0 = found@;
        let ghost missed0 = missed@;
        match index.first_match(h, k) {
            Some(c) => {
                found.push((c, j));
                assert(probe::int_pairs(found@) =~= probe::int_pairs(found0).push(
                    (c as int, j as int),
                ));
            },
            None => {
                missed.push(j);
                assert(partition::ints(missed@) =~= partition::ints(missed0).push(j as int));
            },
        }
        j += 1;
    }
    (found, missed)
}

proof fn lemma_hits_concat(cur: Seq<i32>, ks: Seq<i32>, lo: int, mid: int, hi: int)
    requires
        lo <= mid <= hi,
    ensures
        hits(cur, ks, lo, mid) + hits(cur, ks, mid, hi) == hits(cur, ks, lo, hi),
    decreases hi - mid,
{
    if mid < hi {
        lemma_hits_concat(cur, ks, lo, mid, hi - 1);
    }
    assert(hits(cur, ks, lo, mid) + hits(cur, ks, mid, hi) =~= hits(cur, ks, lo, hi));
}

/// Hits name rows of the chain that hold the key of the probe.
proof fn lemma_hits(cur: Seq<i32>, ks: Seq<i32>, lo: int, hi: int)
    ensures
        forall|e: int|
            0 <= e < hits(cur, ks, lo, hi).len() ==> {
                let (c, j) = #[trigger] hits(cur, ks, lo, hi)[e];
                &&& lo <= j < hi
                &&& 0 <= c < cur.len()
                &&& cur[c] == ks[j]
            },
        forall|j: int|
            lo <= j < hi && #[trigger] cur.contains(ks[j]) ==> exists|e: int|
                0 <= e < hits(cur, ks, lo, hi).len() && (#[trigger] hits(cur, ks, lo, hi)[e]).1
                    == j,
    decreases hi - lo,
{
    if lo < hi {
        lemma_hits(cur, ks, lo, hi - 1);
        let before = hits(cur, ks, lo, hi - 1);
        let all = hits(cur, ks, lo, hi);
        let k = ks[hi - 1];
        let at = select::places(cur, k);
        select::lemma_select(0, cur.len() as int, select::holds(cur, k));
        chain::lemma_places(cur, k);
        if at.len() > 0 {
            assert(select::holds(cur, k)(at[at.len() - 1]));
            assert(all[all.len() - 1] == (at.last(), hi - 1));
        }
        assert forall|e: int| 0 <= e < all.len() implies {
            let (c, j) = #[trigger] all[e];
            &&& lo <= j < hi
            &&& 0 <= c < cur.len()
            &&& cur[c] == ks[j]
        } by {
            if e < before.len() {
                assert(all[e] == before[e]);
            }
        }
        assert forall|j: int| lo <= j < hi && #[trigger] cur.contains(ks[j]) implies exists|e: int|
            0 <= e < all.len() && (#[trigger] all[e]).1 == j by {
            if j < hi - 1 {
                let e = choose|e: int| 0 <= e < before.len() && (#[trigger] before[e]).1 == j;
                assert(all[e].1 == j);
            } else {
                assert(all[all.len() - 1].1 == j);
            }
        }
    }
}

/// Filling slots keeps the number of rows, their keys and their hashes.
proof fn lemma_filled_shape(
    rows: Seq<(i32, u64, Seq<u64>)>,
    pairs: Seq<(int, int)>,
    t: JoinHashTable,
    slot: int,
)
    requires
        forall|e: int| 0 <= e < pairs.len() ==> 0 <= (#[trigger] pairs[e]).0 < rows.len(),
        0 <= slot,
        forall|i: int| 0 <= i < rows.len() ==> slot < (#[trigger] rows[i]).2.len(),
    ensures
        filled(rows, pairs, t, slot).len() == rows.len(),
        forall|i: int|
            0 <= i < rows.len() ==> (#[trigger] filled(rows, pairs, t, slot)[i]).0 == rows[i].0
                && filled(rows, pairs, t, slot)[i].1 == rows[i].1 && filled(
                rows,
                pairs,
                t,
                slot,
            )[i].2.len() == rows[i].2.len(),
        chain_keys(filled(rows, pairs, t, slot)) == chain_keys(rows),
    decreases pairs.len(),
{
    if pairs.len() > 0 {
        let prev = pairs.drop_last();
        assert forall|e: int| 0 <= e < prev.len() implies 0 <= (#[trigger] prev[e]).0
            < rows.len() by {
            assert(0 <= pairs[e].0 < rows.len());
        }
        assert(0 <= pairs[pairs.len() - 1].0 < rows.len());
        lemma_filled_shape(rows, prev, t, slot);
    }
    assert(chain_keys(filled(rows, pairs, t, slot)) =~= chain_keys(rows));
}

/// Fills the slots of the rows of a chain that were hit.
fn fill_slots(chain: &mut Vec<ChainRow>, t: &JoinHashTable, slot: usize, pairs: &[(usize, usize)])
    requires
        t.wf(),
        slot < SLOTS,
        forall|e: int|
            0 <= e < pairs@.len() ==> (#[trigger] pairs@[e]).0 < old(chain)@.len() && pairs@[e].1
                < t.rows(),
    ensures
        rows_of(final(chain)@) == filled(
            rows_of(old(chain)@),
            probe::int_pairs(pairs@),
            *t,
            slot as int,
        ),
        final(chain)@.len() == old(chain)@.len(),
{
    let ghost all = probe::int_pairs(pairs@);
    let ghost rows = rows_of(chain@);
    let mut e: usize = 0;
    assert(all.take(0) =~= Seq::empty());
    while e < pairs.len()
        invariant
            t.wf(),
            slot < SLOTS,
            e <= pairs@.len(),
            all == probe::int_pairs(pairs@),
            chain@.len() == old(chain)@.len(),
            forall|e: int|
                0 <= e < pairs@.len() ==> (#[trigger] pairs@[e]).0 < old(chain)@.len()
                    && pairs@[e].1 < t.rows(),
            rows_of(chain@) == filled(rows, all.take(e as int), *t, slot as int),
        decreases pairs@.len() - e,
    {
        let (c, j): (usize, usize) = pairs[e];
        let ghost before = chain@;
        let mut row: ChainRow = chain[c];
        row.ptrs[slot] = t.row_addr(j) as u64;
        chain.set(c, row);
        proof {
            assert(all.take(e + 1).drop_last() =~= all.take(e as int));
            assert(all.take(e + 1).last() == (c as int, j as int));
            let prev = rows_of(before);
            assert(row.ptrs@ =~= before[c as int].ptrs@.update(
                slot as int,
                slot_addr(*t, j as int),
            ));
            assert(rows_of(chain@) =~= prev.update(
                c as int,
                (
                    prev[c as int].0,
                    prev[c as int].1,
                    prev[c as int].2.update(slot as int, slot_addr(*t, j as int)),
                ),
            ));
        }
        e += 1;
    }
    assert(all.take(e as int) =~= all);
}

/// Appends a row to the chain for each of the given rows of the table.
fn append_rows(chain: &mut Vec<ChainRow>, t: &JoinHashTable, slot: usize, at: &[usize])
    requires
        t.wf(),
        t.rows() <= t.hashes().len(),
        slot < SLOTS,
        forall|e: int| 0 <= e < at@.len() ==> #[trigger] at@[e] < t.rows(),
    ensures
        rows_of(final(chain)@) == rows_of(old(chain)@) + new_rows(
            *t,
            slot as int,
            partition::ints(at@),
        ),
{
    let ghost all = partition::ints(at@);
    let hashes: &[u64] = t.hashes_base_addr_const();
    let mut e: usize = 0;
    assert(rows_of(chain@) =~= rows_of(old(chain)@) + new_rows(*t, slot as int, all.take(0)));
    while e < at.len()
        invariant
            t.wf(),
            t.rows() <= t.hashes().len(),
            hashes@ == t.hashes(),
            slot < SLOTS,
            e <= at@.len(),
            all == partition::ints(at@),
            forall|e: int| 0 <= e < at@.len() ==> #[trigger] at@[e] < t.rows(),
            rows_of(chain@) == rows_of(old(chain)@) + new_rows(
                *t,
                slot as int,
                all.take(e as int),
            ),
        decreases at@.len() - e,
    {
        let j: usize = at[e];
        let ghost before = chain@;
        let mut ptrs: [u64; 5] = [0u64; 5];
        ptrs[slot] = t.row_addr(j) as u64;
        let row: ChainRow = ChainRow { key: t.key_at(j), hash: hashes[j], ptrs };
        chain.push(row);
        proof {
            assert(ptrs@ =~= one_slot(slot as int, slot_addr(*t, j as int)));
            assert(rows_of(chain@) =~= rows_of(before).push(row@));
            assert(new_rows(*t, slot as int, all.take(e + 1)) =~= new_rows(
                *t,
                slot as int,
                all.take(e as int),
            ).push(row@));
        }
        e += 1;
    }
    assert(all.take(e as int) =~= all);
}

/// One step of the chain: the rows of table `t` are probed against the chain.
/// Where the key is in the chain, the slot of its row takes the address; where it is
/// not, a row is appended.
pub fn chain_step(chain: &mut Vec<ChainRow>, t: &JoinHashTable, slot: usize)
    requires
        slot < SLOTS,
        t.wf(),
        t.rows() <= t.hashes().len(),
        hashes_agree(rows_of(old(chain)@), *t),
        io::keys_fit(old(chain)@.len() as int),
    ensures
        rows_of(final(chain)@) == stepped(rows_of(old(chain)@), *t, slot as int),
{
    let ghost rows = rows_of(chain@);
    let ghost cur = chain_keys(rows);
    let ghost ks = t.keys();
    let m: usize = chain.len();
    let mut keys: Vec<i32> = Vec::with_capacity(m);
    let mut hashes: Vec<u64> = Vec::with_capacity(m);
    let mut i: usize = 0;
    while i < m
        invariant
            i <= m,
            m == chain@.len(),
            rows == rows_of(chain@),
            cur == chain_keys(rows),
            keys@ == cur.take(i as int),
            hashes@.len() == i,
            forall|r: int| 0 <= r < i ==> #[trigger] hashes@[r] == rows[r].1,
        decreases m - i,
    {
        keys.push(chain[i].key);
        hashes.push(chain[i].hash);
        assert(keys@ =~= cur.take(i + 1));
        i += 1;
    }
    assert(cur.take(m as int) =~= cur);
    let owned: JoinHashTable = table_of_keys(keys.as_slice(), hashes.as_slice());
    let index: &JoinHashTable = &owned;
    proof {
        assert forall|i: int, j: int|
            0 <= i < index.rows() && 0 <= j < t.rows() && #[trigger] index.keys()[i]
                == #[trigger] t.keys()[j] implies index.dir().filed()[i] == t.hashes()[j] by {
            assert(index.keys()[i] == rows[i].0);
            assert(index.dir().filed()[i] == rows[i].1);
        }
    }
    let n: usize = t.n_rows();
    let chunks: Vec<(usize, usize)> = chunk_bounds(n, STEP_CHUNK);
    let ghost bounds = chunks@;
    proof {
        assert forall|i: int| 0 <= i < bounds.len() implies (#[trigger] bounds[i]).0 <= bounds[i].1
            <= n by {
            select::lemma_chunks_adjoin(bounds, STEP_CHUNK as int, n as int, i);
        }
    }
    let step = |c: (usize, usize)| -> (r: (Vec<(usize, usize)>, Vec<usize>))
        requires
            c.0 <= c.1 <= rows_in(t),
        ensures
            stepped_range(index, t, c, r),
        { step_range(index, t, c.0, c.1) };
    let parts: Vec<(Vec<(usize, usize)>, Vec<usize>)> = par_map(chunks, step);
    let ghost absent = probe::not_in(ks, cur);
    let mut p: usize = 0;
    let ghost mut b: int = 0;
    while p < parts.len()
        invariant
            p <= parts@.len(),
            parts@.len() == bounds.len(),
            t.wf(),
            slot < SLOTS,
            n == t.rows(),
            ks == t.keys(),
            m == rows.len(),
            cur == chain_keys(rows),
            index.keys() == cur,
            chain@.len() == m,
            select::is_chunked(bounds, STEP_CHUNK as int, n as int),
            b == (if p == 0 {
                0
            } else {
                bounds[p - 1].1 as int
            }),
            forall|i: int|
                0 <= i < parts@.len() ==> stepped_range(index, t, bounds[i], #[trigger] parts@[i]),
            rows_of(chain@) == filled(rows, hits(cur, ks, 0, b), *t, slot as int),
        decreases parts@.len() - p,
    {
        let ghost e = bounds[p as int].1 as int;
        proof {
            assert(stepped_range(index, t, bounds[p as int], parts@[p as int]));
            select::lemma_chunks_adjoin(bounds, STEP_CHUNK as int, n as int, p as int);
            if p > 0 {
                select::lemma_chunks_adjoin(bounds, STEP_CHUNK as int, n as int, p - 1);
            }
            lemma_hits_concat(cur, ks, 0, b, e);
            lemma_hits(cur, ks, b, e);
            let pairs = parts@[p as int].0@;
            assert forall|k: int| 0 <= k < pairs.len() implies (#[trigger] pairs[k]).0 < m
                && pairs[k].1 < n by {
                assert(probe::int_pairs(pairs)[k] == hits(cur, ks, b, e)[k]);
            }
            lemma_filled_concat(rows, hits(cur, ks, 0, b), hits(cur, ks, b, e), *t, slot as int);
        }
        fill_slots(chain, t, slot, parts[p].0.as_slice());
        proof {
            b = e;
        }
        p += 1;
    }
    let mut q: usize = 0;
    proof {
        b = 0;
        assert(new_rows(*t, slot as int, select::select(0, 0, absent)) =~= Seq::empty());
    }
    let ghost base = rows_of(chain@);
    assert(base + new_rows(*t, slot as int, select::select(0, 0, absent)) =~= base);
    while q < parts.len()
        invariant
            q <= parts@.len(),
            parts@.len() == bounds.len(),
            t.wf(),
            t.rows() <= t.hashes().len(),
            slot < SLOTS,
            n == t.rows(),
            ks == t.keys(),
            cur == chain_keys(rows),
            index.keys() == cur,
            absent == probe::not_in(ks, cur),
            select::is_chunked(bounds, STEP_CHUNK as int, n as int),
            b == (if q == 0 {
                0
            } else {
                bounds[q - 1].1 as int
            }),
            forall|i: int|
                0 <= i < parts@.len() ==> stepped_range(index, t, bounds[i], #[trigger] parts@[i]),
            rows_of(chain@) == base + new_rows(
                *t,
                slot as int,
                select::select(0, b, absent),
            ),
        decreases parts@.len() - q,
    {
        let ghost e = bounds[q as int].1 as int;
        proof {
            assert(stepped_range(index, t, bounds[q as int], parts@[q as int]));
            select::lemma_chunks_adjoin(bounds, STEP_CHUNK as int, n as int, q as int);
            if q > 0 {
                select::lemma_chunks_adjoin(bounds, STEP_CHUNK as int, n as int, q - 1);
            }
            select::lemma_select_concat(0, b, e, absent);
            select::lemma_select(b, e, absent);
            let at = parts@[q as int].1@;
            assert forall|k: int| 0 <= k < at.len() implies #[trigger] at[k] < n by {
                assert(partition::ints(at)[k] == select::select(b, e, absent)[k]);
            }
            let left = select::select(0, b, absent);
            let right = select::select(b, e, absent);
            assert(base + new_rows(*t, slot as int, left) + new_rows(*t, slot as int, right)
                =~= base + new_rows(*t, slot as int, left + right));
        }
        append_rows(chain, t, slot, parts[q].1.as_slice());
        proof {
            b = e;
        }
        q += 1;
    }
}

/// Number of rows of a table.
spec fn rows_in(t: &JoinHashTable) -> nat {
    t.rows()
}

/// What a chunk of probes gives.
spec fn stepped_range(
    index: &JoinHashTable,
    t: &JoinHashTable,
    c: (usize, usize),
    r: (Vec<(usize, usize)>, Vec<usize>),
) -> bool {
    &&& probe::int_pairs(r.0@) == hits(index.keys(), t.keys(), c.0 as int, c.1 as int)
    &&& partition::ints(r.1@) == select::select(
        c.0 as int,
        c.1 as int,
        probe::not_in(t.keys(), index.keys()),
    )
}

proof fn lemma_filled_concat(
    rows: Seq<(i32, u64, Seq<u64>)>,
    a: Seq<(int, int)>,
    b: Seq<(int, int)>,
    t: JoinHashTable,
    slot: int,
)
    ensures
        filled(filled(rows, a, t, slot), b, t, slot) == filled(rows, a + b, t, slot),
    decreases b.len(),
{
    if b.len() == 0 {
        assert(a + b =~= a);
    } else {
        lemma_filled_concat(rows, a, b.drop_last(), t, slot);
        assert((a + b).drop_last() =~= a + b.drop_last());
        assert((a + b).last() == b.last());
    }
}

/// Whether the chain can be built into a table before each of its steps.
pub open spec fn chain_fits(tables: Seq<JoinHashTable>, k: nat) -> bool {
    forall|n: nat| 1 <= n < k ==> io::keys_fit((#[trigger] chained(tables, n)).len() as int)
}

/// Whether the rows of two tables that have equal keys have equal recorded hashes.
pub open spec fn table_agrees(a: JoinHashTable, b: JoinHashTable) -> bool {
    forall|i: int, j: int|
        0 <= i < a.rows() && 0 <= j < b.rows() && #[trigger] a.keys()[i] == #[trigger] b.keys()[j]
            ==> a.hashes()[i] == b.hashes()[j]
}

/// Whether any two of the tables agree on the hashes of equal keys.
pub open spec fn tables_agree(tables: Seq<JoinHashTable>) -> bool {
    forall|s: int, t: int|
        0 <= s < t < tables.len() ==> #[trigger] table_agrees(tables[s], tables[t])
}

/// Runs the chain over all tables; gives `None` if the chain becomes too large to
/// be built into a table.
pub fn run_row_chain(tables: &[&JoinHashTable]) -> (out: Option<Vec<ChainRow>>)
    requires
        1 <= tables@.len() <= SLOTS,
        forall|t: int|
            0 <= t < tables@.len() ==> (#[trigger] tables@[t]).wf() && tables@[t].rows()
                <= tables@[t].hashes().len(),
        tables_agree(derefs(tables@)),
    ensures
        out is Some <==> chain_fits(derefs(tables@), tables@.len()),
        out matches Some(chain) ==> rows_of(chain@) == chained(derefs(tables@), tables@.len()),
{
    let ghost all = derefs(tables@);
    let k: usize = tables.len();
    assert(tables@[0].wf());
    let mut chain: Vec<ChainRow> = initial_chain(tables[0]);
    proof {
        assert(all[0] == *tables@[0]);
        assert(chained(all, 1) == first_rows(all[0]));
        assert forall|t: int| 1 <= t < k implies hashes_agree(first_rows(all[0]), #[trigger] all[t]) by {
            assert(table_agrees(all[0], all[t]));
        }
    }
    let mut i: usize = 1;
    while i < k
        invariant
            1 <= i <= k,
            k == tables@.len(),
            k <= SLOTS,
            all == derefs(tables@),
            forall|t: int|
                0 <= t < tables@.len() ==> (#[trigger] tables@[t]).wf() && tables@[t].rows()
                    <= tables@[t].hashes().len(),
            tables_agree(all),
            chain_fits(all, i as nat),
            rows_of(chain@) == chained(all, i as nat),
            forall|t: int|
                i <= t < k ==> hashes_agree(chained(all, i as nat), #[trigger] all[t]),
            forall|r: int|
                0 <= r < chain@.len() ==> (#[trigger] chained(all, i as nat)[r]).2.len() == SLOTS,
        decreases k - i,
    {
        proof {
            assert(tables@[i as int].wf());
            assert(all[i as int] == *tables@[i as int]);
            assert(rows_of(chain@).len() == chain@.len());
            assert(chained(all, i as nat).len() == chain@.len());
        }
        if !key_table_fits(chain.len()) {
            assert(!chain_fits(all, k as nat)) by {
                assert(!io::keys_fit(chained(all, i as nat).len() as int));
            }
            return None;
        }
        chain_step(&mut chain, tables[i], i);
        proof {
            lemma_stepped_shape(chained(all, i as nat), all[i as int], i as int);
            assert forall|t: int| i + 1 <= t < k implies hashes_agree(
                stepped(chained(all, i as nat), all[i as int], i as int),
                #[trigger] all[t],
            ) by {
                assert(table_agrees(all[i as int], all[t]));
                lemma_stepped_agrees(chained(all, i as nat), all[i as int], i as int, all[t]);
            }
            assert(chained(all, (i + 1) as nat) == stepped(
                chained(all, i as nat),
                all[i as int],
                i as int,
            ));
            assert(rows_of(chain@).len() == chain@.len());
        }
        i += 1;
    }
    Some(chain)
}

/// The tables behind some references.
pub open spec fn derefs(tables: Seq<&JoinHashTable>) -> Seq<JoinHashTable> {
    tables.map_values(|t: &JoinHashTable| *t)
}

/// A step keeps the slots complete and adds a row for each row of the table whose key
/// is new.
proof fn lemma_stepped_shape(rows: Seq<(i32, u64, Seq<u64>)>, t: JoinHashTable, slot: int)
    requires
        0 <= slot < SLOTS,
        forall|r: int| 0 <= r < rows.len() ==> (#[trigger] rows[r]).2.len() == SLOTS,
    ensures
        forall|r: int|
            0 <= r < stepped(rows, t, slot).len() ==> (#[trigger] stepped(rows, t, slot)[r]).2.len()
                == SLOTS,
        stepped(rows, t, slot).len() == rows.len() + strangers(rows, t).len(),
        forall|r: int|
            0 <= r < rows.len() ==> (#[trigger] stepped(rows, t, slot)[r]).0 == rows[r].0
                && stepped(rows, t, slot)[r].1 == rows[r].1,
        forall|e: int|
            0 <= e < strangers(rows, t).len() ==> {
                let j = #[trigger] strangers(rows, t)[e];
                &&& 0 <= j < t.rows()
                &&& stepped(rows, t, slot)[rows.len() + e].0 == t.keys()[j]
                &&& stepped(rows, t, slot)[rows.len() + e].1 == t.hashes()[j]
            },
{
    let n = t.rows() as int;
    let pairs = hits(chain_keys(rows), t.keys(), 0, n);
    lemma_hits(chain_keys(rows), t.keys(), 0, n);
    lemma_filled_shape(rows, pairs, t, slot);
    select::lemma_select(0, n, probe::not_in(t.keys(), chain_keys(rows)));
    let out = stepped(rows, t, slot);
    let old_part = filled(rows, pairs, t, slot);
    assert forall|r: int| 0 <= r < out.len() implies (#[trigger] out[r]).2.len() == SLOTS by {
        if r < rows.len() {
            assert(out[r] == old_part[r]);
        }
    }
    assert forall|r: int| 0 <= r < rows.len() implies (#[trigger] out[r]).0 == rows[r].0
        && out[r].1 == rows[r].1 by {
        assert(out[r] == old_part[r]);
    }
}

/// A chain that agrees with a table does so after a step over a table that agrees
/// with it.
proof fn lemma_stepped_agrees(
    rows: Seq<(i32, u64, Seq<u64>)>,
    t: JoinHashTable,
    slot: int,
    u: JoinHashTable,
)
    requires
        0 <= slot < SLOTS,
        forall|r: int| 0 <= r < rows.len() ==> (#[trigger] rows[r]).2.len() == SLOTS,
        hashes_agree(rows, u),
        table_agrees(t, u),
    ensures
        hashes_agree(stepped(rows, t, slot), u),
{
    lemma_stepped_shape(rows, t, slot);
    let out = stepped(rows, t, slot);
    let at = strangers(rows, t);
    assert forall|i: int, j: int|
        0 <= i < out.len() && 0 <= j < u.rows() && (#[trigger] out[i]).0 == #[trigger] u.keys()[j]
        implies out[i].1 == u.hashes()[j] by {
        if i < rows.len() {
            assert(rows[i].0 == u.keys()[j]);
        } else {
            let r = at[i - rows.len()];
            assert(t.keys()[r] == u.keys()[j]);
        }
    }
}

/// A step keeps the hashes of the rows right and the slots complete.
proof fn lemma_stepped_hashed(rows: Seq<(i32, u64, Seq<u64>)>, t: JoinHashTable, slot: int)
    requires
        rows_hashed(rows),
        t.cached(),
        0 <= slot < SLOTS,
        forall|r: int| 0 <= r < rows.len() ==> (#[trigger] rows[r]).2.len() == SLOTS,
    ensures
        rows_hashed(stepped(rows, t, slot)),
        forall|r: int|
            0 <= r < stepped(rows, t, slot).len() ==> (#[trigger] stepped(rows, t, slot)[r]).2.len()
                == SLOTS,
        stepped(rows, t, slot).len() == rows.len() + strangers(rows, t).len(),
{
    let n = t.rows() as int;
    let pairs = hits(chain_keys(rows), t.keys(), 0, n);
    lemma_hits(chain_keys(rows), t.keys(), 0, n);
    lemma_filled_shape(rows, pairs, t, slot);
    select::lemma_select(0, n, probe::not_in(t.keys(), chain_keys(rows)));
    let old_part = filled(rows, pairs, t, slot);
    let new_part = new_rows(t, slot, strangers(rows, t));
    let all = stepped(rows, t, slot);
    assert forall|r: int| 0 <= r < all.len() implies (#[trigger] all[r]).1 == hash::key_hash(
        all[r].0,
    ) && all[r].2.len() == SLOTS by {
        if r < rows.len() {
            assert(all[r] == old_part[r]);
            assert(rows[r].1 == hash::key_hash(rows[r].0));
        } else {
            let j = strangers(rows, t)[r - rows.len()];
            assert(all[r] == new_part[r - rows.len()]);
            assert(t.hashes()[j] == hash::key_hash(t.keys()[j]));
        }
    }
}

/// What a row with the given key holds in the slot of table `t`: the address of
/// the row with that key, or 0 if the table has none.
pub open spec fn slot_for(t: JoinHashTable, key: i32) -> u64 {
    let at = select::places(t.keys(), key);
    if at.len() > 0 {
        slot_addr(t, at.last())
    } else {
        0
    }
}

/// What a chain over the first `n` tables is: one row for each key that is in any
/// of them, with its hash, and with the slot of each table set to the row of that
/// table with the key, or to 0. The slots of further tables are 0.
pub open spec fn chain_ok(
    rows: Seq<(i32, u64, Seq<u64>)>,
    tables: Seq<JoinHashTable>,
    n: int,
) -> bool {
    &&& chain_keys(rows).no_duplicates()
    &&& rows_hashed(rows)
    &&& forall|i: int| 0 <= i < rows.len() ==> (#[trigger] rows[i]).2.len() == SLOTS
    &&& forall|i: int, t: int|
        0 <= i < rows.len() && 0 <= t < n ==> #[trigger] rows[i].2[t] == slot_for(
            tables[t],
            rows[i].0,
        )
    &&& forall|i: int, t: int|
        0 <= i < rows.len() && n <= t < SLOTS ==> #[trigger] rows[i].2[t] == 0
    &&& forall|k: i32| #[trigger]
        chain_keys(rows).contains(k) <==> exists|t: int|
            0 <= t < n && #[trigger] tables[t].keys().contains(k)
}

/// What filling does to the slots of row `c` when all pairs that name it come
/// from one probe `j`.
proof fn lemma_filled_row(
    rows: Seq<(i32, u64, Seq<u64>)>,
    pairs: Seq<(int, int)>,
    t: JoinHashTable,
    slot: int,
    c: int,
    j: int,
)
    requires
        0 <= c < rows.len(),
        0 <= slot,
        forall|i: int| 0 <= i < rows.len() ==> slot < (#[trigger] rows[i]).2.len(),
        forall|e: int| 0 <= e < pairs.len() ==> 0 <= (#[trigger] pairs[e]).0 < rows.len(),
        forall|e: int| 0 <= e < pairs.len() && (#[trigger] pairs[e]).0 == c ==> pairs[e].1 == j,
    ensures
        ({
            let after = filled(rows, pairs, t, slot);
            if exists|e: int| 0 <= e < pairs.len() && (#[trigger] pairs[e]).0 == c {
                after[c].2 == rows[c].2.update(slot, slot_addr(t, j))
            } else {
                after[c].2 == rows[c].2
            }
        }),
    decreases pairs.len(),
{
    if pairs.len() > 0 {
        let prev = pairs.drop_last();
        let x = pairs.last();
        assert(pairs[pairs.len() - 1] == x);
        assert forall|e: int| 0 <= e < prev.len() implies 0 <= (#[trigger] prev[e]).0
            < rows.len() by {
            assert(0 <= pairs[e].0 < rows.len());
        }
        assert forall|e: int| 0 <= e < prev.len() && (#[trigger] prev[e]).0 == c implies prev[e].1
            == j by {
            assert(pairs[e].0 == c);
        }
        lemma_filled_row(rows, prev, t, slot, c, j);
        lemma_filled_shape(rows, prev, t, slot);
        let mid = filled(rows, prev, t, slot);
        let after = filled(rows, pairs, t, slot);
        if x.0 == c {
            assert(after[c].2 =~= rows[c].2.update(slot, slot_addr(t, j)));
        } else {
            assert(after[c] == mid[c]);
            if exists|e: int| 0 <= e < pairs.len() && (#[trigger] pairs[e]).0 == c {
                let e = choose|e: int| 0 <= e < pairs.len() && (#[trigger] pairs[e]).0 == c;
                assert(prev[e].0 == c);
            }
            if exists|e: int| 0 <= e < prev.len() && (#[trigger] prev[e]).0 == c {
                let e = choose|e: int| 0 <= e < prev.len() && (#[trigger] prev[e]).0 == c;
                assert(pairs[e].0 == c);
            }
        }
    }
}

/// A step over a table with distinct keys fills the slot of that table in every
/// row of the chain.
proof fn lemma_stepped_slots(rows: Seq<(i32, u64, Seq<u64>)>, t: JoinHashTable, n: int, i: int)
    requires
        chain_keys(rows).no_duplicates(),
        0 <= n < SLOTS,
        forall|r: int| 0 <= r < rows.len() ==> (#[trigger] rows[r]).2.len() == SLOTS,
        forall|r: int| 0 <= r < rows.len() ==> (#[trigger] rows[r]).2[n] == 0,
        t.keys().len() == t.rows(),
        t.keys().no_duplicates(),
        0 <= i < stepped(rows, t, n).len(),
    ensures
        stepped(rows, t, n).len() == rows.len() + strangers(rows, t).len(),
        i < rows.len() ==> {
            &&& stepped(rows, t, n)[i].0 == rows[i].0
            &&& stepped(rows, t, n)[i].2 == rows[i].2.update(n, slot_for(t, rows[i].0))
        },
        i >= rows.len() ==> {
            let j = strangers(rows, t)[i - rows.len()];
            &&& 0 <= j < t.rows()
            &&& !chain_keys(rows).contains(t.keys()[j])
            &&& stepped(rows, t, n)[i].0 == t.keys()[j]
            &&& stepped(rows, t, n)[i].2 == one_slot(n, slot_for(t, t.keys()[j]))
        },
{
    let m = t.rows() as int;
    let cur = chain_keys(rows);
    let ks = t.keys();
    let pairs = hits(cur, ks, 0, m);
    lemma_hits(cur, ks, 0, m);
    lemma_filled_shape(rows, pairs, t, n);
    select::lemma_select(0, m, probe::not_in(ks, cur));
    let key = if i < rows.len() {
        rows[i].0
    } else {
        ks[strangers(rows, t)[i - rows.len()]]
    };
    let at = select::places(ks, key);
    select::lemma_select(0, ks.len() as int, select::holds(ks, key));
    chain::lemma_places(ks, key);
    if i < rows.len() {
        let j = if at.len() > 0 {
            at.last()
        } else {
            0
        };
        if at.len() > 0 {
            assert(select::holds(ks, key)(at[at.len() - 1]));
        }
        assert forall|e: int| 0 <= e < pairs.len() && (#[trigger] pairs[e]).0 == i implies pairs[e].1
            == j by {
            assert(cur[i] == ks[pairs[e].1]);
            assert(select::holds(ks, key)(pairs[e].1));
            assert(at.contains(pairs[e].1));
            assert(ks[j] == key);
        }
        lemma_filled_row(rows, pairs, t, n, i, j);
        if at.len() > 0 {
            assert(cur[i] == key);
            assert(cur.contains(ks[j]));
            let e = choose|e: int| 0 <= e < pairs.len() && (#[trigger] pairs[e]).1 == j;
            assert(cur[pairs[e].0] == ks[j]);
            assert(pairs[e].0 == i);
        } else {
            if exists|e: int| 0 <= e < pairs.len() && (#[trigger] pairs[e]).0 == i {
                let e = choose|e: int| 0 <= e < pairs.len() && (#[trigger] pairs[e]).0 == i;
                assert(cur[i] == ks[pairs[e].1]);
                assert(ks.contains(key));
            }
            assert(rows[i].2 =~= rows[i].2.update(n, 0));
        }
    } else {
        let j = strangers(rows, t)[i - rows.len()];
        assert(probe::not_in(ks, cur)(j));
        assert(select::holds(ks, key)(j));
        assert(at.contains(j));
        assert(at.len() == 1);
        assert(at[0] == j);
    }
}

/// A chain over tables with distinct keys holds, for every key that is in any of
/// them, one row with the addresses of its rows.
pub proof fn law_row_chain(tables: Seq<JoinHashTable>, n: nat)
    requires
        1 <= n <= tables.len(),
        n <= SLOTS,
        forall|t: int|
            0 <= t < n ==> (#[trigger] tables[t]).wf() && tables[t].cached()
                && tables[t].keys().no_duplicates(),
    ensures
        chain_ok(chained(tables, n), tables, n as int),
    decreases n,
{
    let rows = chained(tables, n);
    if n == 1 {
        let t = tables[0];
        assert(t.wf() && t.cached() && t.keys().no_duplicates());
        assert(chain_keys(rows) =~= t.keys());
        assert forall|i: int, s: int| 0 <= i < rows.len() && 0 <= s < 1 implies #[trigger] rows[i].2[s]
            == slot_for(tables[s], rows[i].0) by {
            let key = rows[i].0;
            let at = select::places(t.keys(), key);
            select::lemma_select(0, t.keys().len() as int, select::holds(t.keys(), key));
            chain::lemma_places(t.keys(), key);
            assert(select::holds(t.keys(), key)(i));
            assert(at.contains(i));
            assert(at[0] == i);
        }
        assert forall|k: i32| #[trigger] chain_keys(rows).contains(k) <==> exists|t: int|
            0 <= t < 1 && #[trigger] tables[t].keys().contains(k) by {
            assert(tables[0].keys().contains(k) == chain_keys(rows).contains(k));
        }
    } else {
        let n1 = (n - 1) as nat;
        law_row_chain(tables, n1);
        let prev = chained(tables, n1);
        let t = tables[n - 1];
        assert(t.wf() && t.cached() && t.keys().no_duplicates());
        lemma_stepped_hashed(prev, t, n - 1);
        let cur = chain_keys(prev);
        let at = strangers(prev, t);
        select::lemma_select(0, t.rows() as int, probe::not_in(t.keys(), cur));
        assert forall|i: int, s: int| 0 <= i < rows.len() && 0 <= s < n implies #[trigger] rows[i].2[s]
            == slot_for(tables[s], rows[i].0) by {
            lemma_stepped_slots(prev, t, n - 1, i);
            if i < prev.len() {
                if s < n - 1 {
                    assert(prev[i].2[s] == slot_for(tables[s], prev[i].0));
                }
            } else if s < n - 1 {
                chain::lemma_places(tables[s].keys(), rows[i].0);
                assert(!tables[s].keys().contains(rows[i].0)) by {
                    assert(!cur.contains(rows[i].0));
                }
            }
        }
        assert forall|i: int, s: int|
            0 <= i < rows.len() && n <= s < SLOTS implies #[trigger] rows[i].2[s] == 0 by {
            lemma_stepped_slots(prev, t, n - 1, i);
            if i < prev.len() {
                assert(prev[i].2[s] == 0);
            }
        }
        let keys = chain_keys(rows);
        assert(keys.no_duplicates()) by {
            assert forall|i: int, j: int|
                0 <= i < keys.len() && 0 <= j < keys.len() && i != j implies keys[i] != keys[j] by {
                lemma_stepped_slots(prev, t, n - 1, i);
                lemma_stepped_slots(prev, t, n - 1, j);
                if i < prev.len() && j < prev.len() {
                    assert(cur[i] != cur[j]);
                } else if i < prev.len() {
                    assert(cur[i] == keys[i]);
                    assert(cur.contains(keys[i]));
                } else if j < prev.len() {
                    assert(cur[j] == keys[j]);
                    assert(cur.contains(keys[j]));
                } else {
                    assert(at[i - prev.len()] != at[j - prev.len()]);
                }
            }
        }
        assert forall|k: i32| #[trigger] keys.contains(k) <==> exists|s: int|
            0 <= s < n && #[trigger] tables[s].keys().contains(k) by {
            if keys.contains(k) {
                let i = choose|i: int| 0 <= i < keys.len() && keys[i] == k;
                lemma_stepped_slots(prev, t, n - 1, i);
                if i < prev.len() {
                    assert(cur[i] == k);
                    assert(cur.contains(k));
                    let s = choose|s: int| 0 <= s < n1 && #[trigger] tables[s].keys().contains(k);
                    assert(tables[s].keys().contains(k));
                } else {
                    assert(tables[n - 1].keys().contains(k));
                }
            }
            if exists|s: int| 0 <= s < n && #[trigger] tables[s].keys().contains(k) {
                let s = choose|s: int| 0 <= s < n && #[trigger] tables[s].keys().contains(k);
                if s < n1 {
                    assert(cur.contains(k));
                }
                if cur.contains(k) {
                    let i = choose|i: int| 0 <= i < cur.len() && cur[i] == k;
                    lemma_stepped_slots(prev, t, n - 1, i);
                    assert(keys[i] == k);
                } else {
                    let j = choose|j: int| 0 <= j < t.keys().len() && t.keys()[j] == k;
                    assert(probe::not_in(t.keys(), cur)(j));
                    assert(at.contains(j));
                    let e = choose|e: int| 0 <= e < at.len() && at[e] == j;
                    lemma_stepped_slots(prev, t, n - 1, prev.len() + e);
                    assert(keys[prev.len() + e] == k);
                }
            }
        }
    }
}

/// The keys of a chain that carries row addresses are those of a full outer chain
/// of keys, in the same order.
pub proof fn law_chains_agree(tables: Seq<JoinHashTable>, n: nat)
    requires
        1 <= n <= tables.len(),
        n <= SLOTS,
        forall|t: int| 0 <= t < n ==> (#[trigger] tables[t]).wf() && tables[t].cached(),
    ensures
        chain_keys(chained(tables, n)) == chain::chain_result(
            chain::keys_of_tables(tables),
            true,
            n,
        ),
        rows_hashed(chained(tables, n)),
        forall|r: int|
            0 <= r < chained(tables, n).len() ==> (#[trigger] chained(tables, n)[r]).2.len()
                == SLOTS,
    decreases n,
{
    let rows = chained(tables, n);
    let all = chain::keys_of_tables(tables);
    assert(tables[n - 1].wf() && tables[n - 1].cached());
    if n == 1 {
        assert(chain_keys(rows) =~= all[0]);
    } else {
        let n1 = (n - 1) as nat;
        law_chains_agree(tables, n1);
        let prev = chained(tables, n1);
        let t = tables[n - 1];
        let ks = t.keys();
        let cur = chain_keys(prev);
        lemma_stepped_hashed(prev, t, n - 1);
        let pairs = hits(cur, ks, 0, t.rows() as int);
        lemma_hits(cur, ks, 0, t.rows() as int);
        lemma_filled_shape(prev, pairs, t, n - 1);
        assert(all[n - 1] == ks);
        let at = strangers(prev, t);
        assert(chain_keys(new_rows(t, n - 1, at)) =~= probe::pick(ks, at));
        assert(chain_keys(rows) =~= cur + probe::pick(ks, at));
    }
}

/// Whether every slot of every row that is set holds the address of a row of one
/// of the first `n` tables.
pub open spec fn addresses_ok(
    rows: Seq<(i32, u64, Seq<u64>)>,
    tables: Seq<JoinHashTable>,
    n: int,
) -> bool {
    forall|i: int, t: int|
        0 <= i < rows.len() && 0 <= t < SLOTS && #[trigger] rows[i].2[t] != 0 ==> t < n
            && tables[t].is_row_addr(rows[i].2[t] as int)
}

pub proof fn lemma_slot_addr_ok(t: JoinHashTable, r: int)
    requires
        t.wf(),
        0 <= r < t.rows(),
    ensures
        t.is_row_addr(slot_addr(t, r) as int),
        slot_addr(t, r) != 0,
{
    ht::law_row_address(t, r);
}

proof fn lemma_filled_addresses(
    rows: Seq<(i32, u64, Seq<u64>)>,
    pairs: Seq<(int, int)>,
    tables: Seq<JoinHashTable>,
    n: int,
)
    requires
        0 <= n < SLOTS,
        n < tables.len(),
        tables[n].wf(),
        addresses_ok(rows, tables, n),
        forall|i: int| 0 <= i < rows.len() ==> (#[trigger] rows[i]).2.len() == SLOTS,
        forall|e: int|
            0 <= e < pairs.len() ==> 0 <= (#[trigger] pairs[e]).0 < rows.len() && 0 <= pairs[e].1
                < tables[n].rows(),
    ensures
        addresses_ok(filled(rows, pairs, tables[n], n), tables, n + 1),
    decreases pairs.len(),
{
    let after = filled(rows, pairs, tables[n], n);
    if pairs.len() > 0 {
        let prev = pairs.drop_last();
        let (c, j) = pairs.last();
        assert(pairs[pairs.len() - 1] == (c, j));
        assert forall|e: int| 0 <= e < prev.len() implies 0 <= (#[trigger] prev[e]).0 < rows.len()
            && 0 <= prev[e].1 < tables[n].rows() by {
            assert(pairs[e] == prev[e]);
        }
        lemma_filled_addresses(rows, prev, tables, n);
        lemma_filled_shape(rows, prev, tables[n], n);
        lemma_slot_addr_ok(tables[n], j);
        let mid = filled(rows, prev, tables[n], n);
        assert forall|i: int, t: int|
            0 <= i < after.len() && 0 <= t < SLOTS && #[trigger] after[i].2[t] != 0 implies t < n + 1
            && tables[t].is_row_addr(after[i].2[t] as int) by {
            if i == c && t == n {
                assert(after[i].2[t] == slot_addr(tables[n], j));
            } else {
                assert(after[i].2[t] == mid[i].2[t]);
            }
        }
    } else {
        assert forall|i: int, t: int|
            0 <= i < after.len() && 0 <= t < SLOTS && #[trigger] after[i].2[t] != 0 implies t < n + 1
            && tables[t].is_row_addr(after[i].2[t] as int) by {
            assert(rows[i].2[t] != 0);
        }
    }
}

/// The addresses that a chain holds are those of rows of its tables, so that a
/// sink can read them.
pub proof fn law_chain_addresses(tables: Seq<JoinHashTable>, n: nat)
    requires
        1 <= n <= tables.len(),
        n <= SLOTS,
        forall|t: int| 0 <= t < n ==> (#[trigger] tables[t]).wf() && tables[t].cached(),
    ensures
        addresses_ok(chained(tables, n), tables, n as int),
    decreases n,
{
    let rows = chained(tables, n);
    assert(tables[n - 1].wf() && tables[n - 1].cached());
    if n == 1 {
        assert forall|i: int, t: int|
            0 <= i < rows.len() && 0 <= t < SLOTS && #[trigger] rows[i].2[t] != 0 implies t < 1
            && tables[t].is_row_addr(rows[i].2[t] as int) by {
            lemma_slot_addr_ok(tables[0], i);
        }
    } else {
        let n1 = (n - 1) as nat;
        law_chain_addresses(tables, n1);
        law_chains_agree(tables, n1);
        let prev = chained(tables, n1);
        let t = tables[n - 1];
        let cur = chain_keys(prev);
        let pairs = hits(cur, t.keys(), 0, t.rows() as int);
        lemma_hits(cur, t.keys(), 0, t.rows() as int);
        lemma_filled_addresses(prev, pairs, tables, n - 1);
        lemma_filled_shape(prev, pairs, t, n - 1);
        let at = strangers(prev, t);
        select::lemma_select(0, t.rows() as int, probe::not_in(t.keys(), cur));
        let old_part = filled(prev, pairs, t, n - 1);
        let new_part = new_rows(t, n - 1, at);
        assert forall|i: int, s: int|
            0 <= i < rows.len() && 0 <= s < SLOTS && #[trigger] rows[i].2[s] != 0 implies s < n
            && tables[s].is_row_addr(rows[i].2[s] as int) by {
            if i < old_part.len() {
                assert(old_part[i].2[s] == rows[i].2[s]);
            } else {
                let j = at[i - old_part.len()];
                assert(new_part[i - old_part.len()] == rows[i]);
                lemma_slot_addr_ok(t, j);
            }
        }
    }
}

/// Hits come in the order of the probes, and each names the last row of the chain that
/// holds the key.
proof fn lemma_hits_last(cur: Seq<i32>, ks: Seq<i32>, lo: int, hi: int)
    ensures
        forall|e: int, f: int|
            0 <= e < f < hits(cur, ks, lo, hi).len() ==> (#[trigger] hits(cur, ks, lo, hi)[e]).1 < (
            #[trigger] hits(cur, ks, lo, hi)[f]).1,
        forall|e: int, c: int|
            0 <= e < hits(cur, ks, lo, hi).len() && (#[trigger] hits(cur, ks, lo, hi)[e]).0 < c
                < cur.len() ==> #[trigger] cur[c] != ks[hits(cur, ks, lo, hi)[e].1],
    decreases hi - lo,
{
    if lo < hi {
        lemma_hits_last(cur, ks, lo, hi - 1);
        lemma_hits(cur, ks, lo, hi - 1);
        let before = hits(cur, ks, lo, hi - 1);
        let all = hits(cur, ks, lo, hi);
        let k = ks[hi - 1];
        let at = select::places(cur, k);
        select::law_places(cur, k);
        assert forall|e: int, c: int|
            0 <= e < all.len() && (#[trigger] all[e]).0 < c
                < cur.len() implies #[trigger] cur[c] != ks[all[e].1] by {
            if e < before.len() {
                assert(all[e] == before[e]);
            } else if cur[c] == k {
                assert(at.contains(c));
                let i = choose|i: int| 0 <= i < at.len() && at[i] == c;
                assert(at[i] <= at[at.len() - 1]);
            }
        }
        assert forall|e: int, f: int| 0 <= e < f < all.len() implies (#[trigger] all[e]).1 < (
        #[trigger] all[f]).1 by {
            assert(all[e] == before[e]);
            if f < before.len() {
                assert(all[f] == before[f]);
            }
        }
    }
}

/// Filling leaves the other slots alone, and of several pairs that name row `c` the last
/// one, pair `e`, decides its slot.
proof fn lemma_filled_last(
    rows: Seq<(i32, u64, Seq<u64>)>,
    pairs: Seq<(int, int)>,
    t: JoinHashTable,
    slot: int,
    c: int,
    e: int,
)
    requires
        0 <= c < rows.len(),
        0 <= slot,
        forall|i: int| 0 <= i < rows.len() ==> slot < (#[trigger] rows[i]).2.len(),
        forall|f: int| 0 <= f < pairs.len() ==> 0 <= (#[trigger] pairs[f]).0 < rows.len(),
    ensures
        forall|s: int|
            0 <= s < rows[c].2.len() && s != slot ==> #[trigger] filled(rows, pairs, t, slot)[c].2[s]
                == rows[c].2[s],
        0 <= e < pairs.len() && pairs[e].0 == c && (forall|f: int|
            e < f < pairs.len() ==> (#[trigger] pairs[f]).0 != c) ==> filled(
            rows,
            pairs,
            t,
            slot,
        )[c].2[slot] == slot_addr(t, pairs[e].1),
    decreases pairs.len(),
{
    if pairs.len() > 0 {
        let prev = pairs.drop_last();
        let x = pairs.last();
        assert(pairs[pairs.len() - 1] == x);
        assert forall|f: int| 0 <= f < prev.len() implies 0 <= (#[trigger] prev[f]).0
            < rows.len() by {
            assert(pairs[f] == prev[f]);
        }
        lemma_filled_last(rows, prev, t, slot, c, e);
        lemma_filled_shape(rows, prev, t, slot);
        if 0 <= e < prev.len() {
            assert(pairs[e] == prev[e]);
            if forall|f: int| e < f < pairs.len() ==> (#[trigger] pairs[f]).0 != c {
                assert(pairs[pairs.len() - 1].0 != c);
                assert forall|f: int| e < f < prev.len() implies (#[trigger] prev[f]).0 != c by {
                    assert(pairs[f].0 != c);
                }
            }
        }
    }
}

/// What a step over a table does to row `i` of a chain. Key, hash and the slots of the
/// other tables stay. If the table holds the key, and no row further on in the chain has
/// it too, the slot of the table gets the address of the last row `j` with that key:
/// `64` plus `j` times the width of a row. Else the slot stays as well.
pub proof fn law_stepped_row(
    rows: Seq<(i32, u64, Seq<u64>)>,
    t: JoinHashTable,
    slot: int,
    i: int,
    s: int,
    j: int,
)
    requires
        t.wf(),
        0 <= slot < 5,
        forall|r: int| 0 <= r < rows.len() ==> (#[trigger] rows[r]).2.len() == 5,
        0 <= i < rows.len(),
        0 <= s < 5,
    ensures
        ({
            let out = stepped(rows, t, slot);
            &&& out.len() >= rows.len()
            &&& out[i].0 == rows[i].0
            &&& out[i].1 == rows[i].1
            &&& out[i].2.len() == 5
            &&& s != slot ==> out[i].2[s] == rows[i].2[s]
            &&& !t.keys().contains(rows[i].0) ==> out[i].2[slot] == rows[i].2[slot]
            &&& (exists|r: int| i < r < rows.len() && (#[trigger] rows[r]).0 == rows[i].0)
                ==> out[i].2[slot] == rows[i].2[slot]
            &&& 0 <= j < t.rows() && t.keys()[j] == rows[i].0 && (forall|k: int|
                j < k < t.rows() ==> #[trigger] t.keys()[k] != rows[i].0) && (forall|r: int|
                i < r < rows.len() ==> (#[trigger] rows[r]).0 != rows[i].0) ==> out[i].2[slot] == 64
                + j * t.row_size()
        }),
{
    let m = t.rows() as int;
    let cur = chain_keys(rows);
    let ks = t.keys();
    let pairs = hits(cur, ks, 0, m);
    let key = rows[i].0;
    lemma_hits(cur, ks, 0, m);
    lemma_hits_last(cur, ks, 0, m);
    lemma_filled_shape(rows, pairs, t, slot);
    lemma_filled_last(rows, pairs, t, slot, i, 0);
    let again = exists|r: int| i < r < rows.len() && (#[trigger] rows[r]).0 == key;
    if !ks.contains(key) || again {
        assert forall|e: int| 0 <= e < pairs.len() implies (#[trigger] pairs[e]).0 != i by {
            if pairs[e].0 == i {
                assert(cur[i] == ks[pairs[e].1]);
                assert(ks.contains(key));
                let r = choose|r: int| i < r < rows.len() && (#[trigger] rows[r]).0 == key;
                assert(cur[r] == key);
            }
        }
        lemma_filled_row(rows, pairs, t, slot, i, 0);
    }
    if 0 <= j < m && ks[j] == key && (forall|k: int| j < k < t.rows() ==> #[trigger] t.keys()[k] != key)
        && (forall|r: int| i < r < rows.len() ==> (#[trigger] rows[r]).0 != key) {
        assert(cur[i] == key);
        assert(cur.contains(ks[j]));
        let e = choose|e: int| 0 <= e < pairs.len() && (#[trigger] pairs[e]).1 == j;
        let c = pairs[e].0;
        assert(cur[c] == ks[j]);
        assert(c == i) by {
            if c > i {
                assert(rows[c].0 == key);
            }
            if c < i {
                assert(cur[i] != ks[pairs[e].1]);
            }
        }
        assert forall|f: int| e < f < pairs.len() implies (#[trigger] pairs[f]).0 != i by {
            if pairs[f].0 == i {
                assert(cur[i] == ks[pairs[f].1]);
                assert(pairs[e].1 < pairs[f].1);
            }
        }
        lemma_filled_last(rows, pairs, t, slot, i, e);
        ht::law_row_address(t, j);
    }
}

/// What a step over a table adds to a chain: a row for each row of the table whose key the
/// chain does not hold, in the order of the table, with the key, its hash and, in the slot
/// of the table alone, the address of the row.
pub proof fn law_stepped_new(rows: Seq<(i32, u64, Seq<u64>)>, t: JoinHashTable, slot: int)
    requires
        t.wf(),
        0 <= slot < 5,
        forall|r: int| 0 <= r < rows.len() ==> (#[trigger] rows[r]).2.len() == 5,
    ensures
        exists|at: Seq<int>|
            {
                let out = stepped(rows, t, slot);
                &&& out.len() == rows.len() + #[trigger] at.len()
                &&& forall|j: int| #[trigger]
                    at.contains(j) <==> 0 <= j < t.rows() && forall|r: int|
                        0 <= r < rows.len() ==> (#[trigger] rows[r]).0 != t.keys()[j]
                &&& forall|e: int, f: int| 0 <= e < f < at.len() ==> at[e] < at[f]
                &&& forall|e: int|
                    0 <= e < at.len() ==> {
                        let row = #[trigger] out[rows.len() + e];
                        &&& row.0 == t.keys()[at[e]]
                        &&& row.1 == t.hashes()[at[e]]
                        &&& row.2.len() == 5
                        &&& forall|s: int|
                            0 <= s < 5 ==> #[trigger] row.2[s] == (if s == slot {
                                64 + at[e] * t.row_size()
                            } else {
                                0
                            })
                    }
            },
{
    let m = t.rows() as int;
    let cur = chain_keys(rows);
    let ks = t.keys();
    let pairs = hits(cur, ks, 0, m);
    lemma_hits(cur, ks, 0, m);
    lemma_filled_shape(rows, pairs, t, slot);
    let at = strangers(rows, t);
    let out = stepped(rows, t, slot);
    select::law_select(0, m, probe::not_in(ks, cur));
    assert forall|j: int| #[trigger] at.contains(j) <==> 0 <= j < t.rows() && forall|r: int|
        0 <= r < rows.len() ==> (#[trigger] rows[r]).0 != t.keys()[j] by {
        if cur.contains(ks[j]) {
            let r = choose|r: int| 0 <= r < cur.len() && cur[r] == ks[j];
            assert(rows[r].0 == ks[j]);
        } else {
            assert forall|r: int| 0 <= r < rows.len() implies (#[trigger] rows[r]).0
                != t.keys()[j] by {
                assert(cur[r] == rows[r].0);
            }
        }
    }
    assert forall|e: int| 0 <= e < at.len() implies {
        let row = #[trigger] out[rows.len() + e];
        &&& row.0 == t.keys()[at[e]]
        &&& row.1 == t.hashes()[at[e]]
        &&& row.2.len() == 5
        &&& forall|s: int|
            0 <= s < 5 ==> #[trigger] row.2[s] == (if s == slot {
                64 + at[e] * t.row_size()
            } else {
                0
            })
    } by {
        assert(at.contains(at[e]));
        ht::law_row_address(t, at[e]);
    }
    assert(out.len() == rows.len() + at.len());
}

/// A chain begins with the rows of the first table: row `r` has its key, its hash, and its
/// address in the first slot; every further table is stepped over in its own slot.
pub proof fn law_chain_begun(tables: Seq<JoinHashTable>, n: nat, r: int, s: int)
    requires
        tables.len() > 0,
        tables[0].wf(),
        0 <= r < tables[0].rows(),
        0 <= s < 5,
        n >= 1,
    ensures
        chained(tables, 1).len() == tables[0].rows(),
        chained(tables, 1)[r].0 == tables[0].keys()[r],
        chained(tables, 1)[r].1 == tables[0].hashes()[r],
        chained(tables, 1)[r].2.len() == 5,
        chained(tables, 1)[r].2[s] == (if s == 0 {
            64 + r * tables[0].row_size()
        } else {
            0
        }),
        chained(tables, n + 1) == stepped(chained(tables, n), tables[n as int], n as int),
{
    ht::law_row_address(tables[0], r);
}

/// Tables behind references are the tables themselves, in their order.
pub proof fn law_derefs(tables: Seq<&JoinHashTable>, t: int)
    requires
        0 <= t < tables.len(),
    ensures
        derefs(tables).len() == tables.len(),
        derefs(tables)[t] == *tables[t],
{
}

/// The rows of a chain are its items, one for one, each with its key, its hash and its
/// addresses.
pub proof fn law_chain_rows(chain: Seq<ChainRow>, i: int)
    requires
        0 <= i < chain.len(),
    ensures
        rows_of(chain).len() == chain.len(),
        rows_of(chain)[i].0 == chain[i].key,
        rows_of(chain)[i].1 == chain[i].hash,
        rows_of(chain)[i].2 == chain[i].ptrs@,
        chain_keys(rows_of(chain)).len() == chain.len(),
        chain_keys(rows_of(chain))[i] == chain[i].key,
{
}

/// A chain fits if what is there before each of its steps fits a table of bare keys.
pub proof fn law_row_chain_fits(tables: Seq<JoinHashTable>, k: nat)
    ensures
        chain_fits(tables, k) <==> forall|n: nat|
            1 <= n < k ==> 24 * (#[trigger] chained(tables, n)).len() <= isize::MAX && 64 + 24
                * chained(tables, n).len() <= 0x1_0000_0000_0000 && 64 + 24 * chained(
                tables,
                n,
            ).len() <= usize::MAX,
{
    if chain_fits(tables, k) {
        assert forall|n: nat| 1 <= n < k implies 24 * (#[trigger] chained(tables, n)).len()
            <= isize::MAX && 64 + 24 * chained(tables, n).len() <= 0x1_0000_0000_0000 && 64 + 24
            * chained(tables, n).len() <= usize::MAX by {
            assert(io::keys_fit(chained(tables, n).len() as int));
        }
    }
}

} // verus!
