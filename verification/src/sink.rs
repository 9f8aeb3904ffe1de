//! Sinks: what comes out of a chain is read, column by column, and folded into a
//! checksum. A side on which a key has no row counts as a sentinel.

use crate::bytes;
use crate::bytes::read_u64_padded;
use crate::checksum;
use crate::checksum::{par_wrapping_sum, row_checksum, SENTINEL};
use crate::hash;
use crate::ht;
use crate::ht::JoinHashTable;
use crate::io;
use crate::io::TableData;
use crate::par::par_map;
use crate::permute;
use crate::row;
use crate::row_chain;
use crate::row_chain::{ChainRow, SLOTS};
use crate::select;
use crate::select::chunk_bounds;
use vstd::prelude::*;

verus! {

/// How many keys or rows of a chain are handed out at a time.
pub const SINK_CHUNK: usize = 16384;

/// What a sink reads of row `r` of a table: for each column past the key, the
/// eight bytes from the start of the column on, as far as the row goes.
pub open spec fn data_words(ht: JoinHashTable, r: int) -> Seq<u64> {
    Seq::new(
        (ht.types().len() - 1) as nat,
        |c: int| bytes::padded_u64_at(ht.row(r), row::column_start(ht.types(), (c + 1) as nat)),
    )
}

/// The wrapping sum of what a sink reads of row `r` of a table.
fn row_sum(ht: &JoinHashTable, r: usize) -> (sum: u64)
    requires
        ht.wf(),
        r < ht.rows(),
    ensures
        sum == checksum::wrapping_sum(data_words(*ht, r as int)),
{
    let ghost words = data_words(*ht, r as int);
    let row: &[u8] = ht.row_bytes(r);
    let n: usize = ht.layout().num_columns();
    let mut sum: u64 = 0;
    let mut c: usize = 1;
    assert(words.take(0) =~= Seq::empty());
    while c < n
        invariant
            ht.wf(),
            n == ht.types().len(),
            1 <= c <= n,
            row@ == ht.row(r as int),
            row@.len() == ht.row_size(),
            words == data_words(*ht, r as int),
            sum == checksum::wrapping_sum(words.take(c - 1)),
        decreases n - c,
    {
        let off: usize = ht.layout().column_offset(c);
        proof {
            row::lemma_column_in_row(ht.types(), c as nat);
            assert(words.take(c as int).drop_last() =~= words.take(c - 1));
        }
        sum = sum.wrapping_add(read_u64_padded(row, off));
        c += 1;
    }
    assert(words.take(n - 1) =~= words);
    sum
}

/// What a sink reads of each table for a key and its hash: the columns of the
/// first row that matches, or the sentinel.
pub open spec fn lookup_words(tables: Seq<JoinHashTable>, h: u64, key: i32) -> spec_fn(int) -> Seq<
    u64,
> {
    |t: int|
        if tables[t].matches(h, key).len() > 0 {
            data_words(tables[t], tables[t].matches(h, key)[0])
        } else {
            seq![SENTINEL]
        }
}

/// What a sink reads for each of some keys, one table after the other.
pub open spec fn key_words(tables: Seq<JoinHashTable>, ks: Seq<i32>, hs: Seq<u64>) -> spec_fn(
    int,
) -> Seq<u64> {
    |i: int| checksum::gather(lookup_words(tables, hs[i], ks[i]), 0, tables.len() as int)
}

proof fn lemma_sentinel()
    ensures
        checksum::wrapping_sum(seq![SENTINEL]) == SENTINEL,
{
    let w = seq![SENTINEL];
    assert(w.drop_last() =~= Seq::empty());
    assert(checksum::wrapping_sum(w.drop_last()) == 0);
}

/// The wrapping sum of what is read for the keys `lo..hi`.
fn key_range_sum(
    tables: &[JoinHashTable],
    ks: &[i32],
    hs: &[u64],
    lo: usize,
    hi: usize,
) -> (sum: u64)
    requires
        ks@.len() == hs@.len(),
        lo <= hi <= ks@.len(),
        forall|t: int|
            0 <= t < tables@.len() ==> (#[trigger] tables@[t]).wf() && tables@[t].is_final(),
    ensures
        sum == checksum::wrapping_sum(
            checksum::gather(key_words(tables@, ks@, hs@), lo as int, hi as int),
        ),
{
    let ghost words = key_words(tables@, ks@, hs@);
    let mut sum: u64 = 0;
    let mut i: usize = lo;
    while i < hi
        invariant
            ks@.len() == hs@.len(),
            lo <= i <= hi <= ks@.len(),
            forall|t: int|
                0 <= t < tables@.len() ==> (#[trigger] tables@[t]).wf() && tables@[t].is_final(),
            words == key_words(tables@, ks@, hs@),
            sum == checksum::wrapping_sum(checksum::gather(words, lo as int, i as int)),
        decreases hi - i,
    {
        let ghost sides = lookup_words(tables@, hs@[i as int], ks@[i as int]);
        let ghost before = checksum::gather(words, lo as int, i as int);
        let mut t: usize = 0;
        assert(before + checksum::gather(sides, 0, 0) =~= before);
        while t < tables.len()
            invariant
                ks@.len() == hs@.len(),
                i < ks@.len(),
                t <= tables@.len(),
                forall|t: int|
                    0 <= t < tables@.len() ==> (#[trigger] tables@[t]).wf()
                        && tables@[t].is_final(),
                sides == lookup_words(tables@, hs@[i as int], ks@[i as int]),
                sum == checksum::wrapping_sum(before + checksum::gather(sides, 0, t as int)),
            decreases tables@.len() - t,
        {
            let table: &JoinHashTable = &tables[t];
            proof {
                assert(tables@[t as int].wf());
                ht::law_matches(*table, hs@[i as int], ks@[i as int]);
                lemma_sentinel();
                let so_far = before + checksum::gather(sides, 0, t as int);
                checksum::lemma_wrapping_sum_concat(so_far, sides(t as int));
                assert(so_far + sides(t as int) =~= before + checksum::gather(sides, 0, t + 1));
            }
            let side: u64 = match table.first_match(hs[i], ks[i]) {
                Some(r) => row_sum(table, r),
                None => SENTINEL,
            };
            sum = sum.wrapping_add(side);
            t += 1;
        }
        i += 1;
    }
    sum
}

/// Reads the columns of every table for every key that came out of a chain, by
/// looking the key up in the table, and folds them into a checksum.
pub fn materialize_sink(tables: &[JoinHashTable], keys: &[i32], hashes: &[u64]) -> (sum: u64)
    requires
        keys@.len() == hashes@.len(),
        forall|t: int|
            0 <= t < tables@.len() ==> (#[trigger] tables@[t]).wf() && tables@[t].is_final(),
    ensures
        sum == checksum::wrapping_sum(
            checksum::gather(key_words(tables@, keys@, hashes@), 0, keys@.len() as int),
        ),
{
    let n: usize = keys.len();
    let chunks: Vec<(usize, usize)> = chunk_bounds(n, SINK_CHUNK);
    let ghost bounds = chunks@;
    proof {
        assert forall|i: int| 0 <= i < bounds.len() implies (#[trigger] bounds[i]).0 <= bounds[i].1
            <= n by {
            select::lemma_chunks_adjoin(bounds, SINK_CHUNK as int, n as int, i);
        }
    }
    let fold = |c: (usize, usize)| -> (s: u64)
        requires
            c.0 <= c.1 <= keys@.len(),
        ensures
            s == checksum::wrapping_sum(
                checksum::gather(key_words(tables@, keys@, hashes@), c.0 as int, c.1 as int),
            ),
        { key_range_sum(tables, keys, hashes, c.0, c.1) };
    let sums: Vec<u64> = par_map(chunks, fold);
    proof {
        checksum::lemma_chunk_sums(
            key_words(tables@, keys@, hashes@),
            bounds,
            SINK_CHUNK as int,
            n as int,
            sums@,
            bounds.len() as int,
        );
    }
    par_wrapping_sum(sums)
}

/// What a sink reads for each slot of a row of a chain: the columns of the row
/// whose address it holds, or the sentinel.
pub open spec fn slot_words(tables: Seq<JoinHashTable>, ptrs: Seq<u64>) -> spec_fn(int) -> Seq<
    u64,
> {
    |t: int|
        if ptrs[t] == 0 {
            seq![SENTINEL]
        } else {
            data_words(tables[t], tables[t].row_at(ptrs[t] as int))
        }
}

/// What a sink reads for each row of a chain, one slot after the other.
pub open spec fn chain_words(tables: Seq<JoinHashTable>, chain: Seq<ChainRow>) -> spec_fn(
    int,
) -> Seq<u64> {
    |i: int| checksum::gather(slot_words(tables, chain[i].ptrs@), 0, SLOTS as int)
}

/// Whether every slot that is set holds the address of a row of its table.
pub open spec fn slots_ok(tables: Seq<JoinHashTable>, ptrs: Seq<u64>) -> bool {
    forall|t: int|
        0 <= t < SLOTS && #[trigger] ptrs[t] != 0 ==> t < tables.len() && tables[t].is_row_addr(
            ptrs[t] as int,
        )
}

/// The wrapping sum of what is read for the rows `lo..hi` of a chain.
fn chain_range_sum(tables: &[JoinHashTable], chain: &[ChainRow], lo: usize, hi: usize) -> (sum: u64)
    requires
        lo <= hi <= chain@.len(),
        forall|t: int| 0 <= t < tables@.len() ==> (#[trigger] tables@[t]).wf(),
        forall|i: int|
            0 <= i < chain@.len() ==> slots_ok(tables@, (#[trigger] chain@[i]).ptrs@),
    ensures
        sum == checksum::wrapping_sum(
            checksum::gather(chain_words(tables@, chain@), lo as int, hi as int),
        ),
{
    let ghost words = chain_words(tables@, chain@);
    let mut sum: u64 = 0;
    let mut i: usize = lo;
    while i < hi
        invariant
            lo <= i <= hi <= chain@.len(),
            forall|t: int| 0 <= t < tables@.len() ==> (#[trigger] tables@[t]).wf(),
            forall|i: int|
                0 <= i < chain@.len() ==> slots_ok(tables@, (#[trigger] chain@[i]).ptrs@),
            words == chain_words(tables@, chain@),
            sum == checksum::wrapping_sum(checksum::gather(words, lo as int, i as int)),
        decreases hi - i,
    {
        let ptrs: [u64; 5] = chain[i].ptrs;
        let ghost sides = slot_words(tables@, ptrs@);
        let ghost before = checksum::gather(words, lo as int, i as int);
        let mut t: usize = 0;
        assert(before + checksum::gather(sides, 0, 0) =~= before);
        assert(slots_ok(tables@, ptrs@));
        while t < SLOTS
            invariant
                t <= SLOTS,
                forall|t: int| 0 <= t < tables@.len() ==> (#[trigger] tables@[t]).wf(),
                slots_ok(tables@, ptrs@),
                sides == slot_words(tables@, ptrs@),
                sum == checksum::wrapping_sum(before + checksum::gather(sides, 0, t as int)),
            decreases SLOTS - t,
        {
            proof {
                lemma_sentinel();
                let so_far = before + checksum::gather(sides, 0, t as int);
                checksum::lemma_wrapping_sum_concat(so_far, sides(t as int));
                assert(so_far + sides(t as int) =~= before + checksum::gather(sides, 0, t + 1));
            }
            let p: u64 = ptrs[t];
            let side: u64 = if p == 0 {
                SENTINEL
            } else {
                let table: &JoinHashTable = &tables[t];
                proof {
                    assert(tables@[t as int].wf());
                    let r = choose|r: int|
                        0 <= r < table.rows() && p as int == #[trigger] row::row_address(
                            r,
                            table.row_size(),
                        );
                    ht::law_row_address(*table, r);
                }
                row_sum(table, table.row_index(p as usize))
            };
            sum = sum.wrapping_add(side);
            t += 1;
        }
        i += 1;
    }
    sum
}

/// Reads the columns of every row whose address a chain holds and folds them into
/// a checksum.
pub fn pipelined_sink(chain: &[ChainRow], tables: &[JoinHashTable]) -> (sum: u64)
    requires
        forall|t: int| 0 <= t < tables@.len() ==> (#[trigger] tables@[t]).wf(),
        forall|i: int|
            0 <= i < chain@.len() ==> slots_ok(tables@, (#[trigger] chain@[i]).ptrs@),
    ensures
        sum == checksum::wrapping_sum(
            checksum::gather(chain_words(tables@, chain@), 0, chain@.len() as int),
        ),
{
    let n: usize = chain.len();
    let chunks: Vec<(usize, usize)> = chunk_bounds(n, SINK_CHUNK);
    let ghost bounds = chunks@;
    proof {
        assert forall|i: int| 0 <= i < bounds.len() implies (#[trigger] bounds[i]).0 <= bounds[i].1
            <= n by {
            select::lemma_chunks_adjoin(bounds, SINK_CHUNK as int, n as int, i);
        }
    }
    let fold = |c: (usize, usize)| -> (s: u64)
        requires
            c.0 <= c.1 <= chain@.len(),
        ensures
            s == checksum::wrapping_sum(
                checksum::gather(chain_words(tables@, chain@), c.0 as int, c.1 as int),
            ),
        { chain_range_sum(tables, chain, c.0, c.1) };
    let sums: Vec<u64> = par_map(chunks, fold);
    proof {
        checksum::lemma_chunk_sums(
            chain_words(tables@, chain@),
            bounds,
            SINK_CHUNK as int,
            n as int,
            sums@,
            bounds.len() as int,
        );
    }
    par_wrapping_sum(sums)
}

/// Where row `r` of a table that keeps its data in columns lies.
pub open spec fn place(t: TableData, r: int) -> (usize, usize) {
    choose|at: (usize, usize)| io::located(t.boundaries@, r, at)
}

/// What a sink reads of row `r` of a table that keeps its data in columns.
pub open spec fn table_words(t: TableData, r: int) -> Seq<u64> {
    checksum::row_words(t.batches@[place(t, r).0 as int], place(t, r).1 as int)
}

/// The wrapping sum of what a sink reads of row `r` of a table that keeps its
/// data in columns.
pub(crate) fn table_row_sum(t: &TableData, r: usize) -> (sum: u64)
    requires
        t.wf(),
        r < t.ht.rows(),
    ensures
        sum == checksum::wrapping_sum(table_words(*t, r as int)),
{
    let (b, at): (usize, usize) = t.locate(r);
    proof {
        io::lemma_located_unique(t.boundaries@, t.batches@, r as int, (b, at), place(*t, r as int));
        assert(t.batches@[b as int].ok());
    }
    row_checksum(&t.batches[b], at)
}

/// What a sink reads for each slot of a row of a chain over tables that keep their
/// data in columns.
pub open spec fn table_slot_words(tables: Seq<TableData>, ptrs: Seq<u64>) -> spec_fn(int) -> Seq<
    u64,
> {
    |t: int|
        if ptrs[t] == 0 {
            seq![SENTINEL]
        } else {
            table_words(tables[t], tables[t].ht.row_at(ptrs[t] as int))
        }
}

/// What a sink reads for a row of a chain over tables that keep their data in
/// columns, one slot after the other.
pub open spec fn ptrs_words(tables: Seq<TableData>, ptrs: Seq<u64>) -> Seq<u64> {
    checksum::gather(table_slot_words(tables, ptrs), 0, SLOTS as int)
}

/// Whether every slot that is set holds the address of a row of its table.
pub open spec fn table_slots_ok(tables: Seq<TableData>, ptrs: Seq<u64>) -> bool {
    forall|t: int|
        0 <= t < SLOTS && #[trigger] ptrs[t] != 0 ==> t < tables.len()
            && tables[t].ht.is_row_addr(ptrs[t] as int)
}

/// The tables behind some references.
pub open spec fn tables_behind(refs: Seq<&TableData>) -> Seq<TableData> {
    refs.map_values(|t: &TableData| *t)
}

/// The wrapping sum of what is read for the slots of one row of a chain.
pub(crate) fn ptrs_sum(tables: &[&TableData], ptrs: [u64; 5]) -> (sum: u64)
    requires
        forall|t: int| 0 <= t < tables@.len() ==> (#[trigger] tables@[t]).wf(),
        table_slots_ok(tables_behind(tables@), ptrs@),
    ensures
        sum == checksum::wrapping_sum(ptrs_words(tables_behind(tables@), ptrs@)),
{
    let ghost all = tables_behind(tables@);
    let ghost sides = table_slot_words(all, ptrs@);
    let mut sum: u64 = 0;
    let mut t: usize = 0;
    while t < SLOTS
        invariant
            t <= SLOTS,
            forall|t: int| 0 <= t < tables@.len() ==> (#[trigger] tables@[t]).wf(),
            all == tables_behind(tables@),
            table_slots_ok(all, ptrs@),
            sides == table_slot_words(all, ptrs@),
            sum == checksum::wrapping_sum(checksum::gather(sides, 0, t as int)),
        decreases SLOTS - t,
    {
        proof {
            lemma_sentinel();
            checksum::lemma_wrapping_sum_concat(
                checksum::gather(sides, 0, t as int),
                sides(t as int),
            );
        }
        let p: u64 = ptrs[t];
        let side: u64 = if p == 0 {
            SENTINEL
        } else {
            let table: &TableData = tables[t];
            proof {
                assert(tables@[t as int].wf());
                assert(all[t as int] == *table);
                let r = choose|r: int|
                    0 <= r < table.ht.rows() && p as int == #[trigger] row::row_address(
                        r,
                        table.ht.row_size(),
                    );
                ht::law_row_address(table.ht, r);
            }
            table_row_sum(table, table.ht.row_index(p as usize))
        };
        sum = sum.wrapping_add(side);
        t += 1;
    }
    sum
}

/// What a sink reads for each row of a chain over tables that keep their data in
/// columns.
pub open spec fn table_chain_words(tables: Seq<TableData>, chain: Seq<ChainRow>) -> spec_fn(
    int,
) -> Seq<u64> {
    |i: int| ptrs_words(tables, chain[i].ptrs@)
}

fn table_chain_range_sum(tables: &[&TableData], chain: &[ChainRow], lo: usize, hi: usize) -> (sum:
    u64)
    requires
        lo <= hi <= chain@.len(),
        forall|t: int| 0 <= t < tables@.len() ==> (#[trigger] tables@[t]).wf(),
        forall|i: int|
            0 <= i < chain@.len() ==> table_slots_ok(tables_behind(tables@), (#[trigger] chain@[i]).ptrs@),
    ensures
        sum == checksum::wrapping_sum(
            checksum::gather(table_chain_words(tables_behind(tables@), chain@), lo as int, hi as int),
        ),
{
    let ghost words = table_chain_words(tables_behind(tables@), chain@);
    let mut sum: u64 = 0;
    let mut i: usize = lo;
    while i < hi
        invariant
            lo <= i <= hi <= chain@.len(),
            forall|t: int| 0 <= t < tables@.len() ==> (#[trigger] tables@[t]).wf(),
            forall|i: int|
                0 <= i < chain@.len() ==> table_slots_ok(tables_behind(tables@), (#[trigger] chain@[i]).ptrs@),
            words == table_chain_words(tables_behind(tables@), chain@),
            sum == checksum::wrapping_sum(checksum::gather(words, lo as int, i as int)),
        decreases hi - i,
    {
        proof {
            checksum::lemma_wrapping_sum_concat(
                checksum::gather(words, lo as int, i as int),
                words(i as int),
            );
        }
        sum = sum.wrapping_add(ptrs_sum(tables, chain[i].ptrs));
        i += 1;
    }
    sum
}

/// Reads the columns of every row whose address a chain holds, from the record
/// batches of the tables, and folds them into a checksum.
pub fn lance_sink(tables: &[&TableData], chain: &[ChainRow]) -> (sum: u64)
    requires
        forall|t: int| 0 <= t < tables@.len() ==> (#[trigger] tables@[t]).wf(),
        forall|i: int|
            0 <= i < chain@.len() ==> table_slots_ok(tables_behind(tables@), (#[trigger] chain@[i]).ptrs@),
    ensures
        sum == checksum::wrapping_sum(
            checksum::gather(table_chain_words(tables_behind(tables@), chain@), 0, chain@.len() as int),
        ),
{
    let n: usize = chain.len();
    let chunks: Vec<(usize, usize)> = chunk_bounds(n, SINK_CHUNK);
    let ghost bounds = chunks@;
    proof {
        assert forall|i: int| 0 <= i < bounds.len() implies (#[trigger] bounds[i]).0 <= bounds[i].1
            <= n by {
            select::lemma_chunks_adjoin(bounds, SINK_CHUNK as int, n as int, i);
        }
    }
    let fold = |c: (usize, usize)| -> (s: u64)
        requires
            c.0 <= c.1 <= chain@.len(),
        ensures
            s == checksum::wrapping_sum(
                checksum::gather(table_chain_words(tables_behind(tables@), chain@), c.0 as int, c.1 as int),
            ),
        { table_chain_range_sum(tables, chain, c.0, c.1) };
    let sums: Vec<u64> = par_map(chunks, fold);
    proof {
        checksum::lemma_chunk_sums(
            table_chain_words(tables_behind(tables@), chain@),
            bounds,
            SINK_CHUNK as int,
            n as int,
            sums@,
            bounds.len() as int,
        );
    }
    par_wrapping_sum(sums)
}

/// The hashes of the rows of a chain.
pub open spec fn chain_hashes(rows: Seq<(i32, u64, Seq<u64>)>) -> Seq<u64> {
    rows.map_values(|c: (i32, u64, Seq<u64>)| c.1)
}

/// What is read for a key by looking it up is what is read for it by the addresses
/// that a chain holds.
proof fn lemma_slot_read(t: JoinHashTable, key: i32)
    requires
        t.wf(),
        t.is_final(),
        t.hashed_by_key(),
    ensures
        ({
            let found = t.matches(hash::key_hash(key), key);
            let p = row_chain::slot_for(t, key);
            &&& found.len() > 0 <==> p != 0
            &&& found.len() > 0 ==> found[0] == t.row_at(p as int)
        }),
{
    let at = select::places(t.keys(), key);
    select::lemma_select(0, t.keys().len() as int, select::holds(t.keys(), key));
    ht::law_lookup(t, key);
    if at.len() > 0 {
        assert(select::holds(t.keys(), key)(at[at.len() - 1]));
        ht::law_row_address(t, at.last());
        assert(at.reverse()[0] == at.last());
    }
}

/// For the rows of a chain over as many tables as a row has slots, the sink that
/// looks the keys up reads what the sink that follows the addresses reads: both
/// give the same checksum.
pub proof fn law_lookup_reads_chain(tables: Seq<JoinHashTable>, chain: Seq<ChainRow>)
    requires
        tables.len() == SLOTS,
        forall|t: int|
            0 <= t < SLOTS ==> (#[trigger] tables[t]).wf() && tables[t].is_final()
                && tables[t].hashed_by_key(),
        row_chain::chain_ok(row_chain::rows_of(chain), tables, SLOTS as int),
    ensures
        ({
            let rows = row_chain::rows_of(chain);
            let n = chain.len() as int;
            checksum::gather(
                key_words(tables, row_chain::chain_keys(rows), chain_hashes(rows)),
                0,
                n,
            ) == checksum::gather(chain_words(tables, chain), 0, n)
        }),
{
    let rows = row_chain::rows_of(chain);
    let keys = row_chain::chain_keys(rows);
    let hashes = chain_hashes(rows);
    let by_key = key_words(tables, keys, hashes);
    let by_address = chain_words(tables, chain);
    assert forall|i: int| 0 <= i < chain.len() implies #[trigger] by_key(i) == by_address(i) by {
        assert(rows[i] == chain[i]@);
        assert(hashes[i] == hash::key_hash(keys[i]));
        let a = lookup_words(tables, hashes[i], keys[i]);
        let b = slot_words(tables, chain[i].ptrs@);
        assert forall|t: int| 0 <= t < SLOTS implies #[trigger] a(t) == b(t) by {
            assert(rows[i].2[t] == row_chain::slot_for(tables[t], rows[i].0));
            lemma_slot_read(tables[t], keys[i]);
        }
        checksum::lemma_gather_same(a, b, 0, SLOTS as int);
    }
    checksum::lemma_gather_same(by_key, by_address, 0, chain.len() as int);
}

/// A sink reads, for each column of a row past the key, eight bytes from the start of
/// the column on, with zeros past the end of the row: byte `j` of word `c - 1` is byte
/// `j` from the start of column `c` on.
pub proof fn law_data_words(ht: JoinHashTable, r: int, c: int, j: int)
    requires
        ht.wf(),
        0 <= r < ht.rows(),
        1 <= c < ht.types().len(),
        0 <= j < 8,
    ensures
        data_words(ht, r).len() == ht.types().len() - 1,
        bytes::u64_bytes(data_words(ht, r)[c - 1])[j] == (if row::column_start(
            ht.types(),
            c as nat,
        ) + j < ht.row_size() {
            ht.data()[r * ht.row_size() + row::column_start(ht.types(), c as nat) + j]
        } else {
            0
        }),
{
    let start = row::column_start(ht.types(), c as nat);
    row::lemma_column_in_row(ht.types(), c as nat);
    row::lemma_row_in_arena(r, ht.rows(), ht.row_size());
    bytes::law_padded_read(ht.row(r), start, j);
}

/// What a sink adds for one table, a key and its hash.
spec fn side_sum(t: JoinHashTable, h: u64, key: i32) -> u64 {
    if t.matches(h, key).len() > 0 {
        checksum::wrapping_sum(data_words(t, t.matches(h, key)[0]))
    } else {
        SENTINEL
    }
}

proof fn lemma_lookup_push(tables: Seq<JoinHashTable>, t: JoinHashTable, h: u64, key: i32)
    ensures
        ({
            let n = tables.len() as int;
            let all = lookup_words(tables.push(t), h, key);
            let some = lookup_words(tables, h, key);
            &&& checksum::wrapping_sum(checksum::gather(all, 0, n + 1)) == checksum::wrapping_sum(
                checksum::gather(some, 0, n),
            ).wrapping_add(side_sum(t, h, key))
        }),
{
    let n = tables.len() as int;
    let all = lookup_words(tables.push(t), h, key);
    let some = lookup_words(tables, h, key);
    assert forall|i: int| 0 <= i < n implies #[trigger] all(i) == some(i) by {}
    checksum::lemma_gather_same(all, some, 0, n);
    lemma_sentinel();
    checksum::lemma_wrapping_sum_concat(checksum::gather(all, 0, n), all(n));
}

/// What the sink that looks keys up adds for one key.
proof fn lemma_one_key(tables: Seq<JoinHashTable>, k: i32, h: u64)
    ensures
        checksum::gather(key_words(tables, seq![k], seq![h]), 0, 1) == checksum::gather(
            lookup_words(tables, h, k),
            0,
            tables.len() as int,
        ),
{
    let words = key_words(tables, seq![k], seq![h]);
    assert(checksum::gather(words, 0, 0) =~= Seq::empty());
    assert(checksum::gather(words, 0, 1) =~= words(0));
}

/// The sink that looks keys up adds up what it reads for each key: one more key adds
/// what it reads for that key alone.
pub proof fn law_key_sink_by_key(
    tables: Seq<JoinHashTable>,
    ks: Seq<i32>,
    hs: Seq<u64>,
    k: i32,
    h: u64,
)
    requires
        ks.len() == hs.len(),
    ensures
        ({
            let n = ks.len() as int;
            checksum::wrapping_sum(
                checksum::gather(key_words(tables, ks.push(k), hs.push(h)), 0, n + 1),
            ) == checksum::wrapping_sum(
                checksum::gather(key_words(tables, ks, hs), 0, n),
            ).wrapping_add(
                checksum::wrapping_sum(
                    checksum::gather(key_words(tables, seq![k], seq![h]), 0, 1),
                ),
            )
        }),
        checksum::wrapping_sum(
            checksum::gather(key_words(tables, Seq::<i32>::empty(), Seq::<u64>::empty()), 0, 0),
        ) == 0,
{
    let n = ks.len() as int;
    let all = key_words(tables, ks.push(k), hs.push(h));
    let some = key_words(tables, ks, hs);
    assert forall|i: int| 0 <= i < n implies #[trigger] all(i) == some(i) by {}
    checksum::lemma_gather_same(all, some, 0, n);
    lemma_one_key(tables, k, h);
    checksum::lemma_wrapping_sum_concat(checksum::gather(all, 0, n), all(n));
}

/// For one key the sink that looks keys up adds up what it reads of each table: one
/// more table, wherever the others stand, adds what it gives when it is the only one.
pub proof fn law_key_sink_by_table(
    tables: Seq<JoinHashTable>,
    t: JoinHashTable,
    k: i32,
    h: u64,
)
    ensures
        checksum::wrapping_sum(
            checksum::gather(key_words(tables.push(t), seq![k], seq![h]), 0, 1),
        ) == checksum::wrapping_sum(
            checksum::gather(key_words(tables, seq![k], seq![h]), 0, 1),
        ).wrapping_add(
            checksum::wrapping_sum(
                checksum::gather(key_words(seq![t], seq![k], seq![h]), 0, 1),
            ),
        ),
        checksum::wrapping_sum(
            checksum::gather(
                key_words(Seq::<JoinHashTable>::empty(), seq![k], seq![h]),
                0,
                1,
            ),
        ) == 0,
{
    let none = Seq::<JoinHashTable>::empty();
    lemma_one_key(tables.push(t), k, h);
    lemma_one_key(tables, k, h);
    lemma_one_key(seq![t], k, h);
    lemma_one_key(none, k, h);
    lemma_lookup_push(tables, t, h, k);
    lemma_lookup_push(none, t, h, k);
    assert(none.push(t) =~= seq![t]);
}

/// For one key and one table the sink reads the columns of the last row with the key,
/// and adds the sentinel if and only if there is none.
pub proof fn law_key_sink_of_one(t: JoinHashTable, k: i32, r: int)
    requires
        t.wf(),
        t.is_final(),
        t.hashed_by_key(),
    ensures
        ({
            let sum = checksum::wrapping_sum(
                checksum::gather(key_words(seq![t], seq![k], seq![hash::key_hash(k)]), 0, 1),
            );
            &&& !t.keys().contains(k) ==> sum == 0xDEAD_BEEF_CAFE_BABE
            &&& 0 <= r < t.rows() && t.keys()[r] == k && (forall|q: int|
                r < q < t.rows() ==> #[trigger] t.keys()[q] != k) ==> sum
                == checksum::wrapping_sum(data_words(t, r))
        }),
{
    let h = hash::key_hash(k);
    let none = Seq::<JoinHashTable>::empty();
    lemma_one_key(seq![t], k, h);
    lemma_lookup_push(none, t, h, k);
    assert(none.push(t) =~= seq![t]);
    assert(checksum::gather(lookup_words(none, h, k), 0, 0) =~= Seq::empty());
    let at = select::places(t.keys(), k);
    select::law_places(t.keys(), k);
    ht::law_lookup(t, k);
    assert(side_sum(t, h, k) == checksum::wrapping_sum(
        checksum::gather(key_words(seq![t], seq![k], seq![h]), 0, 1),
    ));
    if at.len() > 0 {
        assert(t.keys()[at[at.len() - 1]] == k);
        assert(at.reverse()[0] == at.last());
    }
    if 0 <= r < t.rows() && t.keys()[r] == k && (forall|q: int|
        r < q < t.rows() ==> #[trigger] t.keys()[q] != k) {
        assert(at.contains(r));
        let i = choose|i: int| 0 <= i < at.len() && at[i] == r;
        if i < at.len() - 1 {
            assert(at[i] < at[at.len() - 1]);
        }
    }
}

/// What a sink adds for a table, folded.
spec fn side_added(h: u64, key: i32) -> spec_fn(JoinHashTable, u64) -> u64 {
    |t: JoinHashTable, acc: u64| side_sum(t, h, key).wrapping_add(acc)
}

proof fn lemma_sides_folded(tables: Seq<JoinHashTable>, h: u64, key: i32, acc: u64)
    ensures
        checksum::wrapping_sum(
            checksum::gather(lookup_words(tables, h, key), 0, tables.len() as int),
        ).wrapping_add(acc) == tables.fold_right(side_added(h, key), acc),
    decreases tables.len(),
{
    if tables.len() > 0 {
        let prev = tables.drop_last();
        let t = tables.last();
        lemma_sides_folded(prev, h, key, side_added(h, key)(t, acc));
        lemma_lookup_push(prev, t, h, key);
        assert(prev.push(t) =~= tables);
    }
}

/// The order of the tables does not matter to the sink that looks keys up.
pub proof fn law_key_sink_any_order(
    a: Seq<JoinHashTable>,
    b: Seq<JoinHashTable>,
    ks: Seq<i32>,
    hs: Seq<u64>,
)
    requires
        permute::permuted(a, b),
        ks.len() == hs.len(),
    ensures
        checksum::wrapping_sum(checksum::gather(key_words(a, ks, hs), 0, ks.len() as int))
            == checksum::wrapping_sum(checksum::gather(key_words(b, ks, hs), 0, ks.len() as int)),
    decreases ks.len(),
{
    if ks.len() > 0 {
        let k = ks.last();
        let h = hs.last();
        law_key_sink_any_order(a, b, ks.drop_last(), hs.drop_last());
        law_key_sink_by_key(a, ks.drop_last(), hs.drop_last(), k, h);
        law_key_sink_by_key(b, ks.drop_last(), hs.drop_last(), k, h);
        assert(ks.drop_last().push(k) =~= ks);
        assert(hs.drop_last().push(h) =~= hs);
        lemma_one_key(a, k, h);
        lemma_one_key(b, k, h);
        let f = side_added(h, k);
        assert forall|x: JoinHashTable, y: JoinHashTable, v: u64| #[trigger] f(x, f(y, v)) == f(
            y,
            f(x, v),
        ) by {}
        vstd::seq_lib::lemma_fold_right_permutation(a, b, f, 0);
        lemma_sides_folded(a, h, k, 0);
        lemma_sides_folded(b, h, k, 0);
    }
}

/// Replacing what is read for one of five slots changes the sum by the difference.
proof fn lemma_slot_replaced(
    a: spec_fn(int) -> Seq<u64>,
    b: spec_fn(int) -> Seq<u64>,
    s: int,
    n: int,
)
    requires
        0 <= s < n,
        forall|t: int| 0 <= t < n && t != s ==> #[trigger] a(t) == b(t),
    ensures
        checksum::wrapping_sum(checksum::gather(b, 0, n)).wrapping_add(
            checksum::wrapping_sum(a(s)),
        ) == checksum::wrapping_sum(checksum::gather(a, 0, n)).wrapping_add(
            checksum::wrapping_sum(b(s)),
        ),
    decreases n,
{
    checksum::lemma_wrapping_sum_concat(checksum::gather(a, 0, n - 1), a(n - 1));
    checksum::lemma_wrapping_sum_concat(checksum::gather(b, 0, n - 1), b(n - 1));
    if s < n - 1 {
        lemma_slot_replaced(a, b, s, n - 1);
    } else {
        checksum::lemma_gather_same(a, b, 0, n - 1);
    }
}

/// Five slots that are not set add the sentinel five times.
proof fn lemma_five_sentinels(a: spec_fn(int) -> Seq<u64>)
    requires
        forall|t: int| 0 <= t < 5 ==> #[trigger] a(t) == seq![SENTINEL],
    ensures
        checksum::wrapping_sum(checksum::gather(a, 0, 5)) == (5 * 0xDEAD_BEEF_CAFE_BABE)
            % 0x1_0000_0000_0000_0000,
{
    lemma_sentinel();
    reveal_with_fuel(checksum::gather, 6);
    checksum::lemma_wrapping_sum_concat(checksum::gather(a, 0, 0), a(0));
    checksum::lemma_wrapping_sum_concat(checksum::gather(a, 0, 1), a(1));
    checksum::lemma_wrapping_sum_concat(checksum::gather(a, 0, 2), a(2));
    checksum::lemma_wrapping_sum_concat(checksum::gather(a, 0, 3), a(3));
    checksum::lemma_wrapping_sum_concat(checksum::gather(a, 0, 4), a(4));
}

/// What the sink that follows addresses adds for one row of a chain.
proof fn lemma_one_row(words: spec_fn(int) -> Seq<u64>)
    ensures
        checksum::gather(words, 0, 1) == words(0),
{
    assert(checksum::gather(words, 0, 0) =~= Seq::empty());
    assert(checksum::gather(words, 0, 1) =~= words(0));
}

/// The sink that follows addresses adds up what it reads for each row of a chain: one
/// more row adds what it gives when it is the only one.
pub proof fn law_address_sink_by_row(
    tables: Seq<JoinHashTable>,
    chain: Seq<ChainRow>,
    row: ChainRow,
)
    ensures
        checksum::wrapping_sum(
            checksum::gather(
                chain_words(tables, chain.push(row)),
                0,
                (chain.len() + 1) as int,
            ),
        ) == checksum::wrapping_sum(
            checksum::gather(chain_words(tables, chain), 0, chain.len() as int),
        ).wrapping_add(
            checksum::wrapping_sum(checksum::gather(chain_words(tables, seq![row]), 0, 1)),
        ),
        checksum::wrapping_sum(
            checksum::gather(chain_words(tables, Seq::<ChainRow>::empty()), 0, 0),
        ) == 0,
{
    let n = chain.len() as int;
    let all = chain_words(tables, chain.push(row));
    let some = chain_words(tables, chain);
    assert forall|i: int| 0 <= i < n implies #[trigger] all(i) == some(i) by {}
    checksum::lemma_gather_same(all, some, 0, n);
    lemma_one_row(chain_words(tables, seq![row]));
    checksum::lemma_wrapping_sum_concat(checksum::gather(all, 0, n), all(n));
}

/// A row of a chain without addresses adds the sentinel for each of its five slots.
/// Setting a slot, whichever it is, to the address of a row of its table takes one
/// sentinel away and adds the columns of that row.
pub proof fn law_address_sink_by_slot(
    tables: Seq<JoinHashTable>,
    before: ChainRow,
    after: ChainRow,
    s: int,
    r: int,
)
    requires
        0 <= s < 5,
        s < tables.len(),
        tables[s].wf(),
        0 <= r < tables[s].rows(),
        before.ptrs@[s] == 0,
        after.ptrs@ == before.ptrs@.update(
            s,
            row::row_address(r, tables[s].row_size()) as u64,
        ),
    ensures
        checksum::wrapping_sum(
            checksum::gather(chain_words(tables, seq![after]), 0, 1),
        ).wrapping_add(0xDEAD_BEEF_CAFE_BABEu64) == checksum::wrapping_sum(
            checksum::gather(chain_words(tables, seq![before]), 0, 1),
        ).wrapping_add(checksum::wrapping_sum(data_words(tables[s], r))),
        (forall|t: int| 0 <= t < 5 ==> #[trigger] before.ptrs@[t] == 0) ==> checksum::wrapping_sum(
            checksum::gather(chain_words(tables, seq![before]), 0, 1),
        ) == (5 * 0xDEAD_BEEF_CAFE_BABE) % 0x1_0000_0000_0000_0000,
{
    let a = slot_words(tables, before.ptrs@);
    let b = slot_words(tables, after.ptrs@);
    ht::law_row_address(tables[s], r);
    lemma_sentinel();
    assert forall|t: int| 0 <= t < 5 && t != s implies #[trigger] a(t) == b(t) by {
        assert(after.ptrs@[t] == before.ptrs@[t]);
    }
    assert(b(s) == data_words(tables[s], r));
    lemma_slot_replaced(a, b, s, 5);
    lemma_one_row(chain_words(tables, seq![after]));
    lemma_one_row(chain_words(tables, seq![before]));
    if forall|t: int| 0 <= t < 5 ==> #[trigger] before.ptrs@[t] == 0 {
        assert forall|t: int| 0 <= t < 5 implies #[trigger] a(t) == seq![SENTINEL] by {
            assert(before.ptrs@[t] == 0);
        }
        lemma_five_sentinels(a);
    }
}

/// What a sink reads of a row of a table that keeps its data in columns is what it
/// reads of the row of the record batch where the row lies.
pub proof fn law_table_words(t: TableData, b: int, i: int)
    requires
        t.wf(),
        0 <= b < t.batches@.len(),
        0 <= i < t.batches@[b].n_rows,
    ensures
        t.boundaries@[b] + i < t.ht.rows(),
        t.ht.keys()[t.boundaries@[b] + i] == t.batches@[b].k@[i],
        table_words(t, t.boundaries@[b] + i) == checksum::row_words(t.batches@[b], i),
{
    let all = t.batches@;
    assert(all.len() == t.batches.len());
    let at = (b as usize, i as usize);
    assert(t.boundaries@[b] == io::table_rows(all.take(b)));
    io::law_locate(t.boundaries@, all, b as usize, i as usize);
    io::lemma_table_key(all, b, i);
    let r = t.boundaries@[b] + i;
    assert(io::located(t.boundaries@, r, at));
    assert(io::located(t.boundaries@, r, place(t, r)));
}

/// The sink over tables that keep their data in columns adds up what it reads for each
/// row of a chain: one more row adds what it gives when it is the only one.
pub proof fn law_table_sink_by_row(tables: Seq<TableData>, chain: Seq<ChainRow>, row: ChainRow)
    ensures
        checksum::wrapping_sum(
            checksum::gather(
                table_chain_words(tables, chain.push(row)),
                0,
                (chain.len() + 1) as int,
            ),
        ) == checksum::wrapping_sum(
            checksum::gather(table_chain_words(tables, chain), 0, chain.len() as int),
        ).wrapping_add(
            checksum::wrapping_sum(
                checksum::gather(table_chain_words(tables, seq![row]), 0, 1),
            ),
        ),
        checksum::wrapping_sum(
            checksum::gather(table_chain_words(tables, Seq::<ChainRow>::empty()), 0, 0),
        ) == 0,
{
    let n = chain.len() as int;
    let all = table_chain_words(tables, chain.push(row));
    let some = table_chain_words(tables, chain);
    assert forall|i: int| 0 <= i < n implies #[trigger] all(i) == some(i) by {}
    checksum::lemma_gather_same(all, some, 0, n);
    lemma_one_row(table_chain_words(tables, seq![row]));
    checksum::lemma_wrapping_sum_concat(checksum::gather(all, 0, n), all(n));
}

/// What is read for the slots of one row over tables that keep their data in columns:
/// without addresses the sentinel for each of the five slots; setting a slot,
/// whichever it is, to the address of a row of its table takes one sentinel away and
/// adds the columns of that row.
pub proof fn law_ptrs_words_by_slot(
    tables: Seq<TableData>,
    ptrs: Seq<u64>,
    s: int,
    r: int,
)
    requires
        ptrs.len() == 5,
        0 <= s < 5,
        s < tables.len(),
        tables[s].wf(),
        0 <= r < tables[s].ht.rows(),
        ptrs[s] == 0,
    ensures
        checksum::wrapping_sum(
            ptrs_words(
                tables,
                ptrs.update(s, row::row_address(r, tables[s].ht.row_size()) as u64),
            ),
        ).wrapping_add(0xDEAD_BEEF_CAFE_BABEu64) == checksum::wrapping_sum(
            ptrs_words(tables, ptrs),
        ).wrapping_add(checksum::wrapping_sum(table_words(tables[s], r))),
        (forall|t: int| 0 <= t < 5 ==> #[trigger] ptrs[t] == 0) ==> checksum::wrapping_sum(
            ptrs_words(tables, ptrs),
        ) == (5 * 0xDEAD_BEEF_CAFE_BABE) % 0x1_0000_0000_0000_0000,
{
    let set = ptrs.update(s, row::row_address(r, tables[s].ht.row_size()) as u64);
    let a = table_slot_words(tables, ptrs);
    let b = table_slot_words(tables, set);
    ht::law_row_address(tables[s].ht, r);
    lemma_sentinel();
    assert forall|t: int| 0 <= t < 5 && t != s implies #[trigger] a(t) == b(t) by {
        assert(set[t] == ptrs[t]);
    }
    assert(b(s) == table_words(tables[s], r));
    lemma_slot_replaced(a, b, s, 5);
    if forall|t: int| 0 <= t < 5 ==> #[trigger] ptrs[t] == 0 {
        assert forall|t: int| 0 <= t < 5 implies #[trigger] a(t) == seq![SENTINEL] by {
            assert(ptrs[t] == 0);
        }
        lemma_five_sentinels(a);
    }
}

/// The sink over tables that keep their data in columns, for one row of a chain:
/// setting a slot, whichever it is, to the address of a row of its table takes one
/// sentinel away and adds the columns of that row.
pub proof fn law_table_sink_by_slot(
    tables: Seq<TableData>,
    before: ChainRow,
    after: ChainRow,
    s: int,
    r: int,
)
    requires
        0 <= s < 5,
        s < tables.len(),
        tables[s].wf(),
        0 <= r < tables[s].ht.rows(),
        before.ptrs@[s] == 0,
        after.ptrs@ == before.ptrs@.update(
            s,
            row::row_address(r, tables[s].ht.row_size()) as u64,
        ),
    ensures
        checksum::wrapping_sum(
            checksum::gather(table_chain_words(tables, seq![after]), 0, 1),
        ).wrapping_add(0xDEAD_BEEF_CAFE_BABEu64) == checksum::wrapping_sum(
            checksum::gather(table_chain_words(tables, seq![before]), 0, 1),
        ).wrapping_add(checksum::wrapping_sum(table_words(tables[s], r))),
        (forall|t: int| 0 <= t < 5 ==> #[trigger] before.ptrs@[t] == 0) ==> checksum::wrapping_sum(
            checksum::gather(table_chain_words(tables, seq![before]), 0, 1),
        ) == (5 * 0xDEAD_BEEF_CAFE_BABE) % 0x1_0000_0000_0000_0000,
{
    law_ptrs_words_by_slot(tables, before.ptrs@, s, r);
    lemma_one_row(table_chain_words(tables, seq![after]));
    lemma_one_row(table_chain_words(tables, seq![before]));
}

/// Swapping two tables together with their slots leaves what is read for a row as it
/// was.
pub proof fn law_slots_swapped(tables: Seq<TableData>, ptrs: Seq<u64>, s: int, t: int)
    requires
        tables.len() == 5,
        ptrs.len() == 5,
        0 <= s < t < 5,
    ensures
        checksum::wrapping_sum(
            ptrs_words(
                tables.update(s, tables[t]).update(t, tables[s]),
                ptrs.update(s, ptrs[t]).update(t, ptrs[s]),
            ),
        ) == checksum::wrapping_sum(ptrs_words(tables, ptrs)),
{
    let tables2 = tables.update(s, tables[t]).update(t, tables[s]);
    let ptrs2 = ptrs.update(s, ptrs[t]).update(t, ptrs[s]);
    let a = table_slot_words(tables, ptrs);
    let b = table_slot_words(tables2, ptrs2);
    let mid = |i: int|
        if i == s {
            b(s)
        } else {
            a(i)
        };
    assert(b(s) == a(t) && b(t) == a(s));
    assert forall|i: int| 0 <= i < 5 && i != s implies #[trigger] a(i) == mid(i) by {}
    assert forall|i: int| 0 <= i < 5 && i != t implies #[trigger] mid(i) == b(i) by {
        assert(ptrs2[i] == ptrs[i] || i == s);
    }
    lemma_slot_replaced(a, mid, s, 5);
    lemma_slot_replaced(mid, b, t, 5);
}

/// Tables behind references are the tables themselves, in their order.
pub proof fn law_tables_behind(refs: Seq<&TableData>, t: int)
    requires
        0 <= t < refs.len(),
    ensures
        tables_behind(refs).len() == refs.len(),
        tables_behind(refs)[t] == *refs[t],
{
}

} // verus!
