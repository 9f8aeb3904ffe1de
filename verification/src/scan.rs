//! The ends of a pipeline over tables that keep their data in columns: a source
//! that scans a table batch by batch, and a sink that reads the columns of the rows
//! that come out and folds them into a checksum.

use crate::checksum;
use crate::hash;
use crate::ht;
use crate::io;
use crate::io::TableData;
use crate::pipeline;
use crate::pipeline::{Batch, Sink, Source};
use crate::row_chain;
use crate::row_chain::SLOTS;
use crate::sink;
use crate::sink::ptrs_sum;
use std::sync::Arc;
use vstd::prelude::*;

verus! {

/// What record batch `b` of a table becomes in a pipeline: for each of its rows
/// the key, the hash, and the address of the row in the slot of the table.
pub open spec fn scan_rows(t: &TableData, slot: int, b: int) -> Seq<(i32, u64, Seq<u64>)> {
    Seq::new(
        t.batches@[b].n_rows as nat,
        |i: int|
            (
                t.batches@[b].k@[i],
                t.ht.hashes()[t.boundaries@[b] + i],
                row_chain::one_slot(slot, row_chain::slot_addr(t.ht, t.boundaries@[b] + i)),
            ),
    )
}

/// A source that hands out the record batches of a table.
pub struct ParquetScanSource {
    pub table: Arc<TableData>,
    /// The slot that the addresses of the rows of this table go to.
    pub slot_idx: usize,
    pub global: ParquetScanGlobal,
}

pub struct ParquetScanGlobal {
    /// The next record batch.
    pub next_rg: usize,
}

pub struct ParquetScanLocal;

impl Default for ParquetScanLocal {
    fn default() -> Self {
        ParquetScanLocal
    }
}

impl ParquetScanSource {
    /// A source over all record batches of a table.
    pub fn new(table: Arc<TableData>, slot_idx: usize) -> (s: Self)
        ensures
            s.table == table,
            s.slot_idx == slot_idx,
            s.global.next_rg == 0,
    {
        ParquetScanSource { table, slot_idx, global: ParquetScanGlobal { next_rg: 0 } }
    }
}

impl Source for ParquetScanSource {
    type Global = ParquetScanGlobal;

    type Local = ParquetScanLocal;

    open spec fn ready(&self) -> bool {
        &&& self.table.wf()
        &&& self.slot_idx < SLOTS
    }

    open spec fn remaining(&self) -> Seq<Seq<(i32, u64, Seq<u64>)>> {
        let n = self.table.batches@.len();
        let from = if self.global.next_rg <= n {
            self.global.next_rg as int
        } else {
            n as int
        };
        Seq::new(
            (n - from) as nat,
            |i: int| scan_rows(&*self.table, self.slot_idx as int, from + i),
        )
    }

    open spec fn gives(
        &self,
        local: ParquetScanLocal,
        b: Option<Batch>,
        after: Self,
        local_after: ParquetScanLocal,
    ) -> bool {
        &&& after.table == self.table
        &&& after.slot_idx == self.slot_idx
        &&& after.global.next_rg == (if self.global.next_rg < usize::MAX {
            (self.global.next_rg + 1) as usize
        } else {
            usize::MAX
        })
        &&& match b {
            Some(batch) => {
                &&& self.global.next_rg < self.table.batches@.len()
                &&& batch.wf()
                &&& batch.rows() == scan_rows(
                    &*self.table,
                    self.slot_idx as int,
                    self.global.next_rg as int,
                )
            },
            None => self.global.next_rg >= self.table.batches@.len(),
        }
    }

    fn global_state(&self) -> (g: &ParquetScanGlobal)
        ensures
            *g == self.global,
    {
        &self.global
    }

    fn get_data(&mut self, local: &mut ParquetScanLocal) -> (b: Option<Batch>) {
        let rg_idx: usize = self.global.next_rg;
        self.global.next_rg = rg_idx.saturating_add(1);
        if rg_idx >= self.table.batches.len() {
            return None;
        }
        let ghost all = old(self).remaining();
        let ghost rows = scan_rows(&*self.table, self.slot_idx as int, rg_idx as int);
        proof {
            assert(all[0] == rows);
            assert(self.remaining() =~= all.skip(1));
        }
        let table: &TableData = &self.table;
        let slot: usize = self.slot_idx;
        let row_start: usize = table.boundaries[rg_idx] as usize;
        let hashes: &[u64] = table.ht.hashes_base_addr_const();
        let n: usize = table.batches[rg_idx].n_rows;
        let total: usize = table.ht.n_rows();
        proof {
            io::lemma_batch_in_table(*table, rg_idx as int);
        }
        let mut out: Batch = Batch::default();
        let mut i: usize = 0;
        assert(rows.take(0) =~= Seq::empty());
        while i < n
            invariant
                i <= n,
                table.wf(),
                slot < SLOTS,
                rg_idx < table.batches@.len(),
                n == table.batches@[rg_idx as int].n_rows,
                row_start == table.boundaries@[rg_idx as int],
                row_start + n <= total,
                total == table.ht.rows(),
                hashes@ == table.ht.hashes(),
                rows == scan_rows(table, slot as int, rg_idx as int),
                out.wf(),
                out.rows() == rows.take(i as int),
            decreases n - i,
        {
            proof {
                assert(table.batches@[rg_idx as int].ok());
                io::lemma_table_lens(*table);
            }
            let abs: usize = row_start + i;
            let mut ptrs: [u64; 5] = [0u64; 5];
            let p: u64 = table.ht.row_addr(abs) as u64;
            ptrs[slot] = p;
            proof {
                assert(ptrs@ =~= row_chain::one_slot(
                    slot as int,
                    row_chain::slot_addr(table.ht, abs as int),
                ));
            }
            out.push(table.batches[rg_idx].k[i], hashes[abs], ptrs);
            assert(out.rows() =~= rows.take(i + 1));
            i += 1;
        }
        assert(rows.take(n as int) =~= rows);
        Some(out)
    }
}

/// What the first `b` record batches of a table become.
spec fn scan_batches(t: &TableData, slot: int, b: nat) -> Seq<Seq<(i32, u64, Seq<u64>)>> {
    Seq::new(b, |i: int| scan_rows(t, slot, i))
}

/// What a table becomes in a pipeline: for each of its rows the key, its hash, and
/// the address of the row in the slot of the table.
pub open spec fn table_scan(t: &TableData, slot: int) -> Seq<(i32, u64, Seq<u64>)> {
    Seq::new(
        t.ht.rows(),
        |r: int|
            (
                t.ht.keys()[r],
                t.ht.hashes()[r],
                row_chain::one_slot(slot, row_chain::slot_addr(t.ht, r)),
            ),
    )
}

proof fn lemma_scanned(t: &TableData, slot: int, b: nat)
    requires
        t.wf(),
        b <= t.batches@.len(),
    ensures
        pipeline::all_rows(scan_batches(t, slot, b)) == table_scan(t, slot).take(
            t.boundaries@[b as int] as int,
        ),
        t.boundaries@[b as int] <= t.ht.rows(),
    decreases b,
{
    let all = t.batches@;
    let got = pipeline::all_rows(scan_batches(t, slot, b));
    if b > 0 {
        let b1 = (b - 1) as nat;
        lemma_scanned(t, slot, b1);
        io::lemma_batch_in_table(*t, b1 as int);
        let start = t.boundaries@[b1 as int] as int;
        let end = t.boundaries@[b as int] as int;
        io::lemma_next_boundary(*t, b1 as int);
        assert(scan_batches(t, slot, b).drop_last() =~= scan_batches(t, slot, b1));
        let more = scan_rows(t, slot, b1 as int);
        let want = table_scan(t, slot);
        assert forall|i: int| 0 <= i < more.len() implies #[trigger] more[i] == want[start + i] by {
            io::lemma_table_key(all, b1 as int, i);
            assert(t.boundaries@[b1 as int] == io::table_rows(all.take(b1 as int)));
        }
        assert(want.take(start) + more =~= want.take(end));
    } else {
        io::lemma_first_boundary(*t);
        assert(got =~= table_scan(t, slot).take(0));
    }
}

/// A scan hands out every row of the table once, in the order of the rows.
pub proof fn law_scan_complete(s: ParquetScanSource)
    requires
        s.ready(),
        s.global.next_rg == 0,
    ensures
        pipeline::all_rows(s.remaining()) == table_scan(&*s.table, s.slot_idx as int),
{
    let t = &*s.table;
    let n = t.batches@.len();
    lemma_scanned(t, s.slot_idx as int, n);
    assert(s.remaining() =~= scan_batches(t, s.slot_idx as int, n));
    assert(t.batches@.take(n as int) =~= t.batches@);
    assert(t.boundaries@[n as int] == io::table_rows(t.batches@.take(n as int)));
    assert(table_scan(t, s.slot_idx as int).take(t.ht.rows() as int) =~= table_scan(
        t,
        s.slot_idx as int,
    ));
}

/// What the sink reads for some rows, one after the other.
pub open spec fn sunk_words(tables: Seq<TableData>, rows: Seq<(i32, u64, Seq<u64>)>) -> Seq<u64>
    decreases rows.len(),
{
    if rows.len() == 0 {
        Seq::empty()
    } else {
        sunk_words(tables, rows.drop_last()) + sink::ptrs_words(tables, rows.last().2)
    }
}

pub proof fn lemma_sunk_concat(
    tables: Seq<TableData>,
    a: Seq<(i32, u64, Seq<u64>)>,
    b: Seq<(i32, u64, Seq<u64>)>,
)
    ensures
        sunk_words(tables, a + b) == sunk_words(tables, a) + sunk_words(tables, b),
    decreases b.len(),
{
    if b.len() == 0 {
        assert(a + b =~= a);
        assert(sunk_words(tables, a) + sunk_words(tables, b) =~= sunk_words(tables, a));
    } else {
        lemma_sunk_concat(tables, a, b.drop_last());
        assert((a + b).drop_last() =~= a + b.drop_last());
        assert(sunk_words(tables, a + b) =~= sunk_words(tables, a) + sunk_words(tables, b));
    }
}

/// A sink that reads the columns of the rows whose addresses come in.
pub struct ChecksumSinkOp {
    /// The tables, in the order of the slots.
    pub tables: Vec<Arc<TableData>>,
    pub global: ChecksumGlobal,
}

pub struct ChecksumGlobal {
    pub checksum: u64,
    pub rows_sunk: usize,
}

pub struct ChecksumLocal {
    pub checksum: u64,
    pub rows: usize,
}

impl Default for ChecksumLocal {
    fn default() -> (l: Self)
        ensures
            l.checksum == 0,
            l.rows == 0,
    {
        ChecksumLocal { checksum: 0, rows: 0 }
    }
}

/// The tables that are shared.
pub open spec fn shared_tables(tables: Seq<Arc<TableData>>) -> Seq<TableData> {
    tables.map_values(|t: Arc<TableData>| *t)
}

impl ChecksumSinkOp {
    /// The tables, in the order of the slots.
    pub open spec fn all_tables(self) -> Seq<TableData> {
        shared_tables(self.tables@)
    }

    /// A sink over the given tables that has read nothing.
    pub fn new(tables: Vec<Arc<TableData>>) -> (s: Self)
        requires
            forall|t: int|
                0 <= t < tables@.len() ==> (#[trigger] shared_tables(tables@)[t]).wf(),
        ensures
            s.tables == tables,
            s.has(Seq::<(i32, u64, Seq<u64>)>::empty()),
    {
        ChecksumSinkOp { tables, global: ChecksumGlobal { checksum: 0, rows_sunk: 0 } }
    }

    /// The checksum and the number of rows.
    pub fn finish(&self) -> (r: (u64, usize))
        ensures
            r.0 == self.global.checksum,
            r.1 == self.global.rows_sunk,
    {
        (self.global.checksum, self.global.rows_sunk)
    }

    /// References to the tables.
    fn table_refs(&self) -> (refs: Vec<&TableData>)
        ensures
            sink::tables_behind(refs@) == self.all_tables(),
    {
        let mut refs: Vec<&TableData> = Vec::new();
        let mut t: usize = 0;
        while t < self.tables.len()
            invariant
                t <= self.tables@.len(),
                sink::tables_behind(refs@) == self.all_tables().take(t as int),
            decreases self.tables@.len() - t,
        {
            let ghost before = refs@;
            let table: &TableData = &self.tables[t];
            refs.push(table);
            proof {
                assert(sink::tables_behind(refs@) =~= sink::tables_behind(before).push(*table));
                assert(self.all_tables().take(t + 1) =~= self.all_tables().take(t as int).push(
                    *table,
                ));
            }
            t += 1;
        }
        assert(self.all_tables().take(t as int) =~= self.all_tables());
        refs
    }
}

impl Sink for ChecksumSinkOp {
    type Global = ChecksumGlobal;

    type Local = ChecksumLocal;

    open spec fn local_has(&self, local: ChecksumLocal, rows: Seq<(i32, u64, Seq<u64>)>) -> bool {
        &&& local.checksum == checksum::wrapping_sum(sunk_words(self.all_tables(), rows))
        &&& local.rows == rows.len()
    }

    open spec fn has(&self, rows: Seq<(i32, u64, Seq<u64>)>) -> bool {
        &&& forall|t: int|
            0 <= t < self.all_tables().len() ==> (#[trigger] self.all_tables()[t]).wf()
        &&& self.global.checksum == checksum::wrapping_sum(sunk_words(self.all_tables(), rows))
        &&& self.global.rows_sunk == rows.len()
    }

    open spec fn finished(&self, rows: Seq<(i32, u64, Seq<u64>)>) -> bool {
        self.has(rows)
    }

    open spec fn can_take(&self, rows: Seq<(i32, u64, Seq<u64>)>) -> bool {
        &&& rows.len() <= usize::MAX
        &&& forall|t: int|
            0 <= t < self.all_tables().len() ==> (#[trigger] self.all_tables()[t]).wf()
        &&& forall|i: int|
            0 <= i < rows.len() ==> sink::table_slots_ok(
                self.all_tables(),
                (#[trigger] rows[i]).2,
            )
    }

    open spec fn continues(&self, before: Self) -> bool {
        self.tables == before.tables
    }

    open spec fn takes(&self, local: ChecksumLocal, batch: Batch, after: ChecksumLocal) -> bool {
        &&& after.checksum == local.checksum.wrapping_add(
            checksum::wrapping_sum(sunk_words(self.all_tables(), batch.rows())),
        )
        &&& after.rows == local.rows + batch.rows().len()
    }

    open spec fn combined(&self, before: Self, local: ChecksumLocal) -> bool {
        &&& self.tables == before.tables
        &&& self.global.checksum == before.global.checksum.wrapping_add(local.checksum)
        &&& self.global.rows_sunk == before.global.rows_sunk + local.rows
    }

    proof fn continues_itself(&self) {
    }

    proof fn continues_on(&self, between: Self, before: Self) {
    }

    proof fn fresh_local(&self, local: ChecksumLocal) {
    }

    proof fn takes_parts(
        &self,
        a: Seq<(i32, u64, Seq<u64>)>,
        b: Seq<(i32, u64, Seq<u64>)>,
        c: Seq<(i32, u64, Seq<u64>)>,
    ) {
        let all = a + b + c;
        assert forall|i: int| 0 <= i < b.len() implies sink::table_slots_ok(
            self.all_tables(),
            (#[trigger] b[i]).2,
        ) by {
            assert(all[a.len() + i] == b[i]);
        }
        assert forall|i: int| 0 <= i < (a + b).len() implies sink::table_slots_ok(
            self.all_tables(),
            (#[trigger] (a + b)[i]).2,
        ) by {
            assert(all[i] == (a + b)[i]);
        }
    }

    fn global_state(&self) -> (g: &ChecksumGlobal)
        ensures
            *g == self.global,
    {
        &self.global
    }

    fn sink(&self, batch: Batch, local: &mut ChecksumLocal) {
        let ghost tables = self.all_tables();
        let ghost taken = choose|rows: Seq<(i32, u64, Seq<u64>)>|
            #[trigger] self.local_has(*old(local), rows) && self.can_take(rows + batch.rows());
        let ghost rows = batch.rows();
        let refs: Vec<&TableData> = self.table_refs();
        let n: usize = batch.len();
        let mut sum: u64 = 0;
        let mut i: usize = 0;
        proof {
            assert forall|t: int| 0 <= t < refs@.len() implies (#[trigger] refs@[t]).wf() by {
                assert(sink::tables_behind(refs@)[t] == *refs@[t]);
                assert(tables[t].wf());
            }
            assert forall|i: int| 0 <= i < rows.len() implies sink::table_slots_ok(
                tables,
                (#[trigger] rows[i]).2,
            ) by {
                assert((taken + rows)[taken.len() + i] == rows[i]);
            }
            assert(rows.take(0) =~= Seq::empty());
        }
        while i < n
            invariant
                i <= n,
                n == rows.len(),
                rows == batch.rows(),
                batch.wf(),
                tables == sink::tables_behind(refs@),
                forall|t: int| 0 <= t < refs@.len() ==> (#[trigger] refs@[t]).wf(),
                forall|i: int|
                    0 <= i < rows.len() ==> sink::table_slots_ok(tables, (#[trigger] rows[i]).2),
                sum == checksum::wrapping_sum(sunk_words(tables, rows.take(i as int))),
            decreases n - i,
        {
            proof {
                assert(rows.take(i + 1).drop_last() =~= rows.take(i as int));
                assert(sink::table_slots_ok(tables, rows[i as int].2));
                checksum::lemma_wrapping_sum_concat(
                    sunk_words(tables, rows.take(i as int)),
                    sink::ptrs_words(tables, rows[i as int].2),
                );
            }
            sum = sum.wrapping_add(ptrs_sum(refs.as_slice(), batch.ptrs[i]));
            i += 1;
        }
        local.checksum = local.checksum.wrapping_add(sum);
        local.rows = local.rows + n;
        proof {
            assert(rows.take(n as int) =~= rows);
            assert forall|r: Seq<(i32, u64, Seq<u64>)>| #[trigger] self.local_has(
                *old(local),
                r,
            ) implies self.local_has(*local, r + rows) by {
                lemma_sunk_concat(tables, r, rows);
                checksum::lemma_wrapping_sum_concat(
                    sunk_words(tables, r),
                    sunk_words(tables, rows),
                );
            }
        }
    }

    fn combine(&mut self, local: ChecksumLocal) {
        let ghost tables = self.all_tables();
        self.global.checksum = self.global.checksum.wrapping_add(local.checksum);
        self.global.rows_sunk = self.global.rows_sunk + local.rows;
        proof {
            assert forall|b: Seq<(i32, u64, Seq<u64>)>, r: Seq<(i32, u64, Seq<u64>)>|
                #[trigger] old(self).has(b) && #[trigger] old(self).local_has(
                    local,
                    r,
                ) implies self.has(b + r) by {
                lemma_sunk_concat(tables, b, r);
                checksum::lemma_wrapping_sum_concat(sunk_words(tables, b), sunk_words(tables, r));
            }
        }
    }

    fn finalize(&mut self) {
    }
}

/// The sink of a pipeline reads, for the rows of a chain, what the sink of the
/// chain reads: both give the same checksum.
pub proof fn law_sinks_agree(tables: Seq<TableData>, chain: Seq<row_chain::ChainRow>)
    ensures
        sunk_words(tables, row_chain::rows_of(chain)) == checksum::gather(
            sink::table_chain_words(tables, chain),
            0,
            chain.len() as int,
        ),
    decreases chain.len(),
{
    let rows = row_chain::rows_of(chain);
    let words = sink::table_chain_words(tables, chain);
    if chain.len() > 0 {
        let prev = chain.drop_last();
        law_sinks_agree(tables, prev);
        assert(rows.drop_last() =~= row_chain::rows_of(prev));
        let before = sink::table_chain_words(tables, prev);
        assert forall|i: int| 0 <= i < prev.len() implies #[trigger] before(i) == words(i) by {
            assert(prev[i] == chain[i]);
        }
        checksum::lemma_gather_same(before, words, 0, prev.len() as int);
    }
}

/// A scan gives row `r` of a table with its key, the hash of the key, and, in the slot
/// of the table alone, the address of the row.
pub proof fn law_scanned_row(t: TableData, slot: int, r: int, s: int)
    requires
        t.wf(),
        0 <= slot < 5,
        0 <= r < t.ht.rows(),
        0 <= s < 5,
    ensures
        table_scan(&t, slot).len() == t.ht.rows(),
        table_scan(&t, slot)[r].0 == t.ht.keys()[r],
        table_scan(&t, slot)[r].1 == hash::murmur64((t.ht.keys()[r] as u32) as u64),
        table_scan(&t, slot)[r].2.len() == 5,
        table_scan(&t, slot)[r].2[s] == (if s == slot {
            64 + r * t.ht.row_size()
        } else {
            0
        }),
{
    ht::law_row_address(t.ht, r);
}

/// A checksum over rows adds up what is read for each row: nothing for no row, and one
/// more row adds what is read for its slots.
pub proof fn law_sunk_by_row(
    tables: Seq<TableData>,
    rows: Seq<(i32, u64, Seq<u64>)>,
    row: (i32, u64, Seq<u64>),
)
    ensures
        checksum::wrapping_sum(
            sunk_words(tables, Seq::<(i32, u64, Seq<u64>)>::empty()),
        ) == 0,
        checksum::wrapping_sum(sunk_words(tables, rows.push(row))) == checksum::wrapping_sum(
            sunk_words(tables, rows),
        ).wrapping_add(checksum::wrapping_sum(sunk_words(tables, seq![row]))),
{
    let none = Seq::<(i32, u64, Seq<u64>)>::empty();
    lemma_sunk_concat(tables, rows, seq![row]);
    assert(rows + seq![row] =~= rows.push(row));
    checksum::lemma_wrapping_sum_concat(
        sunk_words(tables, rows),
        sunk_words(tables, seq![row]),
    );
}

/// A row without addresses adds the sentinel for each of its five slots. Setting a slot,
/// whichever it is, to the address of row `r` of its table takes one sentinel away and
/// adds the columns of that row.
pub proof fn law_sunk_by_slot(
    tables: Seq<TableData>,
    row: (i32, u64, Seq<u64>),
    s: int,
    r: int,
)
    requires
        row.2.len() == 5,
        0 <= s < 5,
        s < tables.len(),
        tables[s].wf(),
        0 <= r < tables[s].ht.rows(),
        row.2[s] == 0,
    ensures
        ({
            let p = (64 + r * tables[s].ht.row_size()) as u64;
            let set = (row.0, row.1, row.2.update(s, p));
            checksum::wrapping_sum(sunk_words(tables, seq![set])).wrapping_add(
                0xDEAD_BEEF_CAFE_BABEu64,
            ) == checksum::wrapping_sum(sunk_words(tables, seq![row])).wrapping_add(
                checksum::wrapping_sum(sink::table_words(tables[s], r)),
            )
        }),
        (forall|t: int| 0 <= t < 5 ==> #[trigger] row.2[t] == 0) ==> checksum::wrapping_sum(
            sunk_words(tables, seq![row]),
        ) == (5 * 0xDEAD_BEEF_CAFE_BABE) % 0x1_0000_0000_0000_0000,
{
    let p = (64 + r * tables[s].ht.row_size()) as u64;
    let set = (row.0, row.1, row.2.update(s, p));
    sink::law_ptrs_words_by_slot(tables, row.2, s, r);
    lemma_one_sunk(tables, row);
    lemma_one_sunk(tables, set);
}

proof fn lemma_one_sunk(tables: Seq<TableData>, row: (i32, u64, Seq<u64>))
    ensures
        sunk_words(tables, seq![row]) == sink::ptrs_words(tables, row.2),
{
    assert(seq![row].drop_last() =~= Seq::empty());
    assert(sunk_words(tables, seq![row].drop_last()) =~= Seq::empty());
    assert(sunk_words(tables, seq![row]) =~= sink::ptrs_words(tables, row.2));
}

/// A scan hands out record batch by record batch, from the one that is next on: the
/// rows of each with their keys, the hashes of the keys and, in the slot of the table
/// alone, their addresses.
pub proof fn law_scan_batch(source: ParquetScanSource, i: int, r: int, s: int)
    requires
        source.ready(),
        0 <= i < source.remaining().len(),
        0 <= r < source.table.batches@[source.global.next_rg + i].n_rows,
        0 <= s < 5,
    ensures
        ({
            let t = *source.table;
            let b = source.global.next_rg + i;
            let rows = source.remaining()[i];
            &&& source.remaining().len() == t.batches@.len() - source.global.next_rg
            &&& rows.len() == t.batches@[b].n_rows
            &&& rows[r].0 == t.batches@[b].k@[r]
            &&& rows[r].1 == hash::murmur64((t.batches@[b].k@[r] as u32) as u64)
            &&& rows[r].2.len() == 5
            &&& rows[r].2[s] == (if s == source.slot_idx {
                64 + (t.boundaries@[b] + r) * t.ht.row_size()
            } else {
                0
            })
        }),
{
    let t = *source.table;
    let b = source.global.next_rg + i;
    io::law_table_rows(t, b, r);
    ht::law_row_address(t.ht, t.boundaries@[b] + r);
}

/// What a scan does when it is asked for the next batch: it gives the next record batch and
/// goes on by one, or, behind the last one, gives nothing.
pub proof fn law_scan_gives(
    source: ParquetScanSource,
    local: ParquetScanLocal,
    b: Option<Batch>,
    after: ParquetScanSource,
    local_after: ParquetScanLocal,
)
    requires
        source.gives(local, b, after, local_after),
    ensures
        after.table == source.table,
        after.slot_idx == source.slot_idx,
        source.global.next_rg < usize::MAX ==> after.global.next_rg == source.global.next_rg + 1,
        source.global.next_rg == usize::MAX ==> after.global.next_rg == usize::MAX,
        b is Some <==> source.global.next_rg < source.table.batches@.len(),
        b is Some ==> b->0.rows() == source.remaining()[0],
{
}

/// Tables that are shared are the tables themselves, in their order.
pub proof fn law_shared_tables(tables: Seq<Arc<TableData>>, t: int)
    requires
        0 <= t < tables.len(),
    ensures
        shared_tables(tables).len() == tables.len(),
        shared_tables(tables)[t] == *tables[t],
{
}

/// A checksum sink takes in a batch by adding what it reads for the rows and counting
/// them, and a local state by adding both.
pub proof fn law_checksum_sink(
    sink: ChecksumSinkOp,
    local: ChecksumLocal,
    batch: Batch,
    local_after: ChecksumLocal,
    after: ChecksumSinkOp,
)
    ensures
        sink.takes(local, batch, local_after) ==> local_after.checksum == local.checksum.wrapping_add(
            checksum::wrapping_sum(sunk_words(shared_tables(sink.tables@), batch.rows())),
        ) && local_after.rows == local.rows + batch.rows().len(),
        after.combined(sink, local) ==> after.tables == sink.tables && after.global.checksum
            == sink.global.checksum.wrapping_add(local.checksum) && after.global.rows_sunk
            == sink.global.rows_sunk + local.rows,
{
}

/// A checksum sink that has taken in rows holds the sum of what it reads for them, and
/// their number.
pub proof fn law_checksum_of_rows(sink: ChecksumSinkOp, rows: Seq<(i32, u64, Seq<u64>)>)
    requires
        sink.finished(rows),
    ensures
        sink.global.checksum == checksum::wrapping_sum(
            sunk_words(shared_tables(sink.tables@), rows),
        ),
        sink.global.rows_sunk == rows.len(),
{
}

} // verus!
