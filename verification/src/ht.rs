//! The hash table of a hash join: rows in an arena, a pointer table over them.
//!
//! A table is built in three steps: append rows and record their hashes, then
//! `finalize`, which sizes the pointer table and files every row. After that the
//! table can be probed. The join key is an `i32`, the first column of the row.
//!
//! The pointer table has at least twice as many buckets as there are rows, so
//! linear probing always meets an empty bucket.

use crate::bytes;
use crate::bytes::{read_i32, write_bytes, write_i32, write_u64};
use crate::directory;
use crate::directory::Directory;
use crate::hash;
use crate::hash::murmur_hash32;
use crate::ht_entry;
use crate::partition;
use crate::partition::file_by_partition;
use crate::pow2s;
use crate::row;
use crate::row::{PhysType, RowArena, RowLayout, ARENA_BASE, HEADER_SIZE};
use crate::select;
use vstd::arithmetic::power2::*;
use vstd::prelude::*;

verus! {

/// Fewest buckets of a pointer table.
pub const MIN_CAPACITY: usize = 16384;

/// The number of buckets aimed at for `n_rows` rows, before rounding up to a
/// power of two.
pub open spec fn capacity_target(n_rows: int) -> int {
    if 2 * n_rows >= MIN_CAPACITY {
        2 * n_rows
    } else {
        MIN_CAPACITY as int
    }
}

/// Number of buckets for `n_rows` rows: the next power of two of twice the rows,
/// and no fewer than `MIN_CAPACITY`.
pub fn directory_capacity(n_rows: usize) -> (c: usize)
    requires
        2 * n_rows <= usize::MAX / 2 + 1,
    ensures
        pow2s::is_next_power_of_two(c as int, capacity_target(n_rows as int)),
{
    let doubled: usize = n_rows * 2;
    let target: usize = if doubled >= MIN_CAPACITY {
        doubled
    } else {
        MIN_CAPACITY
    };
    pow2s::next_power_of_two(target).0
}

/// Number of buckets for `n_rows` rows; see `directory_capacity`.
pub fn directory_capacity_for(n_rows: usize) -> (c: usize)
    requires
        2 * n_rows <= usize::MAX / 2 + 1,
    ensures
        pow2s::is_next_power_of_two(c as int, capacity_target(n_rows as int)),
{
    directory_capacity(n_rows)
}

/// The pointer table is a power of two large, has no fewer than `MIN_CAPACITY`
/// buckets, and is at most half full; past the minimum it is more than a quarter
/// full.
pub proof fn law_capacity(n_rows: int, c: int)
    requires
        n_rows >= 0,
        pow2s::is_next_power_of_two(c, capacity_target(n_rows)),
    ensures
        row::is_power_of_two(c),
        MIN_CAPACITY == 16384,
        c >= MIN_CAPACITY,
        2 * n_rows <= c,
        n_rows < c,
        c > MIN_CAPACITY ==> c < 4 * n_rows,
{
    lemma2_to64();
    assert(pow2(14) == MIN_CAPACITY);
    assert(row::is_power_of_two(MIN_CAPACITY as int));
    if c > MIN_CAPACITY && c >= 4 * n_rows {
        let k = choose|k: nat| #[trigger] pow2(k) == c;
        if k == 0 {
            assert(false);
        }
        lemma_pow2_unfold(k);
        assert(row::is_power_of_two(pow2((k - 1) as nat) as int));
        assert(false);
    }
}

/// The keys of the first `n` rows of `data`, each at `key_off` in its row.
pub open spec fn keys_of(data: Seq<u8>, n: nat, row_size: int, key_off: int) -> Seq<i32> {
    Seq::new(n, |r: int| bytes::i32_at(data, r * row_size + key_off))
}

/// Hash table of a join: an arena of rows, the hash of each row, and the pointer
/// table over them.
pub struct JoinHashTable {
    arena: RowArena,
    /// Hash of each row, in the order of the rows. Read by `finalize`.
    hashes: Vec<u64>,
    /// Has no bucket until `finalize`.
    directory: Directory,
    /// Offset of the key in a row.
    key_offset: usize,
    finalized: bool,
}

impl JoinHashTable {
    /// The column types of the rows.
    pub closed spec fn types(self) -> Seq<PhysType> {
        self.arena.types()
    }

    /// The bytes of all rows.
    pub closed spec fn data(self) -> Seq<u8> {
        self.arena.data()
    }

    /// Number of rows.
    pub closed spec fn rows(self) -> nat {
        self.arena.rows()
    }

    /// The recorded hashes.
    pub closed spec fn hashes(self) -> Seq<u64> {
        self.hashes@
    }

    /// The pointer table.
    pub closed spec fn dir(self) -> Directory {
        self.directory
    }

    /// Whether the rows have been filed.
    pub closed spec fn is_final(self) -> bool {
        self.finalized
    }

    pub closed spec fn key_off(self) -> int {
        self.key_offset as int
    }

    pub closed spec fn arena_wf(self) -> bool {
        self.arena.wf()
    }

    /// Width of a row in bytes.
    pub open spec fn row_size(self) -> int {
        row::row_width(self.types())
    }

    /// The key of each row.
    pub open spec fn keys(self) -> Seq<i32> {
        keys_of(self.data(), self.rows(), self.row_size(), HEADER_SIZE as int)
    }

    /// Every row is filed in the pointer table, once, under the hash that was
    /// recorded for it; rows with equal hashes were filed in the order of the
    /// rows.
    pub open spec fn all_filed(self) -> bool {
        &&& self.dir().wf(self.data(), self.row_size())
        &&& self.dir().filed().len() == self.rows()
        &&& directory::lists_all(self.dir().order(), self.rows())
        &&& directory::stable(self.dir().order(), self.dir().filed())
        &&& pow2s::is_next_power_of_two(
            self.dir().capacity() as int,
            capacity_target(self.rows() as int),
        )
    }

    /// The key is the first column of the rows; a finalized table has every row
    /// filed, and one that is not has no bucket.
    pub open spec fn wf(self) -> bool {
        &&& self.arena_wf()
        &&& self.data().len() == self.rows() * self.row_size()
        &&& self.data().len() <= isize::MAX
        &&& self.row_size() <= usize::MAX
        &&& self.types().len() > 0
        &&& self.types()[0] == PhysType::I32
        &&& self.key_off() == HEADER_SIZE
        &&& self.is_final() ==> self.all_filed()
        &&& !self.is_final() ==> self.dir().capacity() == 0 && self.dir().index_mask() == 0
    }

    /// An empty table for rows of the given layout, whose first column must be
    /// the `i32` key.
    pub fn new(layout: RowLayout) -> (r: Self)
        requires
            layout.wf(),
            layout.types().len() > 0,
            layout.types()[0] == PhysType::I32,
        ensures
            r.wf(),
            r.types() == layout.types(),
            r.rows() == 0,
            r.data() == Seq::<u8>::empty(),
            r.hashes() == Seq::<u64>::empty(),
            !r.is_final(),
    {
        let key_offset: usize = layout.column_offset(0);
        proof {
            row::law_first_column(layout.types());
        }
        JoinHashTable {
            arena: RowArena::new(layout),
            hashes: Vec::new(),
            directory: Directory::unbuilt(),
            key_offset,
            finalized: false,
        }
    }

    /// The row layout.
    pub fn layout(&self) -> (l: &RowLayout)
        requires
            self.wf(),
        ensures
            l.wf(),
            l.types() == self.types(),
    {
        self.arena.layout()
    }

    /// Sizes the table to exactly `n` zeroed rows and cuts or extends the recorded
    /// hashes, with 0, to `n`. The caller sets every row and every hash before
    /// `finalize`.
    pub fn set_len(&mut self, n: usize)
        requires
            old(self).wf(),
            !old(self).is_final(),
            n * old(self).row_size() <= isize::MAX,
        ensures
            final(self).wf(),
            !final(self).is_final(),
            final(self).types() == old(self).types(),
            final(self).rows() == n,
            final(self).data() == row::zeros(n * old(self).row_size()),
            final(self).hashes() == (if n <= old(self).hashes().len() {
                old(self).hashes().take(n as int)
            } else {
                old(self).hashes() + Seq::new(
                    (n - old(self).hashes().len()) as nat,
                    |i: int| 0u64,
                )
            }),
    {
        let ghost before = self.hashes@;
        self.arena.set_len(n);
        self.hashes.resize(n, 0);
        proof {
            if n > before.len() {
                let target = before + Seq::new((n - before.len()) as nat, |i: int| 0u64);
                assert forall|i: int| 0 <= i < n implies self.hashes@[i] == target[i] by {
                    if i < before.len() {
                        assert(self.hashes@.subrange(0, before.len() as int)[i] == before[i]);
                    }
                }
                assert(self.hashes@ =~= target);
            }
        }
    }

    /// Address of the first row, 0 if there is none.
    pub fn arena_base_addr(&self) -> (a: usize)
        ensures
            a == (if self.data().len() == 0 {
                0
            } else {
                ARENA_BASE as int
            }),
    {
        self.arena.base_addr()
    }

    /// The bytes of all rows, for writing before `finalize`.
    pub fn arena_bytes_mut(&mut self) -> (r: &mut [u8])
        requires
            old(self).wf(),
            !old(self).is_final(),
        ensures
            r@ == old(self).data(),
            final(self).data() == final(r)@,
            final(self).types() == old(self).types(),
            final(self).rows() == old(self).rows(),
            final(self).hashes() == old(self).hashes(),
            !final(self).is_final(),
            final(r)@.len() == r@.len() ==> final(self).wf(),
    {
        self.arena.bytes_mut()
    }

    /// The recorded hashes, for writing.
    pub fn hashes_base_addr(&mut self) -> (r: &mut [u64])
        requires
            old(self).wf(),
        ensures
            r@ == old(self).hashes(),
            final(self).hashes() == final(r)@,
            final(self).types() == old(self).types(),
            final(self).rows() == old(self).rows(),
            final(self).data() == old(self).data(),
            final(self).dir() == old(self).dir(),
            final(self).is_final() == old(self).is_final(),
            final(self).wf(),
    {
        self.hashes.as_mut_slice()
    }

    /// The recorded hashes.
    pub fn hashes_base_addr_const(&self) -> (r: &[u64])
        ensures
            r@ == self.hashes(),
    {
        self.hashes.as_slice()
    }

    /// Offset of the key in a row.
    pub fn key_offset(&self) -> (n: usize)
        requires
            self.wf(),
        ensures
            n == HEADER_SIZE,
            n == 16,
    {
        self.key_offset
    }

    /// Whether the rows have been filed.
    pub fn is_finalized(&self) -> (b: bool)
        ensures
            b == self.is_final(),
    {
        self.finalized
    }

    /// The entries of the pointer table.
    pub fn directory_ptr(&self) -> (e: &[crate::ht_entry::HtEntry])
        ensures
            e@ == self.dir().words(),
    {
        self.directory.entries()
    }

    /// One less than the number of buckets; 0 before `finalize`.
    pub fn capacity_mask(&self) -> (m: usize)
        requires
            self.wf(),
        ensures
            m == (if self.is_final() {
                self.dir().capacity() - 1
            } else {
                0
            }),
    {
        self.directory.mask()
    }

    /// Number of rows.
    pub fn n_rows(&self) -> (n: usize)
        ensures
            n == self.rows(),
    {
        self.arena.len()
    }

    /// Number of buckets; 0 before `finalize`.
    pub fn capacity(&self) -> (n: usize)
        ensures
            n == self.dir().capacity(),
    {
        self.directory.len()
    }

    /// Makes room for `expected_rows` more rows and hashes.
    pub fn reserve(&mut self, expected_rows: usize)
        requires
            old(self).wf(),
            old(self).data().len() + expected_rows * old(self).row_size() <= isize::MAX,
        ensures
            final(self).wf(),
            final(self).types() == old(self).types(),
            final(self).rows() == old(self).rows(),
            final(self).data() == old(self).data(),
            final(self).hashes() == old(self).hashes(),
            final(self).dir() == old(self).dir(),
            final(self).is_final() == old(self).is_final(),
    {
        self.arena.reserve(expected_rows);
        self.hashes.reserve(expected_rows);
    }

    /// Appends `n` zeroed rows and hands out their bytes. The caller writes the
    /// column values and then records the hashes of the rows.
    pub fn append_rows(&mut self, n: usize) -> (r: &mut [u8])
        requires
            old(self).wf(),
            !old(self).is_final(),
            n > 0,
            (old(self).rows() + n) * old(self).row_size() <= isize::MAX,
        ensures
            r@ == row::zeros(n * old(self).row_size()),
            final(self).data() == old(self).data() + final(r)@,
            final(self).rows() == old(self).rows() + n,
            final(self).types() == old(self).types(),
            final(self).hashes() == old(self).hashes(),
            !final(self).is_final(),
            final(r)@.len() == r@.len() ==> final(self).wf(),
    {
        self.arena.append_blank(n)
    }
}

/// `data` after the hashes `hs` were written to the headers of the rows from
/// `first` on.
pub open spec fn stamped(data: Seq<u8>, row_size: int, first: int, hs: Seq<u64>) -> Seq<u8>
    decreases hs.len(),
{
    if hs.len() == 0 {
        data
    } else {
        bytes::splice(
            stamped(data, row_size, first, hs.drop_last()),
            (first + hs.len() - 1) * row_size + row::HEADER_HASH,
            bytes::u64_bytes(hs.last()),
        )
    }
}

/// Writing hashes to headers keeps the number of bytes, and the bytes past the rows
/// that it concerns.
pub proof fn lemma_stamped_prefix(a: Seq<u8>, b: Seq<u8>, row_size: int, first: int, hs: Seq<u64>)
    requires
        row_size >= HEADER_SIZE,
        0 <= first,
        (first + hs.len()) * row_size <= a.len(),
    ensures
        stamped(a, row_size, first, hs).len() == a.len(),
        stamped(a + b, row_size, first, hs) == stamped(a, row_size, first, hs) + b,
    decreases hs.len(),
{
    if hs.len() > 0 {
        let last = first + hs.len() - 1;
        assert(last * row_size + row_size == (first + hs.len()) * row_size && 0 <= last * row_size)
            by (nonlinear_arith)
            requires
                last == first + hs.len() - 1,
                0 <= last,
                row_size >= 0,
        ;
        lemma_stamped_prefix(a, b, row_size, first, hs.drop_last());
        assert(stamped(a + b, row_size, first, hs) =~= stamped(a, row_size, first, hs) + b);
    }
}

/// Writing hashes to the headers of adjoining stretches of rows, one stretch after
/// the other, is writing them all.
pub proof fn lemma_stamped_concat(
    data: Seq<u8>,
    row_size: int,
    first: int,
    a: Seq<u64>,
    b: Seq<u64>,
)
    ensures
        stamped(stamped(data, row_size, first, a), row_size, (first + a.len()) as int, b)
            == stamped(data, row_size, first, a + b),
    decreases b.len(),
{
    if b.len() == 0 {
        assert(a + b =~= a);
    } else {
        lemma_stamped_concat(data, row_size, first, a, b.drop_last());
        assert((a + b).drop_last() =~= a + b.drop_last());
    }
}

/// Writing hashes to headers changes no byte of a row but those of the hash.
pub proof fn lemma_stamped_frame(
    data: Seq<u8>,
    row_size: int,
    first: int,
    hs: Seq<u64>,
    i: int,
)
    requires
        row_size >= HEADER_SIZE,
        0 <= first,
        (first + hs.len()) * row_size <= data.len(),
        0 <= i < data.len(),
        !(row::HEADER_HASH <= i % row_size < row::HEADER_HASH + 8),
    ensures
        stamped(data, row_size, first, hs)[i] == data[i],
    decreases hs.len(),
{
    if hs.len() > 0 {
        let last = first + hs.len() - 1;
        let at = last * row_size + row::HEADER_HASH;
        assert(last * row_size + row_size == (first + hs.len()) * row_size && 0 <= last * row_size)
            by (nonlinear_arith)
            requires
                last == first + hs.len() - 1,
                0 <= last,
                row_size >= 0,
        ;
        lemma_stamped_prefix(data, Seq::empty(), row_size, first, hs.drop_last());
        lemma_stamped_frame(data, row_size, first, hs.drop_last(), i);
        if at <= i < at + 8 {
            vstd::arithmetic::div_mod::lemma_fundamental_div_mod_converse(
                i,
                row_size,
                last,
                i - last * row_size,
            );
        }
    }
}

/// Writing hashes to headers changes no link and no column, and the headers read
/// back as the hashes written.
pub proof fn law_stamped(
    data: Seq<u8>,
    row_size: int,
    n: nat,
    first: int,
    hs: Seq<u64>,
    r: int,
    off: int,
)
    requires
        0 <= r < n,
        n * row_size <= data.len(),
        row_size >= HEADER_SIZE,
        0 <= first,
        first + hs.len() <= n,
        HEADER_SIZE <= off,
        off + 4 <= row_size,
    ensures
        stamped(data, row_size, first, hs).len() == data.len(),
        bytes::u64_at(stamped(data, row_size, first, hs), r * row_size) == bytes::u64_at(
            data,
            r * row_size,
        ),
        bytes::i32_at(stamped(data, row_size, first, hs), r * row_size + off) == bytes::i32_at(
            data,
            r * row_size + off,
        ),
        bytes::u64_at(stamped(data, row_size, first, hs), r * row_size + row::HEADER_HASH) == (
        if first <= r < first + hs.len() {
            hs[r - first]
        } else {
            bytes::u64_at(data, r * row_size + row::HEADER_HASH)
        }),
    decreases hs.len(),
{
    row::lemma_row_in_arena(r, n, row_size);
    if hs.len() > 0 {
        let prev = stamped(data, row_size, first, hs.drop_last());
        let last = first + hs.len() - 1;
        let at = last * row_size + row::HEADER_HASH;
        law_stamped(data, row_size, n, first, hs.drop_last(), r, off);
        row::lemma_row_in_arena(last, n, row_size);
        let b = bytes::u64_bytes(hs.last());
        bytes::law_u64_round_trip(hs.last());
        bytes::lemma_splice_read(prev, at, hs.last(), 0);
        if r != last {
            directory::lemma_rows_disjoint(r, last, n, row_size);
        }
        bytes::lemma_splice_frame(prev, at, b, r * row_size);
        bytes::lemma_splice_frame(prev, at, b, r * row_size + off);
        bytes::lemma_splice_frame(prev, at, b, r * row_size + row::HEADER_HASH);
    }
}

/// The bytes of a row that holds `key`, then `payload` right behind it, and the
/// hash of the key in its header.
pub open spec fn keyed_row(row_size: int, key: i32, payload: Seq<u8>) -> Seq<u8> {
    bytes::splice(
        bytes::splice(
            bytes::splice(row::zeros(row_size), HEADER_SIZE as int, bytes::u32_bytes(key as u32)),
            HEADER_SIZE + 4,
            payload,
        ),
        row::HEADER_HASH as int,
        bytes::u64_bytes(hash::key_hash(key)),
    )
}

impl JoinHashTable {
    /// Records the hashes of the last rows appended, one per row: each goes to
    /// the header of its row and to the end of the recorded hashes.
    pub fn record_hashes(&mut self, hashes: &[u64])
        requires
            old(self).wf(),
            hashes@.len() <= old(self).rows(),
        ensures
            final(self).wf(),
            final(self).types() == old(self).types(),
            final(self).rows() == old(self).rows(),
            final(self).is_final() == old(self).is_final(),
            final(self).dir() == old(self).dir(),
            final(self).hashes() == old(self).hashes() + hashes@,
            final(self).data() == stamped(
                old(self).data(),
                old(self).row_size(),
                old(self).rows() - hashes@.len(),
                hashes@,
            ),
            final(self).keys() == old(self).keys(),
    {
        let ghost before = self.data();
        let ghost rs = self.row_size();
        let ghost n = self.rows();
        let total: usize = self.arena.len();
        let start_row: usize = total - hashes.len();
        let row_size: usize = self.arena.layout().row_size();
        let count: usize = hashes.len();
        proof {
            row::law_first_column(self.types());
        }
        let mut i: usize = 0;
        while i < count
            invariant
                count == hashes@.len(),
                i <= count,
                rs == row_size,
                rs >= HEADER_SIZE + 4,
                start_row + count == total,
                total == n,
                self.arena.wf(),
                self.arena.rows() == n,
                self.arena.types() == old(self).types(),
                rs == row::row_width(self.arena.types()),
                self.arena.data() == stamped(
                    before,
                    rs,
                    start_row as int,
                    hashes@.take(i as int),
                ),
                self.directory == old(self).directory,
                self.hashes == old(self).hashes,
                self.key_offset == old(self).key_offset,
                self.finalized == old(self).finalized,
            decreases count - i,
        {
            let r: usize = start_row + i;
            proof {
                row::lemma_row_in_arena(r as int, n, rs);
                assert(hashes@.take(i + 1).drop_last() =~= hashes@.take(i as int));
            }
            let off: usize = r * row_size + row::HEADER_HASH;
            let data: &mut [u8] = self.arena.bytes_mut();
            write_u64(data, off, hashes[i]);
            i += 1;
        }
        self.hashes.extend_from_slice(hashes);
        proof {
            assert(hashes@.take(count as int) =~= hashes@);
            let after = self.data();
            assert forall|r: int| 0 <= r < n implies #[trigger] bytes::u64_at(after, r * rs)
                == bytes::u64_at(before, r * rs) && bytes::i32_at(after, r * rs + HEADER_SIZE)
                == bytes::i32_at(before, r * rs + HEADER_SIZE) by {
                law_stamped(before, rs, n, start_row as int, hashes@, r, HEADER_SIZE as int);
            }
            assert forall|r: int| 0 <= r < n implies #[trigger] self.keys()[r] == old(self).keys()[r] by {
                assert(bytes::u64_at(after, r * rs) == bytes::u64_at(before, r * rs));
            }
            assert(self.keys() =~= old(self).keys());
            if self.is_final() {
                self.dir().lemma_links_kept(before, after, rs);
            }
        }
    }

    /// Appends one row that holds `key` and, right behind it, `payload`, and
    /// records the hash of the key.
    pub fn insert_test_row(&mut self, key: i32, payload: &[u8])
        requires
            old(self).wf(),
            !old(self).is_final(),
            HEADER_SIZE + 4 + payload@.len() <= old(self).row_size(),
            (old(self).rows() + 1) * old(self).row_size() <= isize::MAX,
        ensures
            final(self).wf(),
            !final(self).is_final(),
            final(self).types() == old(self).types(),
            final(self).rows() == old(self).rows() + 1,
            final(self).hashes() == old(self).hashes().push(hash::key_hash(key)),
            final(self).data() == old(self).data() + keyed_row(
                old(self).row_size(),
                key,
                payload@,
            ),
            final(self).keys() == old(self).keys().push(key),
    {
        let ghost before = self.data();
        let ghost rs = self.row_size();
        let ghost n = self.rows();
        let key_off: usize = self.key_offset;
        let slice: &mut [u8] = self.append_rows(1);
        write_i32(slice, key_off, key);
        write_bytes(slice, key_off + 4, payload);
        let ghost plain = slice@;
        let h: u64 = murmur_hash32(key as u32);
        let hashes: Vec<u64> = vec![h];
        proof {
            bytes::law_i32_bits(key);
            bytes::lemma_splice_read(row::zeros(rs), key_off as int, 0, key as u32);
            let keyed = bytes::splice(
                row::zeros(rs),
                key_off as int,
                bytes::u32_bytes(key as u32),
            );
            bytes::lemma_splice_frame(keyed, key_off + 4, payload@, key_off as int);
            row::lemma_row_in_arena(n as int, n + 1, rs);
            assert(self.data() == before + plain);
            assert((before + plain).skip(n * rs + key_off) =~= plain.skip(key_off as int));
            assert(self.keys()[n as int] == key);
            assert forall|r: int| 0 <= r < n implies #[trigger] self.keys()[r] == old(self).keys()[r] by {
                row::lemma_row_in_arena(r, n, rs);
                bytes::lemma_append_frame(before, plain, r * rs + HEADER_SIZE);
            }
            assert(self.keys() =~= old(self).keys().push(key));
        }
        self.record_hashes(hashes.as_slice());
        proof {
            let one = hashes@;
            assert(one.drop_last() =~= Seq::<u64>::empty());
            assert(stamped(before + plain, rs, n as int, one.drop_last()) == before + plain);
            assert(self.data() =~= before + keyed_row(rs, key, payload@));
        }
    }
}

/// Below this many rows a table is filed by one thread.
pub const PARALLEL_ROWS: usize = 65536;

/// The rows `0..n` in order.
pub open spec fn row_order(n: nat) -> Seq<int> {
    Seq::new(n, |i: int| i)
}

impl JoinHashTable {
    /// Whether every row has an address that fits an entry.
    pub open spec fn fits_entries(self) -> bool {
        &&& ARENA_BASE + self.data().len() <= ht_entry::ADDRESS_SPACE
        &&& ARENA_BASE + self.data().len() <= usize::MAX
    }

    /// What `finalize` and `finalize_parallel` do: every row is filed under its
    /// recorded hash, and nothing changes in the rows but their links.
    pub open spec fn filed_from(self, before: Self) -> bool {
        &&& self.wf()
        &&& self.is_final()
        &&& self.types() == before.types()
        &&& self.rows() == before.rows()
        &&& self.hashes() == before.hashes()
        &&& self.dir().filed() == before.hashes()
        &&& self.keys() == before.keys()
        &&& directory::only_links_changed(before.data(), self.data(), self.row_size())
    }

    /// Sizes the pointer table and files every row, in the order of the rows.
    /// To be called once, before any probe.
    pub fn finalize(&mut self)
        requires
            old(self).wf(),
            !old(self).is_final(),
            old(self).hashes().len() == old(self).rows(),
            old(self).fits_entries(),
        ensures
            final(self).filed_from(*old(self)),
            final(self).chained_up(),
            final(self).dir().order() == row_order(old(self).rows()),
    {
        self.finalize_impl(false);
    }

    /// Like `finalize`, with the rows of a large table grouped by partition, in
    /// parallel, and filed partition by partition.
    pub fn finalize_parallel(&mut self)
        requires
            old(self).wf(),
            !old(self).is_final(),
            old(self).hashes().len() == old(self).rows(),
            old(self).fits_entries(),
        ensures
            final(self).filed_from(*old(self)),
            final(self).chained_up(),
            old(self).rows() < PARALLEL_ROWS ==> final(self).dir().order() == row_order(
                old(self).rows(),
            ),
    {
        self.finalize_impl(true);
    }

    /// Files every row, as `finalize` or as `finalize_parallel` does.
    fn finalize_impl(&mut self, parallel: bool)
        requires
            old(self).wf(),
            !old(self).is_final(),
            old(self).hashes().len() == old(self).rows(),
            old(self).fits_entries(),
        ensures
            final(self).filed_from(*old(self)),
            final(self).chained_up(),
            !parallel || old(self).rows() < PARALLEL_ROWS ==> final(self).dir().order()
                == row_order(old(self).rows()),
    {
        let ghost rs = self.row_size();
        let ghost before = self.data();
        let n: usize = self.arena.len();
        let row_size: usize = self.arena.layout().row_size();
        proof {
            row::law_first_column(self.types());
            assert(n * 16 <= n * rs) by (nonlinear_arith)
                requires
                    rs >= 16,
                    n >= 0,
            ;
        }
        let capacity: usize = directory_capacity(n);
        proof {
            law_capacity(n as int, capacity as int);
        }
        self.directory =
        Directory::with_capacity(
            capacity,
            Ghost(self.arena.data()),
            Ghost(rs),
            Ghost(self.hashes@),
        );
        if !parallel || n < PARALLEL_ROWS {
            self.file_in_order(n, row_size);
        } else {
            let data: &mut [u8] = self.arena.bytes_mut();
            file_by_partition(&mut self.directory, data, row_size, self.hashes.as_slice());
        }
        self.finalized = true;
        proof {
            let after = self.data();
            assert forall|r: int| 0 <= r < n implies #[trigger] self.keys()[r] == old(self).keys()[r] by {
                lemma_key_kept(before, after, n as nat, rs, r);
            }
            assert(self.keys() =~= old(self).keys());
            law_chained_up(*self);
        }
    }

    /// The directory, empty, is about to take all rows.
    spec fn to_be_filed(self) -> bool {
        &&& self.arena.wf()
        &&& self.hashes@.len() == self.arena.rows()
        &&& self.directory.wf(self.arena.data(), row::row_width(self.arena.types()))
        &&& self.directory.filed() == self.hashes@
        &&& self.directory.order() == Seq::<int>::empty()
        &&& 2 * self.arena.rows() <= self.directory.capacity()
        &&& self.directory.capacity() > 0
    }

    /// All rows are filed, from a directory that was empty in `before`.
    spec fn just_filed(self, before: Self) -> bool {
        &&& self.arena.wf()
        &&& self.arena.types() == before.arena.types()
        &&& self.arena.rows() == before.arena.rows()
        &&& self.hashes == before.hashes
        &&& self.key_offset == before.key_offset
        &&& self.directory.wf(self.arena.data(), row::row_width(self.arena.types()))
        &&& self.directory.filed() == self.hashes@
        &&& self.directory.capacity() == before.directory.capacity()
        &&& directory::lists_all(self.directory.order(), self.arena.rows())
        &&& directory::stable(self.directory.order(), self.hashes@)
        &&& directory::only_links_changed(
            before.arena.data(),
            self.arena.data(),
            row::row_width(self.arena.types()),
        )
    }

    fn file_in_order(&mut self, n: usize, row_size: usize)
        requires
            old(self).to_be_filed(),
            n == old(self).arena.rows(),
            row_size == row::row_width(old(self).arena.types()),
        ensures
            final(self).just_filed(*old(self)),
            final(self).directory.order() == row_order(n as nat),
    {
        let ghost before = self.arena.data();
        proof {
            row::law_row_width_positive(self.arena.types());
        }
        let mut i: usize = 0;
        assert(self.directory.order() =~= row_order(0));
        while i < n
            invariant
                i <= n,
                n == self.arena.rows(),
                row_size == row::row_width(self.arena.types()),
                row_size >= HEADER_SIZE,
                self.arena.wf(),
                self.arena.types() == old(self).arena.types(),
                self.hashes == old(self).hashes,
                self.hashes@.len() == n,
                self.key_offset == old(self).key_offset,
                self.directory.wf(self.arena.data(), row_size as int),
                self.directory.filed() == self.hashes@,
                self.directory.capacity() == old(self).directory.capacity(),
                2 * n <= self.directory.capacity(),
                self.directory.order() == row_order(i as nat),
                directory::only_links_changed(before, self.arena.data(), row_size as int),
            decreases n - i,
        {
            let h: u64 = self.hashes[i];
            let ghost mid = self.arena.data();
            let data: &mut [u8] = self.arena.bytes_mut();
            self.directory.insert_row_serial(data, row_size, i, h);
            proof {
                directory::lemma_one_link_changed(
                    before,
                    mid,
                    self.arena.data(),
                    row_size as int,
                    i as int,
                );
                assert(row_order(i as nat).push(i as int) =~= row_order((i + 1) as nat));
            }
            i += 1;
        }
        assert forall|r: int| 0 <= r < n implies #[trigger] row_order(n as nat).contains(r) by {
            assert(row_order(n as nat)[r] == r);
        }
    }
}

impl JoinHashTable {
    /// The chain that a probe with hash `h` walks.
    pub open spec fn chain(self, h: u64) -> Seq<int> {
        self.dir().chain(h)
    }

    /// The rows that a probe with hash `h` and key `key` matches, in the order
    /// in which it meets them: those on the chain of `h` that hold the key.
    pub open spec fn matches(self, h: u64, key: i32) -> Seq<int> {
        directory::with_key(self.chain(h), self.data(), self.row_size(), HEADER_SIZE as int, key)
    }

    /// Whether every row is filed under the hash of its key.
    pub open spec fn hashed_by_key(self) -> bool {
        forall|r: int|
            0 <= r < self.rows() ==> #[trigger] self.dir().filed()[r] == hash::key_hash(
                self.keys()[r],
            )
    }

    /// Whether the recorded hashes are those of the keys, one per row.
    pub open spec fn cached(self) -> bool {
        &&& self.hashes().len() == self.rows()
        &&& forall|r: int|
            0 <= r < self.rows() ==> #[trigger] self.hashes()[r] == hash::key_hash(self.keys()[r])
    }

    /// The bytes of row `r`.
    pub open spec fn row(self, r: int) -> Seq<u8> {
        self.data().subrange(r * self.row_size(), (r + 1) * self.row_size())
    }

    /// Whether `a` is the address of a row.
    pub open spec fn is_row_addr(self, a: int) -> bool {
        exists|r: int|
            0 <= r < self.rows() && a == #[trigger] row::row_address(r, self.row_size())
    }

    /// The row whose address is `a`.
    pub open spec fn row_at(self, a: int) -> int {
        (a - ARENA_BASE) / self.row_size()
    }

    /// The key of row `r`.
    pub fn key_at(&self, r: usize) -> (k: i32)
        requires
            self.wf(),
            r < self.rows(),
        ensures
            k == self.keys()[r as int],
    {
        let row_size: usize = self.arena.layout().row_size();
        proof {
            row::law_first_column(self.types());
            row::lemma_row_in_arena(r as int, self.rows(), row_size as int);
        }
        read_i32(self.arena.bytes(), r * row_size + self.key_offset)
    }

    /// The bytes of row `r`.
    pub fn row_bytes(&self, r: usize) -> (b: &[u8])
        requires
            self.wf(),
            r < self.rows(),
        ensures
            b@ == self.row(r as int),
            b@.len() == self.row_size(),
    {
        self.arena.row_ptr(r)
    }

    /// The number of the row whose address is `a`.
    pub fn row_index(&self, a: usize) -> (r: usize)
        requires
            self.wf(),
            self.is_row_addr(a as int),
        ensures
            r == self.row_at(a as int),
            r < self.rows(),
            a == row::row_address(r as int, self.row_size()),
    {
        proof {
            let r = choose|r: int|
                0 <= r < self.rows() && a == #[trigger] row::row_address(r, self.row_size());
            row::law_row_width_positive(self.types());
            row::lemma_row_in_arena(r, self.rows(), self.row_size());
            directory::lemma_offset_is_row(r, self.row_size());
        }
        (a - ARENA_BASE) / self.arena.layout().row_size()
    }

    /// The rows that a probe matches, in the order in which it meets them.
    pub(crate) fn matching_rows(&self, h: u64, key: i32) -> (found: Vec<usize>)
        requires
            self.wf(),
            self.is_final(),
        ensures
            partition::ints(found@) == self.matches(h, key),
    {
        let row_size: usize = self.arena.layout().row_size();
        proof {
            row::law_first_column(self.types());
        }
        let found: Vec<usize> = self.directory.matching_rows(
            self.arena.bytes(),
            row_size,
            self.key_offset,
            h,
            key,
        );
        assert(partition::ints(found@) =~= found@.map_values(|x: usize| x as int));
        found
    }

    /// The first row that a probe matches.
    pub(crate) fn first_match(&self, h: u64, key: i32) -> (found: Option<usize>)
        requires
            self.wf(),
            self.is_final(),
        ensures
            match found {
                Some(r) => self.matches(h, key).len() > 0 && r == self.matches(h, key)[0],
                None => self.matches(h, key).len() == 0,
            },
    {
        let row_size: usize = self.arena.layout().row_size();
        proof {
            row::law_first_column(self.types());
        }
        self.directory.first_match(self.arena.bytes(), row_size, self.key_offset, h, key)
    }

    /// Address of row `r`.
    pub(crate) fn row_addr(&self, r: usize) -> (a: usize)
        requires
            self.wf(),
            r < self.rows(),
        ensures
            a == row::row_address(r as int, self.row_size()),
    {
        self.arena.row_addr(r)
    }
}

/// A probe matches only rows that hold its key and are filed under its salt, and
/// each at most once; and it matches every row that holds its key and is filed
/// under its hash.
pub proof fn law_matches(ht: JoinHashTable, h: u64, key: i32)
    requires
        ht.wf(),
        ht.is_final(),
    ensures
        forall|j: int|
            0 <= j < ht.matches(h, key).len() ==> {
                let r = #[trigger] ht.matches(h, key)[j];
                &&& 0 <= r < ht.rows()
                &&& ht.keys()[r] == key
                &&& ht_entry::same_salt(ht.dir().filed()[r], h)
            },
        ht.matches(h, key).no_duplicates(),
        forall|r: int|
            0 <= r < ht.rows() && ht.keys()[r] == key && ht.dir().filed()[r] == h
                ==> #[trigger] ht.matches(h, key).contains(r),
{
    let data = ht.data();
    let rs = ht.row_size();
    directory::lemma_with_key(ht.dir(), data, rs, HEADER_SIZE as int, h, key);
    let found = ht.matches(h, key);
    assert forall|j: int| 0 <= j < found.len() implies {
        let r = #[trigger] found[j];
        &&& 0 <= r < ht.rows()
        &&& ht.keys()[r] == key
        &&& ht_entry::same_salt(ht.dir().filed()[r], h)
    } by {}
}

impl JoinHashTable {
    /// Whether row `r` is on exactly one chain, once: the chain of the bucket at which
    /// linear probing for its hash stops. That bucket is occupied and carries the salt
    /// of the hash; the buckets on the way to it are occupied and carry other salts.
    pub open spec fn filed_once(self, r: int) -> bool {
        let d = self.dir();
        let h = d.filed()[r];
        let s = directory::stop_bucket(d.chains(), d.filed(), h);
        &&& 0 <= s < d.capacity()
        &&& d.chains()[s].contains(r)
        &&& d.chains()[s].no_duplicates()
        &&& forall|t: int|
            0 <= t < d.capacity() && #[trigger] d.chains()[t].contains(r) ==> t == s
        &&& d.words()[s].0 != 0
        &&& d.words()[s].0 | ht_entry::POINTER_MASK == h | ht_entry::POINTER_MASK
        &&& exists|steps: int|
            {
                &&& 0 <= steps < d.capacity()
                &&& #[trigger] directory::bucket_at(h, d.capacity(), steps) == s
                &&& forall|e: int|
                    0 <= e < steps ==> {
                        let w = d.words()[#[trigger] directory::bucket_at(h, d.capacity(), e)].0;
                        w != 0 && w | ht_entry::POINTER_MASK != h | ht_entry::POINTER_MASK
                    }
            }
    }

    /// Whether the entries and the links in the rows spell out the chain of bucket
    /// `s`: the entry holds the address of its first row, the link of each row that of
    /// the next one, and the last link is 0. The chain holds rows of the table only,
    /// and without a chain the entry is empty.
    pub open spec fn chain_spelled(self, s: int) -> bool {
        let chain = self.dir().chains()[s];
        let w = self.dir().words()[s].0;
        &&& chain.len() == 0 <==> w == 0
        &&& chain.len() > 0 ==> w % ht_entry::ADDRESS_SPACE == row::row_address(
            chain[0],
            self.row_size(),
        )
        &&& forall|j: int|
            0 <= j < chain.len() ==> {
                &&& 0 <= #[trigger] chain[j] < self.rows()
                &&& bytes::u64_at(self.data(), chain[j] * self.row_size()) == (if j + 1
                    < chain.len() {
                    row::row_address(chain[j + 1], self.row_size())
                } else {
                    0
                })
            }
    }

    /// Whether no more buckets are occupied than there are rows, and there are at
    /// least twice as many buckets as rows.
    pub open spec fn half_full(self) -> bool {
        &&& select::select(0, self.dir().capacity() as int, occupied(self)).len() <= self.rows()
        &&& 2 * self.rows() <= self.dir().capacity()
    }

    /// Whether every row is filed once, the chains are spelled out, and at most half
    /// of the buckets are occupied.
    pub open spec fn chained_up(self) -> bool {
        &&& forall|r: int| 0 <= r < self.rows() ==> #[trigger] self.filed_once(r)
        &&& forall|s: int| 0 <= s < self.dir().capacity() ==> #[trigger] self.chain_spelled(s)
        &&& self.half_full()
    }
}

/// Every row of a finalized table is on exactly one chain, once: the chain of the
/// bucket at which linear probing for its hash stops. That bucket is occupied and
/// carries the salt of the hash; the buckets on the way to it are occupied and carry
/// other salts.
pub proof fn law_filed_once(ht: JoinHashTable, r: int)
    requires
        ht.wf(),
        ht.is_final(),
        0 <= r < ht.rows(),
    ensures
        ht.filed_once(r),
{
    let d = ht.dir();
    let rs = ht.row_size();
    let h = d.filed()[r];
    let s = directory::stop_bucket(d.chains(), d.filed(), h);
    d.lemma_word(ht.data(), rs, 0);
    let steps = directory::lemma_probe_stops(d.chains(), d.filed(), d.order(), h);
    directory::lemma_chain_complete(d.chains(), d.filed(), d.order(), h);
    assert(d.order().contains(r));
    assert(directory::chain_of(d.chains(), d.filed(), h).contains(r));
    let j = choose|j: int| 0 <= j < d.chains()[s].len() && d.chains()[s][j] == r;
    assert(d.chains()[s].len() > 0);
    d.lemma_word(ht.data(), rs, s);
    directory::lemma_first_stop_unique(d.chains(), d.filed(), h, steps);
    assert forall|t: int|
        0 <= t < d.capacity() && #[trigger] d.chains()[t].contains(r) implies t == s by {
        let k = choose|k: int| 0 <= k < d.chains()[t].len() && d.chains()[t][k] == r;
        let e = choose|e: int|
            directory::first_stop(d.chains(), d.filed(), d.filed()[d.chains()[t][k]], e)
                && directory::bucket_at(d.filed()[d.chains()[t][k]], d.chains().len(), e) == t;
        assert(directory::first_stop(d.chains(), d.filed(), h, e));
    }
    assert forall|e: int| 0 <= e < steps implies {
        let w = d.words()[#[trigger] directory::bucket_at(h, d.capacity(), e)].0;
        w != 0 && w | ht_entry::POINTER_MASK != h | ht_entry::POINTER_MASK
    } by {
        let b = directory::bucket_at(h, d.capacity(), e);
        vstd::arithmetic::div_mod::lemma_mod_bound(h as int + e, d.capacity() as int);
        assert(!directory::stops_at(d.chains(), d.filed(), h, b));
        d.lemma_word(ht.data(), rs, b);
    }
}

/// The entries and the links in the rows spell out the chains: the entry of a bucket
/// with a chain holds the address of its first row, the link of each row that of the
/// next one, and the last link is 0. A chain holds rows of the table only.
pub proof fn law_chain_spelled(ht: JoinHashTable, s: int)
    requires
        ht.wf(),
        ht.is_final(),
        0 <= s < ht.dir().capacity(),
    ensures
        ht.chain_spelled(s),
{
    let d = ht.dir();
    let chain = d.chains()[s];
    d.lemma_word(ht.data(), ht.row_size(), s);
    assert forall|j: int| 0 <= j < chain.len() implies {
        &&& 0 <= #[trigger] chain[j] < ht.rows()
        &&& bytes::u64_at(ht.data(), chain[j] * ht.row_size()) == (if j + 1 < chain.len() {
            row::row_address(chain[j + 1], ht.row_size())
        } else {
            0
        })
    } by {
        assert(d.order().contains(d.chains()[s][j]));
        assert(bytes::u64_at(ht.data(), chain[j] * ht.row_size()) == directory::next_link(
            chain,
            j,
            ht.row_size(),
        ));
    }
}

/// A finalized table has no more occupied buckets than rows, and at least twice as
/// many buckets as rows.
pub proof fn law_half_full(ht: JoinHashTable)
    requires
        ht.wf(),
        ht.is_final(),
    ensures
        ht.half_full(),
{
    let d = ht.dir();
    law_capacity(ht.rows() as int, d.capacity() as int);
    d.lemma_word(ht.data(), ht.row_size(), 0);
    directory::lemma_used(d.chains(), d.filed(), d.order());
    let p = occupied(ht);
    let q = directory::used(d.chains());
    assert forall|s: int| 0 <= s < d.capacity() implies #[trigger] p(s) == q(s) by {
        d.lemma_word(ht.data(), ht.row_size(), s);
    }
    select::lemma_select_same(0, d.capacity() as int, p, q);
}

/// A finalized table is chained up: what `finalize` and `finalize_parallel` leave
/// holds of it however its rows were filed.
pub proof fn law_chained_up(ht: JoinHashTable)
    requires
        ht.wf(),
        ht.is_final(),
    ensures
        ht.chained_up(),
{
    assert forall|r: int| 0 <= r < ht.rows() implies #[trigger] ht.filed_once(r) by {
        law_filed_once(ht, r);
    }
    assert forall|s: int| 0 <= s < ht.dir().capacity() implies #[trigger] ht.chain_spelled(s) by {
        law_chain_spelled(ht, s);
    }
    law_half_full(ht);
}

/// Which buckets of a table are occupied.
pub open spec fn occupied(ht: JoinHashTable) -> spec_fn(int) -> bool {
    |s: int| ht.dir().words()[s].0 != 0
}

/// A probe with the hash under which every row with its key is filed matches
/// exactly these rows, the last one first.
pub proof fn law_lookup_under(ht: JoinHashTable, h: u64, key: i32)
    requires
        ht.wf(),
        ht.is_final(),
        forall|r: int|
            0 <= r < ht.rows() && #[trigger] ht.keys()[r] == key ==> ht.dir().filed()[r] == h,
    ensures
        ht.matches(h, key) == select::places(ht.keys(), key).reverse(),
{
    directory::lemma_lookup(
        ht.dir(),
        ht.data(),
        ht.row_size(),
        HEADER_SIZE as int,
        ht.keys(),
        h,
        key,
    );
}

/// A probe that holds the hash of its key matches exactly the rows with that key,
/// the last one first, when every row is filed under the hash of its key.
pub proof fn law_lookup(ht: JoinHashTable, key: i32)
    requires
        ht.wf(),
        ht.is_final(),
        ht.hashed_by_key(),
    ensures
        ht.matches(hash::key_hash(key), key) == select::places(ht.keys(), key).reverse(),
{
    assert forall|r: int|
        0 <= r < ht.rows() && #[trigger] ht.keys()[r] == key implies ht.dir().filed()[r]
        == hash::key_hash(key) by {
        assert(ht.dir().filed()[r] == hash::key_hash(ht.keys()[r]));
    }
    law_lookup_under(ht, hash::key_hash(key), key);
}

/// A row is named by its address: the address of a row leads back to the row.
pub proof fn law_row_address(ht: JoinHashTable, r: int)
    requires
        ht.wf(),
        0 <= r < ht.rows(),
    ensures
        ht.is_row_addr(row::row_address(r, ht.row_size())),
        ht.row_at(row::row_address(r, ht.row_size())) == r,
        0 < row::row_address(r, ht.row_size()) <= usize::MAX,
{
    row::law_row_width_positive(ht.types());
    row::lemma_row_in_arena(r, ht.rows(), ht.row_size());
    directory::lemma_offset_is_row(r, ht.row_size());
}

/// A table whose recorded hashes are those of its keys is filed by key.
pub proof fn law_cached_files_by_key(before: JoinHashTable, after: JoinHashTable)
    requires
        before.cached(),
        after.filed_from(before),
    ensures
        after.hashed_by_key(),
        after.cached(),
{
    assert forall|r: int| 0 <= r < after.rows() implies #[trigger] after.dir().filed()[r]
        == hash::key_hash(after.keys()[r]) by {
        assert(before.hashes()[r] == hash::key_hash(before.keys()[r]));
    }
}

/// However a table is filed, row by row or partition by partition, a probe matches
/// the same rows in the same order, unless a row with its key has another recorded
/// hash with the salt of the probe.
pub proof fn law_filing_agrees(
    before: JoinHashTable,
    a: JoinHashTable,
    b: JoinHashTable,
    h: u64,
    key: i32,
)
    requires
        a.filed_from(before),
        b.filed_from(before),
        forall|r: int|
            0 <= r < before.rows() && #[trigger] before.keys()[r] == key ==> before.hashes()[r] == h
                || !ht_entry::same_salt(before.hashes()[r], h),
    ensures
        a.matches(h, key) == b.matches(h, key),
        a.matches(h, key) == select::select(
            0,
            before.rows() as int,
            directory::filed_as(before.keys(), before.hashes(), h, key),
        ).reverse(),
{
    directory::lemma_lookup_as(
        a.dir(),
        a.data(),
        a.row_size(),
        HEADER_SIZE as int,
        before.keys(),
        h,
        key,
    );
    directory::lemma_lookup_as(
        b.dir(),
        b.data(),
        b.row_size(),
        HEADER_SIZE as int,
        before.keys(),
        h,
        key,
    );
}

/// The key of a row is as before if only links changed.
pub proof fn lemma_key_kept(before: Seq<u8>, after: Seq<u8>, n: nat, row_size: int, r: int)
    requires
        directory::only_links_changed(before, after, row_size),
        n * row_size <= before.len(),
        HEADER_SIZE + 4 <= row_size,
        0 <= r < n,
    ensures
        bytes::i32_at(after, r * row_size + HEADER_SIZE) == bytes::i32_at(
            before,
            r * row_size + HEADER_SIZE,
        ),
{
    row::lemma_row_in_arena(r, n, row_size);
    let at = r * row_size + HEADER_SIZE;
    directory::lemma_field_kept(before, after, row_size, r, HEADER_SIZE as int, 4);
    let a = after.subrange(at, at + 4);
    let b = before.subrange(at, at + 4);
    assert(a[0] == b[0] && a[1] == b[1] && a[2] == b[2] && a[3] == b[3]);
}

/// Writing hashes to the headers of rows that follow others keeps the others as they
/// are.
pub proof fn lemma_stamped_behind(
    before: Seq<u8>,
    more: Seq<u8>,
    row_size: int,
    n: nat,
    hs: Seq<u64>,
)
    requires
        row_size >= HEADER_SIZE,
        before.len() == n * row_size,
        hs.len() * row_size <= more.len(),
    ensures
        stamped(before + more, row_size, n as int, hs).len() == before.len() + more.len(),
        stamped(before + more, row_size, n as int, hs).take(before.len() as int) == before,
    decreases hs.len(),
{
    let all = before + more;
    if hs.len() > 0 {
        let prev = hs.drop_last();
        assert(prev.len() * row_size <= hs.len() * row_size) by (nonlinear_arith)
            requires
                prev.len() <= hs.len(),
                row_size >= 0,
        ;
        lemma_stamped_behind(before, more, row_size, n, prev);
        let at = (n + hs.len() - 1) * row_size + row::HEADER_HASH;
        assert(at >= n * row_size) by (nonlinear_arith)
            requires
                at >= (n + hs.len() - 1) * row_size,
                hs.len() >= 1,
                row_size >= 0,
        ;
        let mid = stamped(all, row_size, n as int, prev);
        let done = stamped(all, row_size, n as int, hs);
        assert forall|k: int| 0 <= k < before.len() implies #[trigger] done.take(
            before.len() as int,
        )[k] == before[k] by {
            assert(mid.take(before.len() as int)[k] == before[k]);
        }
        assert(done.take(before.len() as int) =~= before);
    } else {
        assert(all.take(before.len() as int) =~= before);
    }
}

/// A row that holds a key and a payload reads back: a link of 0, the hash of the key,
/// the key, the payload right behind it, and zeros.
pub proof fn law_keyed_row(row_size: int, key: i32, payload: Seq<u8>, i: int)
    requires
        HEADER_SIZE + 4 + payload.len() <= row_size,
        HEADER_SIZE + 4 + payload.len() <= i < row_size,
    ensures
        keyed_row(row_size, key, payload).len() == row_size,
        bytes::u64_at(keyed_row(row_size, key, payload), 0) == 0,
        bytes::u64_at(keyed_row(row_size, key, payload), 8) == hash::murmur64(
            (key as u32) as u64,
        ),
        bytes::i32_at(keyed_row(row_size, key, payload), 16) == key,
        keyed_row(row_size, key, payload).subrange(20, (20 + payload.len()) as int) == payload,
        keyed_row(row_size, key, payload)[i] == 0,
{
    let h = hash::key_hash(key);
    let a = bytes::splice(row::zeros(row_size), 16, bytes::u32_bytes(key as u32));
    let b = bytes::splice(a, 20, payload);
    let done = keyed_row(row_size, key, payload);
    bytes::law_u32_round_trip(key as u32);
    bytes::law_u64_round_trip(h);
    bytes::law_i32_bits(key);
    bytes::lemma_splice_read(row::zeros(row_size), 16, 0, key as u32);
    bytes::lemma_splice_frame(a, 20, payload, 16);
    bytes::lemma_splice_frame(b, 8, bytes::u64_bytes(h), 16);
    bytes::lemma_splice_read(b, 8, h, 0);
    assert(done.subrange(20, (20 + payload.len()) as int) =~= payload);
    bytes::law_field_read(done, 0);
    bytes::law_u64_round_trip(0);
    bytes::law_u64_round_trip(bytes::u64_at(done, 0));
    assert(done.subrange(0, 8) =~= bytes::u64_bytes(0));
}

/// The keys of rows are the signed 32-bit fields right behind the headers.
pub proof fn law_keys_read(ht: JoinHashTable, r: int)
    requires
        ht.wf(),
        0 <= r < ht.rows(),
    ensures
        ht.keys().len() == ht.rows(),
        bytes::u32_bytes(ht.keys()[r] as u32) == ht.data().subrange(
            r * ht.row_size() + 16,
            r * ht.row_size() + 20,
        ),
{
    row::law_first_column(ht.types());
    row::lemma_row_in_arena(r, ht.rows(), ht.row_size());
    bytes::law_field_read(ht.data(), r * ht.row_size() + 16);
}

/// Filing in row order takes row `i` at turn `i`.
pub proof fn law_row_order(n: nat, i: int)
    requires
        0 <= i < n,
    ensures
        row_order(n).len() == n,
        row_order(n)[i] == i,
{
}

/// Row `r` is the bytes from `r` times the width of a row on, as many as a row is wide; and
/// the row at an address is the one that has it.
pub proof fn law_row(ht: JoinHashTable, r: int, j: int)
    requires
        ht.wf(),
        0 <= r < ht.rows(),
        0 <= j < ht.row_size(),
    ensures
        ht.row(r).len() == ht.row_size(),
        ht.row(r)[j] == ht.data()[r * ht.row_size() + j],
        ht.is_row_addr(64 + r * ht.row_size()),
        ht.row_at(64 + r * ht.row_size()) == r,
{
    law_row_address(ht, r);
    row::lemma_row_in_arena(r, ht.rows(), ht.row_size());
    let w = ht.row_size();
    vstd::arithmetic::div_mod::lemma_fundamental_div_mod_converse(r * w, w, r, 0);
}

/// What filing the rows of a table leaves as it was: types, number, keys and hashes of the
/// rows, and of every row all bytes but the first eight. Each row is filed under its hash.
pub proof fn law_filed_table(before: JoinHashTable, after: JoinHashTable, r: int, b: int)
    requires
        before.wf(),
        after.filed_from(before),
        0 <= r < before.rows(),
        8 <= b < before.row_size(),
    ensures
        after.is_final(),
        after.types() == before.types(),
        after.rows() == before.rows(),
        after.keys() == before.keys(),
        after.hashes() == before.hashes(),
        after.dir().filed() == before.hashes(),
        after.data().len() == before.data().len(),
        after.data()[r * before.row_size() + b] == before.data()[r * before.row_size() + b],
{
    row::lemma_row_in_arena(r, before.rows(), before.row_size());
    directory::law_links_alone(before.data(), after.data(), before.row_size(), r, b);
}

} // verus!
