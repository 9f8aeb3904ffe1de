//! The hash join of a pipeline: a sink for the build side, an operator for the
//! probe side, and a source of the build rows that no probe matched.
//!
//! Build rows have fixed width.
//!
//! ```text
//!   offset  size  field
//!   0       8     link       u64, address of the next row on the chain, or 0
//!   8       8     hash       u64
//!   16      4     key        i32
//!   20      4     padding
//!   24      40    addresses  five u64, one per source table
//! ```

use crate::bitmap;
use crate::bytes;
use crate::bytes::{read_i32, read_u64, write_i32, write_u64};
use crate::chain;
use crate::directory;
use crate::directory::Directory;
use crate::hash;
use crate::ht_entry;
use crate::partition::file_by_partition;
use crate::pipeline;
use crate::pipeline::{Batch, Operator, Sink, Source};
use crate::pow2s;
use crate::probe;
use crate::row;
use crate::row::ARENA_BASE;
use crate::select;
use vstd::arithmetic::power2::{lemma2_to64, lemma_pow2_unfold, pow2};
use vstd::prelude::*;

verus! {

pub const BUILD_ROW_SIZE: usize = 64;

pub const BUILD_KEY_OFF: usize = 16;

pub const BUILD_HASH_OFF: usize = 8;

pub const BUILD_NEXT_PTR_OFF: usize = 0;

pub const BUILD_PTRS_OFF: usize = 24;

/// The build row that starts at `at`.
pub open spec fn build_row_at(data: Seq<u8>, at: int) -> (i32, u64, Seq<u64>) {
    (
        bytes::i32_at(data, at + BUILD_KEY_OFF),
        bytes::u64_at(data, at + BUILD_HASH_OFF),
        Seq::new(5, |s: int| bytes::u64_at(data, at + BUILD_PTRS_OFF + 8 * s)),
    )
}

/// The first `n` build rows of `data`.
pub open spec fn build_rows(data: Seq<u8>, n: nat) -> Seq<(i32, u64, Seq<u64>)> {
    Seq::new(n, |i: int| build_row_at(data, i * BUILD_ROW_SIZE))
}

/// Whether the link of the build row that starts at `at` is 0, and the bytes
/// between its key and its addresses are zero.
pub open spec fn unlinked(data: Seq<u8>, at: int) -> bool {
    &&& forall|i: int| at <= i < at + BUILD_HASH_OFF ==> #[trigger] data[i] == 0
    &&& forall|i: int| at + BUILD_KEY_OFF + 4 <= i < at + BUILD_PTRS_OFF ==> #[trigger] data[i] == 0
}

/// Whether `after` differs from `before` at most in the hash, the key and the
/// addresses of the build row at `at`.
pub open spec fn only_row_changed(before: Seq<u8>, after: Seq<u8>, at: int) -> bool {
    &&& after.len() == before.len()
    &&& forall|i: int|
        0 <= i < before.len() && !(at + BUILD_HASH_OFF <= i < at + BUILD_KEY_OFF + 4) && !(at
            + BUILD_PTRS_OFF <= i < at + BUILD_ROW_SIZE) ==> #[trigger] after[i] == before[i]
}

/// Writes a build row; its link stays as it is.
fn write_build_row(data: &mut [u8], at: usize, key: i32, hash: u64, ptrs: [u64; 5])
    requires
        at + BUILD_ROW_SIZE <= old(data)@.len(),
    ensures
        build_row_at(final(data)@, at as int) == (key, hash, ptrs@),
        only_row_changed(old(data)@, final(data)@, at as int),
{
    assert(at + BUILD_ROW_SIZE <= data.len());
    let ghost d0 = data@;
    write_u64(data, at + BUILD_HASH_OFF, hash);
    let ghost d1 = data@;
    write_i32(data, at + BUILD_KEY_OFF, key);
    proof {
        bytes::law_u64_round_trip(hash);
        bytes::law_u32_round_trip(key as u32);
        bytes::law_i32_bits(key);
        bytes::lemma_splice_read(d0, at + BUILD_HASH_OFF, hash, 0);
        bytes::lemma_splice_read(d1, at + BUILD_KEY_OFF, 0, key as u32);
        bytes::lemma_splice_frame(
            d1,
            at + BUILD_KEY_OFF,
            bytes::u32_bytes(key as u32),
            at + BUILD_HASH_OFF,
        );
    }
    let mut s: usize = 0;
    while s < 5
        invariant
            s <= 5,
            at + BUILD_ROW_SIZE <= data@.len(),
            data@.len() == d0.len(),
            only_row_changed(d0, data@, at as int),
            bytes::u64_at(data@, at + BUILD_HASH_OFF) == hash,
            bytes::i32_at(data@, at + BUILD_KEY_OFF) == key,
            forall|q: int|
                0 <= q < s ==> bytes::u64_at(data@, at + BUILD_PTRS_OFF + 8 * q)
                    == #[trigger] ptrs@[q],
        decreases 5 - s,
    {
        let ghost before = data@;
        assert(at + BUILD_ROW_SIZE <= data.len());
        let off: usize = at + BUILD_PTRS_OFF + 8 * s;
        write_u64(data, off, ptrs[s]);
        proof {
            let b = bytes::u64_bytes(ptrs@[s as int]);
            bytes::law_u64_round_trip(ptrs@[s as int]);
            bytes::lemma_splice_read(before, off as int, ptrs@[s as int], 0);
            bytes::lemma_splice_frame(before, off as int, b, at + BUILD_HASH_OFF);
            bytes::lemma_splice_frame(before, off as int, b, at + BUILD_KEY_OFF);
            assert forall|q: int| 0 <= q < s + 1 implies bytes::u64_at(
                data@,
                at + BUILD_PTRS_OFF + 8 * q,
            ) == #[trigger] ptrs@[q] by {
                if q < s {
                    bytes::lemma_splice_frame(
                        before,
                        off as int,
                        b,
                        at + BUILD_PTRS_OFF + 8 * q,
                    );
                }
            }
        }
        s += 1;
    }
    assert(build_row_at(data@, at as int).2 =~= ptrs@);
}

/// Reads a build row.
fn read_build_row(data: &[u8], at: usize) -> (r: (i32, u64, [u64; 5]))
    requires
        at + BUILD_ROW_SIZE <= data@.len(),
    ensures
        (r.0, r.1, r.2@) == build_row_at(data@, at as int),
{
    assert(at + BUILD_ROW_SIZE <= data.len());
    let key: i32 = read_i32(data, at + BUILD_KEY_OFF);
    let hash: u64 = read_u64(data, at + BUILD_HASH_OFF);
    let ptrs: [u64; 5] = [
        read_u64(data, at + BUILD_PTRS_OFF),
        read_u64(data, at + BUILD_PTRS_OFF + 8),
        read_u64(data, at + BUILD_PTRS_OFF + 16),
        read_u64(data, at + BUILD_PTRS_OFF + 24),
        read_u64(data, at + BUILD_PTRS_OFF + 32),
    ];
    assert(ptrs@ =~= build_row_at(data@, at as int).2);
    (key, hash, ptrs)
}

/// A build row reads the same in data that agrees on its fields.
proof fn lemma_build_row_same(a: Seq<u8>, b: Seq<u8>, at: int, bt: int)
    requires
        0 <= at,
        0 <= bt,
        at + BUILD_ROW_SIZE <= a.len(),
        bt + BUILD_ROW_SIZE <= b.len(),
        forall|i: int| 8 <= i < BUILD_ROW_SIZE ==> #[trigger] a[at + i] == b[bt + i],
    ensures
        build_row_at(a, at) == build_row_at(b, bt),
{
    assert forall|off: int| 8 <= off <= BUILD_ROW_SIZE - 8 implies #[trigger] bytes::u64_at(
        a,
        at + off,
    ) == bytes::u64_at(b, bt + off) by {
        assert forall|i: int| 0 <= i < 8 implies #[trigger] a[(at + off) + i] == b[(bt + off)
            + i] by {
            assert(a[at + (off + i)] == b[bt + (off + i)]);
        }
        lemma_u64_same(a, b, at + off, bt + off);
    }
    assert(bytes::u64_at(a, at + BUILD_HASH_OFF) == bytes::u64_at(b, bt + BUILD_HASH_OFF));
    assert(bytes::u32_at(a, at + BUILD_KEY_OFF) == bytes::u32_at(b, bt + BUILD_KEY_OFF)) by {
        let o = BUILD_KEY_OFF as int;
        assert(a[at + o] == b[bt + o] && a[at + (o + 1)] == b[bt + (o + 1)] && a[at + (o + 2)]
            == b[bt + (o + 2)] && a[at + (o + 3)] == b[bt + (o + 3)]);
    }
    assert forall|s: int| 0 <= s < 5 implies #[trigger] build_row_at(a, at).2[s] == build_row_at(
        b,
        bt,
    ).2[s] by {
        assert(bytes::u64_at(a, at + (BUILD_PTRS_OFF + 8 * s)) == bytes::u64_at(
            b,
            bt + (BUILD_PTRS_OFF + 8 * s),
        ));
    }
    assert(build_row_at(a, at).2 =~= build_row_at(b, bt).2);
}

/// A field reads the same where the bytes are the same.
proof fn lemma_u64_same(a: Seq<u8>, b: Seq<u8>, at: int, bt: int)
    requires
        0 <= at,
        0 <= bt,
        at + 8 <= a.len(),
        bt + 8 <= b.len(),
        forall|i: int| 0 <= i < 8 ==> #[trigger] a[at + i] == b[bt + i],
    ensures
        bytes::u64_at(a, at) == bytes::u64_at(b, bt),
{
    let x = a.skip(at);
    let y = b.skip(bt);
    assert forall|i: int| 0 <= i < 8 implies #[trigger] x[i] == y[i] by {
        assert(a[at + i] == b[bt + i]);
    }
    assert(x.skip(4)[0] == x[4] && x.skip(4)[1] == x[5] && x.skip(4)[2] == x[6] && x.skip(4)[3]
        == x[7]);
    assert(y.skip(4)[0] == y[4] && y.skip(4)[1] == y[5] && y.skip(4)[2] == y[6] && y.skip(4)[3]
        == y[7]);
}

/// Build rows followed by more bytes.
proof fn lemma_build_rows_append(a: Seq<u8>, b: Seq<u8>, n: nat, m: nat)
    requires
        a.len() == n * BUILD_ROW_SIZE,
        b.len() == m * BUILD_ROW_SIZE,
    ensures
        build_rows(a + b, n + m) == build_rows(a, n) + build_rows(b, m),
{
    let all = build_rows(a + b, n + m);
    let parts = build_rows(a, n) + build_rows(b, m);
    assert forall|i: int| 0 <= i < n + m implies #[trigger] all[i] == parts[i] by {
        let at = i * BUILD_ROW_SIZE;
        if i < n {
            lemma_build_row_same(a + b, a, at, at);
        } else {
            lemma_build_row_same(a + b, b, at, (i - n) * BUILD_ROW_SIZE);
        }
    }
    assert(all =~= parts);
}

/// The `n` build rows from offset `start` on.
spec fn rows_from(data: Seq<u8>, start: int, n: nat) -> Seq<(i32, u64, Seq<u64>)> {
    Seq::new(n, |i: int| build_row_at(data, start + i * BUILD_ROW_SIZE))
}

/// Writing one more row leaves those before it as they are.
proof fn lemma_row_added(before: Seq<u8>, after: Seq<u8>, start: int, n: nat)
    requires
        0 <= start,
        start + (n + 1) * BUILD_ROW_SIZE <= before.len(),
        only_row_changed(before, after, start + n * BUILD_ROW_SIZE),
    ensures
        rows_from(after, start, n + 1) == rows_from(before, start, n).push(
            build_row_at(after, start + n * BUILD_ROW_SIZE),
        ),
{
    let got = rows_from(after, start, n + 1);
    let had = rows_from(before, start, n);
    assert forall|r: int| 0 <= r < n implies #[trigger] got[r] == had[r] by {
        let at = start + r * BUILD_ROW_SIZE;
        lemma_build_row_same(after, before, at, at);
    }
    assert(got =~= had.push(build_row_at(after, start + n * BUILD_ROW_SIZE)));
}

/// Writing the fields of one row leaves a row without link as it is, whether or not
/// it is that row.
proof fn lemma_unlinked_kept(before: Seq<u8>, after: Seq<u8>, at: int, r: int)
    requires
        only_row_changed(before, after, at),
        unlinked(before, r),
        0 <= r,
        r + BUILD_ROW_SIZE <= before.len(),
        r == at || r + BUILD_ROW_SIZE <= at || at + BUILD_ROW_SIZE <= r,
    ensures
        unlinked(after, r),
{
    assert forall|i: int| r <= i < r + BUILD_HASH_OFF implies #[trigger] after[i] == 0 by {
        assert(before[i] == 0);
    }
    assert forall|i: int| r + BUILD_KEY_OFF + 4 <= i < r + BUILD_PTRS_OFF implies #[trigger] after[i]
        == 0 by {
        assert(before[i] == 0);
    }
}

/// Rows that a worker holds until they are combined into the build side.
pub struct BuildLocalState {
    pub bytes: Vec<u8>,
    pub n_rows: usize,
}

impl Default for BuildLocalState {
    fn default() -> (l: Self)
        ensures
            l.wf(),
            l.rows() == Seq::<(i32, u64, Seq<u64>)>::empty(),
    {
        let l: BuildLocalState = BuildLocalState { bytes: Vec::new(), n_rows: 0 };
        assert(l.rows() =~= Seq::empty());
        l
    }
}

impl BuildLocalState {
    /// The bytes are those of the rows.
    pub open spec fn wf(self) -> bool {
        &&& self.bytes@.len() == self.n_rows * BUILD_ROW_SIZE
        &&& self.bytes@.len() <= isize::MAX
    }

    /// The rows.
    pub open spec fn rows(self) -> Seq<(i32, u64, Seq<u64>)> {
        build_rows(self.bytes@, self.n_rows as nat)
    }

    /// Whether this is what `before` becomes when the rows of a batch are appended.
    pub open spec fn appends(self, before: Self, batch: Batch) -> bool {
        &&& self.wf()
        &&& self.n_rows == before.n_rows + batch.rows().len()
        &&& self.rows() == before.rows() + batch.rows()
        &&& self.bytes@.take(before.bytes@.len() as int) == before.bytes@
        &&& forall|r: int|
            before.n_rows <= r < self.n_rows ==> #[trigger] unlinked(
                self.bytes@,
                r * BUILD_ROW_SIZE,
            )
    }

    /// Appends the rows of a batch.
    pub fn append_batch(&mut self, batch: &Batch)
        requires
            old(self).wf(),
            batch.wf(),
            (old(self).n_rows + batch.rows().len()) * BUILD_ROW_SIZE <= isize::MAX,
        ensures
            final(self).appends(*old(self), *batch),
    {
        let n: usize = batch.len();
        if n == 0 {
            assert(self.rows() + batch.rows() =~= self.rows());
            assert(self.bytes@.take(self.bytes@.len() as int) =~= self.bytes@);
            return ;
        }
        let ghost before = self.bytes@;
        let ghost n0 = self.n_rows as nat;
        let start: usize = self.bytes.len();
        self.bytes.resize(start + n * BUILD_ROW_SIZE, 0);
        proof {
            assert forall|k: int| 0 <= k < start implies self.bytes@[k] == #[trigger] before[k] by {
                assert(self.bytes@.subrange(0, start as int)[k] == before[k]);
            }
            assert forall|r: int| n0 <= r < n0 + n implies #[trigger] unlinked(
                self.bytes@,
                r * BUILD_ROW_SIZE,
            ) by {}
        }
        let mut i: usize = 0;
        while i < n
            invariant
                i <= n,
                n == batch.rows().len(),
                batch.wf(),
                start == before.len(),
                self.n_rows == n0,
                before.len() == n0 * BUILD_ROW_SIZE,
                (n0 + n) * BUILD_ROW_SIZE <= isize::MAX,
                self.bytes@.len() == start + n * BUILD_ROW_SIZE,
                forall|k: int| 0 <= k < start ==> self.bytes@[k] == #[trigger] before[k],
                rows_from(self.bytes@, start as int, i as nat) == batch.rows().take(i as int),
                forall|r: int|
                    n0 <= r < n0 + n ==> #[trigger] unlinked(self.bytes@, r * BUILD_ROW_SIZE),
            decreases n - i,
        {
            let base: usize = start + i * BUILD_ROW_SIZE;
            let ghost mid = self.bytes@;
            write_build_row(
                self.bytes.as_mut_slice(),
                base,
                batch.keys[i],
                batch.hashes[i],
                batch.ptrs[i],
            );
            proof {
                assert forall|r: int| n0 <= r < n0 + n implies #[trigger] unlinked(
                    self.bytes@,
                    r * BUILD_ROW_SIZE,
                ) by {
                    lemma_unlinked_kept(mid, self.bytes@, base as int, r * BUILD_ROW_SIZE);
                }
                lemma_row_added(mid, self.bytes@, start as int, i as nat);
                assert(rows_from(self.bytes@, start as int, (i + 1) as nat) =~= batch.rows().take(
                    i + 1,
                ));
            }
            i += 1;
        }
        self.n_rows = self.n_rows + n;
        proof {
            let tail = self.bytes@.skip(start as int);
            assert(self.bytes@ =~= before + tail);
            assert(self.bytes@.take(start as int) =~= before);
            lemma_build_rows_append(before, tail, n0, n as nat);
            assert(batch.rows().take(n as int) =~= batch.rows());
            assert forall|r: int| 0 <= r < n implies #[trigger] build_rows(tail, n as nat)[r]
                == rows_from(self.bytes@, start as int, n as nat)[r] by {
                lemma_build_row_same(
                    tail,
                    self.bytes@,
                    r * BUILD_ROW_SIZE,
                    start + r * BUILD_ROW_SIZE,
                );
            }
            assert(build_rows(tail, n as nat) =~= batch.rows());
        }
    }
}

/// The build side of a hash join: the rows of all workers.
pub struct BuildGlobalState {
    pub arena: Vec<u8>,
    pub n_rows: usize,
    pub reserved_rows: usize,
}

impl BuildGlobalState {
    /// The bytes are those of the rows.
    pub open spec fn wf(self) -> bool {
        &&& self.arena@.len() == self.n_rows * BUILD_ROW_SIZE
        &&& self.arena@.len() <= isize::MAX
    }

    /// The rows.
    pub open spec fn rows(self) -> Seq<(i32, u64, Seq<u64>)> {
        build_rows(self.arena@, self.n_rows as nat)
    }

    /// Whether there are no rows, with room for `expected_rows`.
    pub open spec fn starts(self, expected_rows: usize) -> bool {
        &&& self.wf()
        &&& self.arena@ == Seq::<u8>::empty()
        &&& self.n_rows == 0
        &&& self.rows() == Seq::<(i32, u64, Seq<u64>)>::empty()
        &&& self.reserved_rows == expected_rows
    }

    /// Whether this is what `before` becomes when the rows of a worker are appended.
    pub open spec fn appends(self, before: Self, local: BuildLocalState) -> bool {
        &&& self.wf()
        &&& self.arena@ == before.arena@ + local.bytes@
        &&& self.rows() == before.rows() + local.rows()
        &&& self.n_rows == before.n_rows + local.n_rows
        &&& self.reserved_rows == before.reserved_rows
        &&& local.n_rows == 0 ==> self == before
    }

    /// An empty build side with room for `expected_rows` rows.
    pub fn new(expected_rows: usize) -> (g: Self)
        requires
            expected_rows * BUILD_ROW_SIZE <= isize::MAX,
        ensures
            g.starts(expected_rows),
    {
        let g: BuildGlobalState = BuildGlobalState {
            arena: Vec::with_capacity(expected_rows * BUILD_ROW_SIZE),
            n_rows: 0,
            reserved_rows: expected_rows,
        };
        assert(g.rows() =~= Seq::empty());
        g
    }

    /// Appends the rows of a worker.
    pub fn combine_local(&mut self, local: BuildLocalState)
        requires
            old(self).wf(),
            local.wf(),
            (old(self).n_rows + local.n_rows) * BUILD_ROW_SIZE <= isize::MAX,
        ensures
            final(self).appends(*old(self), local),
    {
        if local.n_rows == 0 {
            assert(self.rows() + local.rows() =~= self.rows());
            assert(self.arena@ + local.bytes@ =~= self.arena@);
            return ;
        }
        let ghost before = self.arena@;
        let ghost n0 = self.n_rows as nat;
        self.arena.extend_from_slice(local.bytes.as_slice());
        self.n_rows = self.n_rows + local.n_rows;
        proof {
            assert(self.arena@ =~= before + local.bytes@);
            lemma_build_rows_append(before, local.bytes@, n0, local.n_rows as nat);
        }
    }
}

/// The bytes of the rows of some workers, one worker after the other.
pub open spec fn all_bytes(locals: Seq<BuildLocalState>) -> Seq<u8>
    decreases locals.len(),
{
    if locals.len() == 0 {
        Seq::empty()
    } else {
        all_bytes(locals.drop_last()) + locals.last().bytes@
    }
}

/// The rows of some workers, one worker after the other.
pub open spec fn all_local_rows(locals: Seq<BuildLocalState>) -> Seq<(i32, u64, Seq<u64>)>
    decreases locals.len(),
{
    if locals.len() == 0 {
        Seq::empty()
    } else {
        all_local_rows(locals.drop_last()) + locals.last().rows()
    }
}

/// How many rows some workers hold.
pub open spec fn total_local_rows(locals: Seq<BuildLocalState>) -> nat
    decreases locals.len(),
{
    if locals.len() == 0 {
        0
    } else {
        total_local_rows(locals.drop_last()) + locals.last().n_rows as nat
    }
}

/// When the rows of workers are appended to an empty build side, in whatever order
/// the workers come, it holds their bytes one after the other, each worker's in one
/// piece, and as many rows as they hold together; the room reserved stays as it was.
/// `states` are the build side at first and after each worker.
pub proof fn law_locals_combined(
    states: Seq<BuildGlobalState>,
    locals: Seq<BuildLocalState>,
    expected_rows: usize,
)
    requires
        states.len() == locals.len() + 1,
        states[0].starts(expected_rows),
        forall|i: int|
            0 <= i < locals.len() ==> states[i + 1].appends(states[i], #[trigger] locals[i]),
    ensures
        states.last().arena@ == all_bytes(locals),
        states.last().arena@.len() == states.last().n_rows * BUILD_ROW_SIZE,
        states.last().n_rows == total_local_rows(locals),
        states.last().rows() == all_local_rows(locals),
        states.last().reserved_rows == expected_rows,
        forall|i: int|
            0 <= i < locals.len() ==> states.last().arena@.subrange(
                all_bytes(locals.take(i)).len() as int,
                (all_bytes(locals.take(i)).len() + (#[trigger] locals[i]).bytes@.len()) as int,
            ) == locals[i].bytes@,
        forall|i: int|
            0 <= i < locals.len() && (#[trigger] locals[i]).n_rows == 0 ==> states[i + 1]
                == states[i],
    decreases locals.len(),
{
    if locals.len() > 0 {
        let before = locals.drop_last();
        let s = states.drop_last();
        assert forall|i: int| 0 <= i < before.len() implies s[i + 1].appends(
            s[i],
            #[trigger] before[i],
        ) by {
            assert(locals[i] == before[i]);
        }
        law_locals_combined(s, before, expected_rows);
        let n = locals.len() as int;
        assert(states[n].appends(states[n - 1], locals[n - 1]));
        assert(s.last() == states[n - 1]);
    }
    assert forall|i: int| 0 <= i < locals.len() implies states.last().arena@.subrange(
        all_bytes(locals.take(i)).len() as int,
        (all_bytes(locals.take(i)).len() + (#[trigger] locals[i]).bytes@.len()) as int,
    ) == locals[i].bytes@ by {
        lemma_bytes_in_place(locals, i);
    }
}

/// The bytes of a worker lie, in one piece, within those of all workers.
proof fn lemma_bytes_in_place(locals: Seq<BuildLocalState>, i: int)
    requires
        0 <= i < locals.len(),
    ensures
        all_bytes(locals.take(i)).len() + locals[i].bytes@.len() <= all_bytes(locals).len(),
        all_bytes(locals).subrange(
            all_bytes(locals.take(i)).len() as int,
            (all_bytes(locals.take(i)).len() + locals[i].bytes@.len()) as int,
        ) == locals[i].bytes@,
    decreases locals.len(),
{
    let all = all_bytes(locals);
    let prev = locals.drop_last();
    let at = all_bytes(locals.take(i)).len() as int;
    let end = at + locals[i].bytes@.len();
    if i < locals.len() - 1 {
        lemma_bytes_in_place(prev, i);
        assert(prev.take(i) =~= locals.take(i));
        assert(all.subrange(at, end) =~= all_bytes(prev).subrange(at, end));
    } else {
        assert(locals.take(i) =~= prev);
        assert(all.subrange(at, end) =~= locals[i].bytes@);
    }
}

/// Fewest buckets of the pointer table of a hash join.
pub const MIN_BUILD_CAPACITY: usize = 16384;

/// The number of buckets aimed at for `n` rows, before rounding up to a power of
/// two: at most a quarter of the buckets is used.
pub open spec fn build_capacity_target(n: int) -> int {
    if 4 * n >= MIN_BUILD_CAPACITY {
        4 * n
    } else {
        MIN_BUILD_CAPACITY as int
    }
}

/// Whether a build side of `n` rows fits the memory, and the addresses of its rows
/// fit an entry.
pub open spec fn build_fits(n: int) -> bool {
    &&& n * BUILD_ROW_SIZE <= isize::MAX
    &&& ARENA_BASE + n * BUILD_ROW_SIZE <= ht_entry::ADDRESS_SPACE
    &&& ARENA_BASE + n * BUILD_ROW_SIZE <= usize::MAX
}

/// Tests whether a build side of `n` rows fits.
pub fn build_side_fits(n: usize) -> (b: bool)
    ensures
        b == build_fits(n as int),
{
    match n.checked_mul(BUILD_ROW_SIZE) {
        None => false,
        Some(size) => size <= isize::MAX as usize && size as u64 <= ht_entry::ADDRESS_SPACE
            - ARENA_BASE as u64,
    }
}

/// The hashes of rows.
pub open spec fn hashes_of(rows: Seq<(i32, u64, Seq<u64>)>) -> Seq<u64> {
    rows.map_values(|r: (i32, u64, Seq<u64>)| r.1)
}

/// The keys of rows.
pub open spec fn keys_of(rows: Seq<(i32, u64, Seq<u64>)>) -> Seq<i32> {
    rows.map_values(|r: (i32, u64, Seq<u64>)| r.0)
}

/// The addresses of a joined row: those of the build row, and where it has none
/// those of the probe row.
pub open spec fn merged(build: Seq<u64>, probe: Seq<u64>) -> Seq<u64> {
    Seq::new(
        5,
        |s: int|
            if build[s] == 0 {
                probe[s]
            } else {
                build[s]
            },
    )
}

/// A hash join: it collects the build side, and then joins probe rows with it.
pub struct HashJoinOp {
    /// The slot of the table that the build side scans, if it scans one.
    pub slot_idx: usize,
    pub build: BuildGlobalState,
    /// The pointer table over the build rows; without buckets until `finalize`.
    pub directory: Directory,
    /// One bit per build row: whether a probe has matched it.
    pub matched: Vec<u64>,
    /// Whether the build rows have been filed.
    pub built: bool,
}

impl HashJoinOp {
    /// The pointer table over the build rows.
    pub open spec fn dir(self) -> Directory {
        self.directory
    }

    /// Which build rows were matched, as a bitmap.
    pub open spec fn marks(self) -> Seq<u64> {
        self.matched@
    }

    /// Whether the build rows have been filed.
    pub open spec fn is_built(self) -> bool {
        self.built
    }

    /// The build rows.
    pub open spec fn rows(self) -> Seq<(i32, u64, Seq<u64>)> {
        self.build.rows()
    }

    /// Every build row is filed, once, under its hash; rows with equal hashes were
    /// filed in the order of the rows.
    pub open spec fn joinable(self) -> bool {
        &&& self.is_built()
        &&& self.build.wf()
        &&& self.dir().wf(self.build.arena@, BUILD_ROW_SIZE as int)
        &&& self.dir().filed() == hashes_of(self.rows())
        &&& directory::lists_all(self.dir().order(), self.rows().len())
        &&& directory::stable(self.dir().order(), self.dir().filed())
        &&& pow2s::is_next_power_of_two(
            self.dir().capacity() as int,
            build_capacity_target(self.rows().len() as int),
        )
        &&& self.marks().len() == (self.rows().len() + 63) / 64
    }

    /// The build rows that a probe matches, in the order in which it meets them.
    pub open spec fn matches(self, h: u64, key: i32) -> Seq<int> {
        directory::with_key(
            self.dir().chain(h),
            self.build.arena@,
            BUILD_ROW_SIZE as int,
            BUILD_KEY_OFF as int,
            key,
        )
    }

    /// Whether one of the probe rows matches build row `r`.
    pub open spec fn is_hit(self, probes: Seq<(i32, u64, Seq<u64>)>, r: int) -> bool {
        exists|i: int|
            0 <= i < probes.len() && #[trigger] self.matches(probes[i].1, probes[i].0).contains(r)
    }

    /// Whether exactly the build rows that one of the probe rows matches are
    /// marked.
    pub open spec fn has_marked(self, probes: Seq<(i32, u64, Seq<u64>)>) -> bool {
        forall|r: int|
            0 <= r < self.rows().len() ==> #[trigger] bitmap::is_marked(self.marks(), r)
                == self.is_hit(probes, r)
    }

    /// What comes out for one probe row: one row for each build row that it
    /// matches, or the probe row itself if it matches none.
    pub open spec fn joined(self, p: (i32, u64, Seq<u64>)) -> Seq<(i32, u64, Seq<u64>)> {
        let m = self.matches(p.1, p.0);
        if m.len() == 0 {
            seq![p]
        } else {
            m.map_values(|r: int| (p.0, p.1, merged(self.rows()[r].2, p.2)))
        }
    }

    /// What comes out for some probe rows, one after the other.
    pub open spec fn all_joined(self, probes: Seq<(i32, u64, Seq<u64>)>) -> Seq<
        (i32, u64, Seq<u64>),
    >
        decreases probes.len(),
    {
        if probes.len() == 0 {
            Seq::empty()
        } else {
            self.all_joined(probes.drop_last()) + self.joined(probes.last())
        }
    }

    /// The unmatched build rows among `lo..hi`.
    pub open spec fn unmatched(self, lo: int, hi: int) -> Seq<(i32, u64, Seq<u64>)> {
        select::select(lo, hi, bitmap::unmarked(self.marks())).map_values(
            |r: int| self.rows()[r],
        )
    }

    /// Whether `self` is `before` but for its marks.
    pub open spec fn same_join(self, before: Self) -> bool {
        &&& self.slot_idx == before.slot_idx
        &&& self.build == before.build
        &&& self.dir() == before.dir()
        &&& self.is_built() == before.is_built()
    }

    /// A hash join without build rows, with room for `expected_rows`.
    pub fn new(expected_rows: usize, slot_idx: usize) -> (j: Self)
        requires
            expected_rows * BUILD_ROW_SIZE <= isize::MAX,
        ensures
            j.slot_idx == slot_idx,
            j.build.reserved_rows == expected_rows,
            j.dir().capacity() == 0,
            j.marks() == Seq::<u64>::empty(),
            j.has(Seq::<(i32, u64, Seq<u64>)>::empty()),
    {
        HashJoinOp {
            slot_idx,
            build: BuildGlobalState::new(expected_rows),
            directory: Directory::unbuilt(),
            matched: Vec::new(),
            built: false,
        }
    }

    /// Number of build rows.
    pub fn n_rows(&self) -> (n: usize)
        ensures
            n == self.rows().len(),
    {
        self.build.n_rows
    }
}

/// The build rows stay as they are when only their links change.
proof fn lemma_build_rows_kept(before: Seq<u8>, after: Seq<u8>, n: nat)
    requires
        directory::only_links_changed(before, after, BUILD_ROW_SIZE as int),
        n * BUILD_ROW_SIZE <= before.len(),
    ensures
        build_rows(after, n) == build_rows(before, n),
{
    let got = build_rows(after, n);
    let had = build_rows(before, n);
    assert forall|i: int| 0 <= i < n implies #[trigger] got[i] == had[i] by {
        let at = i * BUILD_ROW_SIZE;
        assert forall|k: int| 8 <= k < BUILD_ROW_SIZE implies #[trigger] after[at + k] == before[at
            + k] by {
            assert((at + k) % (BUILD_ROW_SIZE as int) == k);
        }
        lemma_build_row_same(after, before, at, at);
    }
    assert(got =~= had);
}

impl Sink for HashJoinOp {
    type Global = BuildGlobalState;

    type Local = BuildLocalState;

    open spec fn local_has(&self, local: BuildLocalState, rows: Seq<(i32, u64, Seq<u64>)>) -> bool {
        &&& local.wf()
        &&& local.rows() == rows
    }

    open spec fn has(&self, rows: Seq<(i32, u64, Seq<u64>)>) -> bool {
        &&& !self.is_built()
        &&& self.build.wf()
        &&& self.rows() == rows
    }

    open spec fn finished(&self, rows: Seq<(i32, u64, Seq<u64>)>) -> bool {
        &&& self.joinable()
        &&& self.rows() == rows
        &&& self.marks() == bitmap::no_marks(rows.len() as int)
        &&& self.has_marked(Seq::<(i32, u64, Seq<u64>)>::empty())
    }

    open spec fn can_take(&self, rows: Seq<(i32, u64, Seq<u64>)>) -> bool {
        build_fits(rows.len() as int)
    }

    open spec fn continues(&self, before: Self) -> bool {
        &&& self.slot_idx == before.slot_idx
        &&& self.build.reserved_rows == before.build.reserved_rows
    }

    open spec fn takes(&self, local: BuildLocalState, batch: Batch, after: BuildLocalState) -> bool {
        after.appends(local, batch)
    }

    open spec fn combined(&self, before: Self, local: BuildLocalState) -> bool {
        &&& self.build.appends(before.build, local)
        &&& self.slot_idx == before.slot_idx
        &&& self.dir() == before.dir()
        &&& self.marks() == before.marks()
        &&& self.is_built() == before.is_built()
    }

    proof fn continues_itself(&self) {
    }

    proof fn continues_on(&self, between: Self, before: Self) {
    }

    proof fn fresh_local(&self, local: BuildLocalState) {
    }

    proof fn takes_parts(
        &self,
        a: Seq<(i32, u64, Seq<u64>)>,
        b: Seq<(i32, u64, Seq<u64>)>,
        c: Seq<(i32, u64, Seq<u64>)>,
    ) {
    }

    fn global_state(&self) -> (g: &BuildGlobalState)
        ensures
            *g == self.build,
    {
        &self.build
    }

    fn sink(&self, batch: Batch, local: &mut BuildLocalState) {
        local.append_batch(&batch);
    }

    fn combine(&mut self, local: BuildLocalState) {
        self.build.combine_local(local);
    }

    fn finalize(&mut self) {
        let ghost rows = self.rows();
        let ghost before = self.build.arena@;
        let n: usize = self.build.n_rows;
        let target: usize = if 4 * n >= MIN_BUILD_CAPACITY {
            4 * n
        } else {
            MIN_BUILD_CAPACITY
        };
        let capacity: usize = pow2s::next_power_of_two(target).0;
        let mut hashes: Vec<u64> = Vec::with_capacity(n);
        let mut i: usize = 0;
        while i < n
            invariant
                i <= n,
                n == self.build.n_rows,
                self.build.wf(),
                rows == self.rows(),
                hashes@ == hashes_of(rows).take(i as int),
            decreases n - i,
        {
            assert(i * BUILD_ROW_SIZE + BUILD_ROW_SIZE <= self.build.arena@.len());
            hashes.push(
                read_u64(self.build.arena.as_slice(), i * BUILD_ROW_SIZE + BUILD_HASH_OFF),
            );
            assert(hashes@ =~= hashes_of(rows).take(i + 1));
            i += 1;
        }
        assert(hashes_of(rows).take(n as int) =~= hashes_of(rows));
        let mut directory: Directory = Directory::with_capacity(
            capacity,
            Ghost(self.build.arena@),
            Ghost(BUILD_ROW_SIZE as int),
            Ghost(hashes@),
        );
        file_by_partition(
            &mut directory,
            self.build.arena.as_mut_slice(),
            BUILD_ROW_SIZE,
            hashes.as_slice(),
        );
        self.directory = directory;
        self.matched = bitmap::cleared(n);
        self.built = true;
        proof {
            lemma_build_rows_kept(before, self.build.arena@, n as nat);
            bitmap::lemma_no_marks(n as int);
        }
    }
}

/// What a probe of a hash join meets: build rows that hold its key and are filed
/// under its salt, each once; and all those that hold its key and are filed under
/// its hash.
pub proof fn law_join_matches(j: HashJoinOp, h: u64, key: i32)
    requires
        j.joinable(),
    ensures
        forall|e: int|
            0 <= e < j.matches(h, key).len() ==> {
                let r = #[trigger] j.matches(h, key)[e];
                &&& 0 <= r < j.rows().len()
                &&& j.rows()[r].0 == key
                &&& ht_entry::same_salt(j.rows()[r].1, h)
            },
        j.matches(h, key).no_duplicates(),
        forall|r: int|
            0 <= r < j.rows().len() && j.rows()[r].0 == key && j.rows()[r].1 == h
                ==> #[trigger] j.matches(h, key).contains(r),
{
    directory::lemma_with_key(
        j.dir(),
        j.build.arena@,
        BUILD_ROW_SIZE as int,
        BUILD_KEY_OFF as int,
        h,
        key,
    );
    let found = j.matches(h, key);
    assert forall|e: int| 0 <= e < found.len() implies {
        let r = #[trigger] found[e];
        &&& 0 <= r < j.rows().len()
        &&& j.rows()[r].0 == key
        &&& ht_entry::same_salt(j.rows()[r].1, h)
    } by {
        assert(j.dir().filed()[found[e]] == j.rows()[found[e]].1);
    }
    assert forall|r: int|
        0 <= r < j.rows().len() && j.rows()[r].0 == key && j.rows()[r].1
            == h implies #[trigger] found.contains(r) by {
        assert(j.dir().filed()[r] == j.rows()[r].1);
    }
}

/// Merges the addresses of a build row and a probe row.
fn merge_ptrs(build: [u64; 5], probe: [u64; 5]) -> (m: [u64; 5])
    ensures
        m@ == merged(build@, probe@),
{
    let mut m: [u64; 5] = build;
    let mut s: usize = 0;
    while s < 5
        invariant
            s <= 5,
            forall|q: int| 0 <= q < s ==> #[trigger] m@[q] == merged(build@, probe@)[q],
            forall|q: int| s <= q < 5 ==> #[trigger] m@[q] == build@[q],
        decreases 5 - s,
    {
        if m[s] == 0 {
            m[s] = probe[s];
        }
        s += 1;
    }
    assert(m@ =~= merged(build@, probe@));
    m
}

impl HashJoinOp {
    /// Joins the rows of a batch with the build side: for each probe row one row
    /// per build row that it matches, with the addresses of both, or the probe row
    /// alone. The build rows that were matched are marked.
    pub fn probe_execute(&mut self, probe_batch: &Batch) -> (out: Batch)
        requires
            old(self).joinable(),
            probe_batch.wf(),
        ensures
            out.wf(),
            out.rows() == old(self).all_joined(probe_batch.rows()),
            final(self).joinable(),
            final(self).same_join(*old(self)),
            final(self).marks().len() == old(self).marks().len(),
            forall|r: int|
                0 <= r < 64 * old(self).marks().len() ==> #[trigger] bitmap::is_marked(
                    final(self).marks(),
                    r,
                ) == (bitmap::is_marked(old(self).marks(), r) || old(self).is_hit(
                    probe_batch.rows(),
                    r,
                )),
            forall|seen: Seq<(i32, u64, Seq<u64>)>|
                #[trigger] old(self).has_marked(seen) ==> final(self).has_marked(
                    seen + probe_batch.rows(),
                ),
    {
        let ghost j0 = *self;
        let ghost probes = probe_batch.rows();
        let n: usize = probe_batch.len();
        let mut out: Batch = Batch::default();
        let mut i: usize = 0;
        proof {
            assert(probes.take(0) =~= Seq::empty());
            assert forall|r: int| 0 <= r < 64 * j0.marks().len() implies #[trigger] bitmap::is_marked(
                self.marks(),
                r,
            ) == (bitmap::is_marked(j0.marks(), r) || j0.is_hit(probes.take(0), r)) by {}
        }
        while i < n
            invariant
                i <= n,
                n == probes.len(),
                probes == probe_batch.rows(),
                probe_batch.wf(),
                j0.joinable(),
                self.same_join(j0),
                self.marks().len() == j0.marks().len(),
                out.wf(),
                out.rows() == j0.all_joined(probes.take(i as int)),
                forall|r: int|
                    0 <= r < 64 * j0.marks().len() ==> #[trigger] bitmap::is_marked(self.marks(), r) == (
                    bitmap::is_marked(j0.marks(), r) || j0.is_hit(probes.take(i as int), r)),
            decreases n - i,
        {
            let h: u64 = probe_batch.hashes[i];
            let key: i32 = probe_batch.keys[i];
            let probe_ptrs: [u64; 5] = probe_batch.ptrs[i];
            let ghost p = (key, h, probe_ptrs@);
            let ghost m = j0.matches(h, key);
            let found: Vec<usize> = self.directory.matching_rows(
                self.build.arena.as_slice(),
                BUILD_ROW_SIZE,
                BUILD_KEY_OFF,
                h,
                key,
            );
            proof {
                law_join_matches(j0, h, key);
                assert(probes[i as int] == p);
                assert(probes.take(i + 1).drop_last() =~= probes.take(i as int));
                assert(found@.map_values(|x: usize| x as int) == m);
                assert(m.len() == found@.len());
            }
            let ghost before = out.rows();
            let ghost marks0 = self.marks();
            let ghost emitted = m.map_values(|r: int| (key, h, merged(j0.rows()[r].2, p.2)));
            let k: usize = found.len();
            let mut e: usize = 0;
            assert(before + emitted.take(0) =~= before);
            while e < k
                invariant
                    e <= k,
                    k == found@.len(),
                    m == found@.map_values(|x: usize| x as int),
                    m.len() == k,
                    forall|e: int| 0 <= e < m.len() ==> 0 <= #[trigger] m[e] < j0.rows().len(),
                    emitted == m.map_values(|r: int| (key, h, merged(j0.rows()[r].2, p.2))),
                    p.2 == probe_ptrs@,
                    j0.joinable(),
                    self.same_join(j0),
                    self.marks().len() == j0.marks().len(),
                    out.wf(),
                    out.rows() == before + emitted.take(e as int),
                    forall|r: int|
                        0 <= r < 64 * j0.marks().len() ==> #[trigger] bitmap::is_marked(self.marks(), r)
                            == (bitmap::is_marked(marks0, r) || m.take(e as int).contains(r)),
                decreases k - e,
            {
                let r: usize = found[e];
                let ghost marks1 = self.marks();
                assert(m[e as int] == r);
                assert(r * BUILD_ROW_SIZE + BUILD_ROW_SIZE <= self.build.arena@.len());
                bitmap::mark(&mut self.matched, r);
                let (_, _, build_ptrs): (i32, u64, [u64; 5]) = read_build_row(
                    self.build.arena.as_slice(),
                    r * BUILD_ROW_SIZE,
                );
                out.push(key, h, merge_ptrs(build_ptrs, probe_ptrs));
                proof {
                    assert(emitted.take(e + 1) =~= emitted.take(e as int).push(emitted[e as int]));
                    assert(out.rows() =~= before + emitted.take(e + 1));
                    assert forall|q: int|
                        0 <= q < 64 * j0.marks().len() implies #[trigger] bitmap::is_marked(
                        self.marks(),
                        q,
                    ) == (bitmap::is_marked(marks0, q) || m.take(e + 1).contains(q)) by {
                        assert(bitmap::is_marked(marks1, q) == (bitmap::is_marked(marks0, q)
                            || m.take(e as int).contains(q)));
                        lemma_take_contains(m, e as int, q);
                    }
                }
                e += 1;
            }
            proof {
                assert(m.take(k as int) =~= m);
                assert(emitted.take(k as int) =~= emitted);
            }
            if k == 0 {
                out.push(key, h, probe_ptrs);
                assert(out.rows() =~= before + seq![p]);
            }
            proof {
                assert forall|r: int| 0 <= r < 64 * j0.marks().len() implies #[trigger] bitmap::is_marked(
                    self.marks(),
                    r,
                ) == (bitmap::is_marked(j0.marks(), r) || j0.is_hit(probes.take(i + 1), r)) by {
                    assert(bitmap::is_marked(marks0, r) == (bitmap::is_marked(j0.marks(), r)
                        || j0.is_hit(probes.take(i as int), r)));
                    lemma_hit_push(j0, probes, i as int, r);
                }
            }
            i += 1;
        }
        proof {
            assert(probes.take(n as int) =~= probes);
            assert forall|seen: Seq<(i32, u64, Seq<u64>)>| #[trigger] j0.has_marked(
                seen,
            ) implies self.has_marked(seen + probes) by {
                assert forall|r: int| 0 <= r < self.rows().len() implies #[trigger] bitmap::is_marked(
                    self.marks(),
                    r,
                ) == self.is_hit(seen + probes, r) by {
                    assert(bitmap::is_marked(j0.marks(), r) == j0.is_hit(seen, r));
                    lemma_hit_concat(j0, seen, probes, r);
                    lemma_same_hits(*self, j0, seen + probes, r);
                }
            }
        }
        out
    }

    /// How many build rows a probe matches.
    pub(crate) fn count_matches(&self, h: u64, key: i32) -> (n: usize)
        requires
            self.joinable(),
        ensures
            n == self.matches(h, key).len(),
    {
        let found: Vec<usize> = self.directory.matching_rows(
            self.build.arena.as_slice(),
            BUILD_ROW_SIZE,
            BUILD_KEY_OFF,
            h,
            key,
        );
        assert(found@.map_values(|x: usize| x as int).len() == found@.len());
        found.len()
    }

    /// How many build rows are not matched.
    pub(crate) fn count_unmatched(&self) -> (n: usize)
        requires
            self.joinable(),
        ensures
            n == self.unmatched(0, self.rows().len() as int).len(),
    {
        bitmap::count_all_unmarked(self.matched.as_slice(), self.n_rows())
    }

    /// The unmatched build rows among the `chunk_size` rows from `start_row` on,
    /// or `None` if there is none.
    pub fn emit_unmatched_batch(&self, start_row: usize, chunk_size: usize) -> (b: Option<Batch>)
        requires
            self.joinable(),
        ensures
            ({
                let n = self.rows().len() as int;
                let end = if start_row + chunk_size <= n {
                    start_row + chunk_size
                } else {
                    n
                };
                let rows = self.unmatched(start_row as int, end);
                match b {
                    Some(batch) => batch.wf() && batch.rows() == rows && rows.len() > 0,
                    None => rows.len() == 0,
                }
            }),
    {
        let n: usize = self.n_rows();
        if start_row >= n {
            return None;
        }
        let end: usize = if n - start_row > chunk_size {
            start_row + chunk_size
        } else {
            n
        };
        let ghost free = bitmap::unmarked(self.marks());
        let mut out: Batch = Batch::default();
        let mut i: usize = start_row;
        assert(out.rows() =~= self.unmatched(start_row as int, start_row as int));
        while i < end
            invariant
                self.joinable(),
                start_row <= i <= end <= n,
                n == self.rows().len(),
                free == bitmap::unmarked(self.marks()),
                out.wf(),
                out.rows() == self.unmatched(start_row as int, i as int),
            decreases end - i,
        {
            if !bitmap::test(self.matched.as_slice(), i) {
                assert(i * BUILD_ROW_SIZE + BUILD_ROW_SIZE <= self.build.arena@.len());
                let (key, hash, ptrs): (i32, u64, [u64; 5]) = read_build_row(
                    self.build.arena.as_slice(),
                    i * BUILD_ROW_SIZE,
                );
                let ghost before = out.rows();
                out.push(key, hash, ptrs);
                assert(self.unmatched(start_row as int, i + 1) =~= before.push(
                    self.rows()[i as int],
                ));
            } else {
                assert(self.unmatched(start_row as int, i + 1) =~= self.unmatched(
                    start_row as int,
                    i as int,
                ));
            }
            i += 1;
        }
        if out.is_empty() {
            None
        } else {
            Some(out)
        }
    }
}

proof fn lemma_take_contains(m: Seq<int>, e: int, q: int)
    requires
        0 <= e < m.len(),
    ensures
        m.take(e + 1).contains(q) == (q == m[e] || m.take(e).contains(q)),
{
    let a = m.take(e);
    let b = m.take(e + 1);
    if a.contains(q) {
        let i = choose|i: int| 0 <= i < a.len() && a[i] == q;
        assert(b[i] == q);
    }
    if q == m[e] {
        assert(b[e] == q);
    }
    if b.contains(q) {
        let i = choose|i: int| 0 <= i < b.len() && b[i] == q;
        if i < e {
            assert(a[i] == q);
        }
    }
}

proof fn lemma_hit_push(j: HashJoinOp, probes: Seq<(i32, u64, Seq<u64>)>, i: int, r: int)
    requires
        0 <= i < probes.len(),
    ensures
        j.is_hit(probes.take(i + 1), r) == (j.is_hit(probes.take(i), r) || j.matches(
            probes[i].1,
            probes[i].0,
        ).contains(r)),
{
    let a = probes.take(i);
    let b = probes.take(i + 1);
    if j.is_hit(a, r) {
        let k = choose|k: int| 0 <= k < a.len() && #[trigger] j.matches(a[k].1, a[k].0).contains(r);
        assert(b[k] == a[k]);
        assert(j.matches(b[k].1, b[k].0).contains(r));
    }
    if j.matches(probes[i].1, probes[i].0).contains(r) {
        assert(b[i] == probes[i]);
        assert(j.matches(b[i].1, b[i].0).contains(r));
    }
    if j.is_hit(b, r) {
        let k = choose|k: int| 0 <= k < b.len() && #[trigger] j.matches(b[k].1, b[k].0).contains(r);
        if k < i {
            assert(a[k] == b[k]);
            assert(j.matches(a[k].1, a[k].0).contains(r));
        }
    }
}

proof fn lemma_hit_concat(
    j: HashJoinOp,
    a: Seq<(i32, u64, Seq<u64>)>,
    b: Seq<(i32, u64, Seq<u64>)>,
    r: int,
)
    ensures
        j.is_hit(a + b, r) == (j.is_hit(a, r) || j.is_hit(b, r)),
{
    let c = a + b;
    if j.is_hit(a, r) {
        let k = choose|k: int| 0 <= k < a.len() && #[trigger] j.matches(a[k].1, a[k].0).contains(r);
        assert(c[k] == a[k]);
        assert(j.matches(c[k].1, c[k].0).contains(r));
    }
    if j.is_hit(b, r) {
        let k = choose|k: int| 0 <= k < b.len() && #[trigger] j.matches(b[k].1, b[k].0).contains(r);
        assert(c[a.len() + k] == b[k]);
        assert(j.matches(c[a.len() + k].1, c[a.len() + k].0).contains(r));
    }
    if j.is_hit(c, r) {
        let k = choose|k: int| 0 <= k < c.len() && #[trigger] j.matches(c[k].1, c[k].0).contains(r);
        if k < a.len() {
            assert(a[k] == c[k]);
            assert(j.matches(a[k].1, a[k].0).contains(r));
        } else {
            assert(b[k - a.len()] == c[k]);
            assert(j.matches(b[k - a.len()].1, b[k - a.len()].0).contains(r));
        }
    }
}

proof fn lemma_same_hits(
    j: HashJoinOp,
    k: HashJoinOp,
    probes: Seq<(i32, u64, Seq<u64>)>,
    r: int,
)
    requires
        j.same_join(k),
    ensures
        j.is_hit(probes, r) == k.is_hit(probes, r),
{
    assert forall|h: u64, key: i32| #[trigger] j.matches(h, key) == k.matches(h, key) by {}
    if j.is_hit(probes, r) {
        let i = choose|i: int|
            0 <= i < probes.len() && #[trigger] j.matches(probes[i].1, probes[i].0).contains(r);
        assert(k.matches(probes[i].1, probes[i].0).contains(r));
    }
    if k.is_hit(probes, r) {
        let i = choose|i: int|
            0 <= i < probes.len() && #[trigger] k.matches(probes[i].1, probes[i].0).contains(r);
        assert(j.matches(probes[i].1, probes[i].0).contains(r));
    }
}

proof fn lemma_same_joined(j: HashJoinOp, k: HashJoinOp, probes: Seq<(i32, u64, Seq<u64>)>)
    requires
        j.same_join(k),
    ensures
        j.all_joined(probes) == k.all_joined(probes),
    decreases probes.len(),
{
    if probes.len() > 0 {
        lemma_same_joined(j, k, probes.drop_last());
        let p = probes.last();
        assert(j.matches(p.1, p.0) == k.matches(p.1, p.0));
        assert(j.joined(p) =~= k.joined(p));
    }
}

/// The operator of the probe side: it joins batches with a finalized hash join.
pub struct ProbeOperator {
    pub hj: HashJoinOp,
    pub global: ProbeGlobal,
}

pub struct ProbeGlobal;

pub struct ProbeLocal;

impl Default for ProbeLocal {
    fn default() -> Self {
        ProbeLocal
    }
}

impl ProbeOperator {
    /// The operator over a finalized hash join, which is in `hj` afterwards.
    pub fn new(hj: HashJoinOp) -> (p: Self)
        ensures
            p.hj == hj,
    {
        ProbeOperator { hj, global: ProbeGlobal }
    }
}

impl Operator for ProbeOperator {
    type Global = ProbeGlobal;

    type Local = ProbeLocal;

    open spec fn ready(&self) -> bool {
        self.hj.joinable()
    }

    open spec fn output(&self, rows: Seq<(i32, u64, Seq<u64>)>) -> Seq<(i32, u64, Seq<u64>)> {
        self.hj.all_joined(rows)
    }

    open spec fn has_seen(&self, rows: Seq<(i32, u64, Seq<u64>)>) -> bool {
        self.hj.has_marked(rows)
    }

    open spec fn continues(&self, before: Self) -> bool {
        self.hj.same_join(before.hj)
    }

    proof fn continues_itself(&self) {
    }

    proof fn continues_on(&self, between: Self, before: Self) {
    }

    open spec fn makes(
        &self,
        local: ProbeLocal,
        input: Batch,
        out: Seq<Batch>,
        after: Self,
        local_after: ProbeLocal,
    ) -> bool {
        &&& after.hj.same_join(self.hj)
        &&& after.hj.marks().len() == self.hj.marks().len()
        &&& forall|r: int|
            0 <= r < 64 * self.hj.marks().len() ==> #[trigger] bitmap::is_marked(
                after.hj.marks(),
                r,
            ) == (bitmap::is_marked(self.hj.marks(), r) || self.hj.is_hit(input.rows(), r))
        &&& out.len() == (if self.hj.all_joined(input.rows()).len() == 0 {
            0nat
        } else {
            1
        })
        &&& out.len() > 0 ==> out[0].wf() && out[0].rows() == self.hj.all_joined(input.rows())
    }

    fn global_state(&self) -> (g: &ProbeGlobal)
        ensures
            *g == self.global,
    {
        &self.global
    }

    fn execute(&mut self, input: Batch, local: &mut ProbeLocal) -> (out: Vec<Batch>) {
        let made: Batch = self.hj.probe_execute(&input);
        let ghost rows = made.rows();
        proof {
            assert forall|r: Seq<(i32, u64, Seq<u64>)>| #[trigger] self.output(r) == old(
                self,
            ).output(r) by {
                lemma_same_joined(self.hj, old(self).hj, r);
            }
        }
        let mut out: Vec<Batch> = Vec::new();
        if !made.is_empty() {
            out.push(made);
            proof {
                let b = pipeline::rows_of_batches(out@);
                assert(b.drop_last() =~= Seq::empty());
                assert(pipeline::all_rows(b.drop_last()) =~= Seq::empty());
                assert(pipeline::all_rows(b) =~= rows);
            }
        } else {
            proof {
                assert(pipeline::rows_of_batches(out@) =~= Seq::empty());
                assert(rows =~= Seq::empty());
            }
        }
        out
    }
}

/// The unmatched build rows from row `start` on, in batches of the rows of one
/// chunk each; chunks without unmatched rows are left out.
pub open spec fn unmatched_batches(j: HashJoinOp, start: int, chunk: int) -> Seq<
    Seq<(i32, u64, Seq<u64>)>,
>
    decreases
            if start < j.rows().len() {
                j.rows().len() - start
            } else {
                0
            },
{
    let n = j.rows().len() as int;
    if start >= n || chunk <= 0 {
        Seq::empty()
    } else {
        let end = if start + chunk <= n {
            start + chunk
        } else {
            n
        };
        let rows = j.unmatched(start, end);
        if rows.len() > 0 {
            seq![rows] + unmatched_batches(j, start + chunk, chunk)
        } else {
            unmatched_batches(j, start + chunk, chunk)
        }
    }
}

/// Where the unmatched source stands after it was asked at row `start`: behind the
/// chunk that it hands out; or, if no chunk from there on has unmatched rows, one
/// chunk behind the first start of a chunk that is past the last row.
pub open spec fn position_after(j: HashJoinOp, start: int, chunk: int) -> int
    decreases
            if start < j.rows().len() {
                j.rows().len() - start
            } else {
                0
            },
{
    let n = j.rows().len() as int;
    if start >= n || chunk <= 0 {
        start + chunk
    } else {
        let end = if start + chunk <= n {
            start + chunk
        } else {
            n
        };
        if j.unmatched(start, end).len() > 0 {
            start + chunk
        } else {
            position_after(j, start + chunk, chunk)
        }
    }
}

/// A position as far as it can be counted.
pub open spec fn counted(position: int) -> usize {
    if position <= usize::MAX {
        position as usize
    } else {
        usize::MAX
    }
}

/// The source of the build rows that no probe has matched.
pub struct UnmatchedSource<'a> {
    pub hj: &'a HashJoinOp,
    pub global: UnmatchedGlobal,
}

pub struct UnmatchedGlobal {
    pub next_row: usize,
    pub chunk_size: usize,
}

pub struct UnmatchedLocal;

impl Default for UnmatchedLocal {
    fn default() -> Self {
        UnmatchedLocal
    }
}

/// Number of build rows that make up a chunk of the unmatched source.
pub const UNMATCHED_CHUNK: usize = 4096;

impl<'a> UnmatchedSource<'a> {
    /// The source over a hash join that all probes have gone through.
    pub fn new(hj: &'a HashJoinOp) -> (s: Self)
        ensures
            s.hj == hj,
            s.global.next_row == 0,
            s.global.chunk_size == UNMATCHED_CHUNK,
            s.global.chunk_size == 4096,
    {
        UnmatchedSource {
            hj,
            global: UnmatchedGlobal { next_row: 0, chunk_size: UNMATCHED_CHUNK },
        }
    }
}

impl<'a> Source for UnmatchedSource<'a> {
    type Global = UnmatchedGlobal;

    type Local = UnmatchedLocal;

    open spec fn ready(&self) -> bool {
        &&& self.hj.joinable()
        &&& self.global.chunk_size > 0
    }

    open spec fn remaining(&self) -> Seq<Seq<(i32, u64, Seq<u64>)>> {
        unmatched_batches(
            *self.hj,
            self.global.next_row as int,
            self.global.chunk_size as int,
        )
    }

    open spec fn gives(
        &self,
        local: UnmatchedLocal,
        b: Option<Batch>,
        after: Self,
        local_after: UnmatchedLocal,
    ) -> bool {
        &&& after.hj == self.hj
        &&& after.global.chunk_size == self.global.chunk_size
        &&& after.global.next_row == counted(
            position_after(
                *self.hj,
                self.global.next_row as int,
                self.global.chunk_size as int,
            ),
        )
        &&& match b {
            Some(batch) => {
                &&& batch.wf()
                &&& self.remaining().len() > 0
                &&& batch.rows() == self.remaining()[0]
            },
            None => self.remaining().len() == 0,
        }
    }

    fn global_state(&self) -> (g: &UnmatchedGlobal)
        ensures
            *g == self.global,
    {
        &self.global
    }

    fn get_data(&mut self, local: &mut UnmatchedLocal) -> (b: Option<Batch>) {
        let n: usize = self.hj.n_rows();
        let cs: usize = self.global.chunk_size;
        let ghost all = self.remaining();
        let ghost target = counted(
            position_after(*self.hj, self.global.next_row as int, cs as int),
        );
        while self.global.next_row < n
            invariant
                self.hj.joinable(),
                n == self.hj.rows().len(),
                cs == self.global.chunk_size,
                cs > 0,
                self.hj == old(self).hj,
                self.global.chunk_size == old(self).global.chunk_size,
                self.remaining() == all,
                all == old(self).remaining(),
                target == counted(
                    position_after(
                        *old(self).hj,
                        old(self).global.next_row as int,
                        old(self).global.chunk_size as int,
                    ),
                ),
                target == counted(
                    position_after(*self.hj, self.global.next_row as int, cs as int),
                ),
            decreases
                    if self.global.next_row < n {
                        n - self.global.next_row
                    } else {
                        0
                    },
        {
            let start: usize = self.global.next_row;
            self.global.next_row = start.saturating_add(cs);
            proof {
                let j = *self.hj;
                if start + cs > usize::MAX {
                    assert(unmatched_batches(j, start + cs, cs as int) =~= Seq::empty());
                    assert(unmatched_batches(j, usize::MAX as int, cs as int) =~= Seq::empty());
                    assert(position_after(j, start + cs, cs as int) > usize::MAX);
                    assert(position_after(j, usize::MAX as int, cs as int) > usize::MAX);
                }
                assert(counted(position_after(j, start + cs, cs as int)) == counted(
                    position_after(j, self.global.next_row as int, cs as int),
                ));
                assert(self.remaining() == unmatched_batches(j, start + cs, cs as int));
            }
            match self.hj.emit_unmatched_batch(start, cs) {
                Some(batch) => {
                    assert(all.skip(1) =~= self.remaining());
                    return Some(batch);
                },
                None => {},
            }
        }
        self.global.next_row = self.global.next_row.saturating_add(cs);
        assert(self.remaining() =~= Seq::empty());
        None
    }
}

/// The unmatched source hands out every build row that no probe has matched,
/// once, in the order of the rows.
pub proof fn law_unmatched_once(j: HashJoinOp, start: int, chunk: int)
    requires
        0 <= start <= j.rows().len(),
        chunk > 0,
    ensures
        pipeline::all_rows(unmatched_batches(j, start, chunk)) == j.unmatched(
            start,
            j.rows().len() as int,
        ),
    decreases j.rows().len() - start,
{
    let n = j.rows().len() as int;
    let batches = unmatched_batches(j, start, chunk);
    if start < n {
        let end = if start + chunk <= n {
            start + chunk
        } else {
            n
        };
        let rows = j.unmatched(start, end);
        let rest = unmatched_batches(j, start + chunk, chunk);
        if start + chunk <= n {
            law_unmatched_once(j, start + chunk, chunk);
        } else {
            assert(rest =~= Seq::empty());
            assert(j.unmatched(n, n) =~= Seq::empty());
        }
        select::lemma_select_concat(start, end, n, bitmap::unmarked(j.marks()));
        assert(j.unmatched(start, n) =~= rows + j.unmatched(end, n));
        if rows.len() > 0 {
            let one = seq![rows];
            pipeline::lemma_all_rows_concat(one, rest);
            assert(one.drop_last() =~= Seq::empty());
            assert(pipeline::all_rows(one.drop_last()) =~= Seq::empty());
            assert(pipeline::all_rows(one) =~= rows);
        } else {
            assert(j.unmatched(start, n) =~= j.unmatched(end, n));
        }
    } else {
        assert(pipeline::all_rows(batches) =~= j.unmatched(start, n));
    }
}

/// Whether every row holds the hash of its key.
pub open spec fn rows_hashed(rows: Seq<(i32, u64, Seq<u64>)>) -> bool {
    forall|i: int| 0 <= i < rows.len() ==> (#[trigger] rows[i]).1 == hash::key_hash(rows[i].0)
}

/// A probe row that holds the hash of its key matches exactly the build rows with
/// that key, the last one first.
pub proof fn law_join_lookup(j: HashJoinOp, key: i32)
    requires
        j.joinable(),
        rows_hashed(j.rows()),
    ensures
        j.matches(hash::key_hash(key), key) == select::places(keys_of(j.rows()), key).reverse(),
{
    let keys = keys_of(j.rows());
    assert forall|r: int|
        0 <= r < keys.len() && #[trigger] keys[r] == key implies j.dir().filed()[r]
        == hash::key_hash(key) by {
        assert(j.rows()[r].1 == hash::key_hash(j.rows()[r].0));
    }
    directory::lemma_lookup(
        j.dir(),
        j.build.arena@,
        BUILD_ROW_SIZE as int,
        BUILD_KEY_OFF as int,
        keys,
        hash::key_hash(key),
        key,
    );
}

/// With distinct build keys every probe row comes out exactly once.
proof fn lemma_joined_keys(j: HashJoinOp, probes: Seq<(i32, u64, Seq<u64>)>)
    requires
        j.joinable(),
        rows_hashed(j.rows()),
        rows_hashed(probes),
        keys_of(j.rows()).no_duplicates(),
    ensures
        keys_of(j.all_joined(probes)) == keys_of(probes),
        hashes_of(j.all_joined(probes)) == hashes_of(probes),
    decreases probes.len(),
{
    let out = j.all_joined(probes);
    if probes.len() > 0 {
        let prev = probes.drop_last();
        let p = probes.last();
        assert(probes[probes.len() - 1] == p);
        assert(rows_hashed(prev)) by {
            assert forall|i: int| 0 <= i < prev.len() implies (#[trigger] prev[i]).1
                == hash::key_hash(prev[i].0) by {
                assert(probes[i].1 == hash::key_hash(probes[i].0));
            }
        }
        lemma_joined_keys(j, prev);
        law_join_lookup(j, p.0);
        chain::lemma_places(keys_of(j.rows()), p.0);
        let m = j.matches(p.1, p.0);
        assert(m.len() <= 1);
        let before = j.all_joined(prev);
        assert(j.joined(p).len() == 1);
        assert(keys_of(out) =~= keys_of(before).push(p.0));
        assert(hashes_of(out) =~= hashes_of(before).push(p.1));
        assert(keys_of(probes) =~= keys_of(prev).push(p.0));
        assert(hashes_of(probes) =~= hashes_of(prev).push(p.1));
    } else {
        assert(keys_of(out) =~= keys_of(probes));
        assert(hashes_of(out) =~= hashes_of(probes));
    }
}

/// The build rows that are not marked are those whose key no probe row has.
pub proof fn lemma_unmarked_keys(j: HashJoinOp, probes: Seq<(i32, u64, Seq<u64>)>)
    requires
        j.joinable(),
        rows_hashed(j.rows()),
        rows_hashed(probes),
        j.has_marked(probes),
    ensures
        select::select(0, j.rows().len() as int, bitmap::unmarked(j.marks())) == select::select(
            0,
            j.rows().len() as int,
            probe::not_in(keys_of(j.rows()), keys_of(probes)),
        ),
{
    let n = j.rows().len() as int;
    let keys = keys_of(j.rows());
    let pk = keys_of(probes);
    let free = bitmap::unmarked(j.marks());
    let absent = probe::not_in(keys, pk);
    assert forall|r: int| 0 <= r < n implies #[trigger] free(r) == absent(r) by {
        assert(bitmap::is_marked(j.marks(), r) == j.is_hit(probes, r));
        if j.is_hit(probes, r) {
            let i = choose|i: int|
                0 <= i < probes.len() && #[trigger] j.matches(probes[i].1, probes[i].0).contains(r);
            law_join_matches(j, probes[i].1, probes[i].0);
            let m = j.matches(probes[i].1, probes[i].0);
            let e = choose|e: int| 0 <= e < m.len() && m[e] == r;
            assert(j.rows()[m[e]].0 == probes[i].0);
            assert(pk[i] == keys[r]);
        }
        if pk.contains(keys[r]) {
            let i = choose|i: int| 0 <= i < pk.len() && pk[i] == keys[r];
            law_join_matches(j, probes[i].1, probes[i].0);
            assert(probes[i].1 == hash::key_hash(probes[i].0));
            assert(j.rows()[r].1 == hash::key_hash(j.rows()[r].0));
            assert(j.matches(probes[i].1, probes[i].0).contains(r));
        }
    }
    select::lemma_select_same(0, n, free, absent);
}

/// What the probe side of a hash join puts out, followed by the unmatched build
/// rows, is a full outer join: with distinct build keys, the keys that come out are
/// the probe keys and behind them the build keys that no probe has.
pub proof fn law_full_outer_join(j: HashJoinOp, probes: Seq<(i32, u64, Seq<u64>)>)
    requires
        j.joinable(),
        rows_hashed(j.rows()),
        rows_hashed(probes),
        keys_of(j.rows()).no_duplicates(),
        j.has_marked(probes),
    ensures
        ({
            let out = j.all_joined(probes) + j.unmatched(0, j.rows().len() as int);
            &&& keys_of(out) == chain::outer_step(keys_of(probes), keys_of(j.rows()))
            &&& rows_hashed(out)
        }),
{
    let n = j.rows().len() as int;
    let keys = keys_of(j.rows());
    let pk = keys_of(probes);
    lemma_joined_keys(j, probes);
    let free = bitmap::unmarked(j.marks());
    let absent = probe::not_in(keys, pk);
    lemma_unmarked_keys(j, probes);
    select::lemma_select(0, n, absent);
    let rest = j.unmatched(0, n);
    let out = j.all_joined(probes) + rest;
    assert(keys_of(rest) =~= probe::pick(keys, select::select(0, n, absent)));
    assert(keys_of(out) =~= pk + keys_of(rest));
    assert forall|i: int| 0 <= i < out.len() implies (#[trigger] out[i]).1 == hash::key_hash(
        out[i].0,
    ) by {
        let joined = j.all_joined(probes);
        if i < joined.len() {
            assert(hashes_of(joined)[i] == hashes_of(probes)[i]);
            assert(keys_of(joined)[i] == keys_of(probes)[i]);
            assert(probes[i].1 == hash::key_hash(probes[i].0));
        } else {
            let r = select::select(0, n, free)[i - joined.len()];
            assert(j.rows()[r].1 == hash::key_hash(j.rows()[r].0));
        }
    }
}

/// The directory of a hash join is a power of two large, has no fewer than 16384 buckets,
/// and is at most a quarter full; past the minimum it is more than an eighth full.
pub proof fn law_join_capacity(j: HashJoinOp)
    requires
        j.joinable(),
    ensures
        exists|k: nat| #[trigger] pow2(k) == j.dir().capacity(),
        j.dir().capacity() >= 16384,
        4 * j.rows().len() <= j.dir().capacity(),
        j.dir().capacity() > 16384 ==> j.dir().capacity() < 8 * j.rows().len(),
{
    let c = j.dir().capacity() as int;
    let n = j.rows().len() as int;
    lemma2_to64();
    assert(pow2(14) == 16384);
    assert(row::is_power_of_two(16384));
    let k = choose|k: nat| #[trigger] pow2(k) == c;
    if c > 16384 && c >= 8 * n {
        if k == 0 {
            assert(false);
        }
        lemma_pow2_unfold(k);
        assert(row::is_power_of_two(pow2((k - 1) as nat) as int));
        assert(false);
    }
}

/// Build row `i` stands in the 64 bytes from `64 * i` on: its hash in bytes 8 to 15 of
/// them, its key in bytes 16 to 19, and address `s` in the eight bytes from `24 + 8 * s`
/// on. So does a row that starts anywhere else.
pub proof fn law_build_row(data: Seq<u8>, n: nat, i: int, s: int, at: int)
    requires
        0 <= i < n,
        0 <= s < 5,
    ensures
        build_row_at(data, at).0 == bytes::i32_at(data, at + 16),
        build_row_at(data, at).1 == bytes::u64_at(data, at + 8),
        build_row_at(data, at).2.len() == 5,
        build_row_at(data, at).2[s] == bytes::u64_at(data, at + 24 + 8 * s),
        build_rows(data, n).len() == n,
        build_rows(data, n)[i].0 == bytes::i32_at(data, 64 * i + 16),
        build_rows(data, n)[i].1 == bytes::u64_at(data, 64 * i + 8),
        build_rows(data, n)[i].2.len() == 5,
        build_rows(data, n)[i].2[s] == bytes::u64_at(data, 64 * i + 24 + 8 * s),
{
}

/// A build row that is not linked has the address 0 of a next row, and zeros behind its
/// key.
pub proof fn law_unlinked(data: Seq<u8>, at: int, i: int)
    requires
        unlinked(data, at),
        0 <= i < 8 || 20 <= i < 24,
    ensures
        data[at + i] == 0,
{
}

/// Slot by slot, the address of the build row goes before that of the probe row.
pub proof fn law_merged(build: Seq<u64>, probe: Seq<u64>, s: int)
    requires
        0 <= s < 5,
    ensures
        merged(build, probe).len() == 5,
        build[s] != 0 ==> merged(build, probe)[s] == build[s],
        build[s] == 0 ==> merged(build, probe)[s] == probe[s],
{
}

/// What comes out for a probe row: the row itself if it matches nothing, and else a row
/// for each match, with the key and the hash of the probe, and in each slot the address
/// of the build row or, where that has none, the one of the probe row.
pub proof fn law_joined_row(j: HashJoinOp, p: (i32, u64, Seq<u64>), e: int, s: int)
    requires
        0 <= s < 5,
    ensures
        ({
            let m = j.matches(p.1, p.0);
            let out = j.joined(p);
            &&& m.len() == 0 ==> out.len() == 1 && out[0] == p
            &&& m.len() > 0 ==> out.len() == m.len()
            &&& 0 <= e < m.len() ==> {
                &&& out[e].0 == p.0
                &&& out[e].1 == p.1
                &&& out[e].2.len() == 5
                &&& j.rows()[m[e]].2[s] != 0 ==> out[e].2[s] == j.rows()[m[e]].2[s]
                &&& j.rows()[m[e]].2[s] == 0 ==> out[e].2[s] == p.2[s]
            }
        }),
{
}

/// Probe rows are joined one after the other.
pub proof fn law_all_joined(
    j: HashJoinOp,
    a: Seq<(i32, u64, Seq<u64>)>,
    b: Seq<(i32, u64, Seq<u64>)>,
    p: (i32, u64, Seq<u64>),
)
    ensures
        j.all_joined(Seq::<(i32, u64, Seq<u64>)>::empty()).len() == 0,
        j.all_joined(seq![p]) == j.joined(p),
        j.all_joined(a + b) == j.all_joined(a) + j.all_joined(b),
    decreases b.len(),
{
    let none = Seq::<(i32, u64, Seq<u64>)>::empty();
    assert(seq![p].drop_last() =~= none);
    assert(j.all_joined(none) =~= Seq::empty());
    assert(j.all_joined(seq![p]) =~= j.joined(p));
    if b.len() == 0 {
        assert(a + b =~= a);
        assert(j.all_joined(a) + j.all_joined(b) =~= j.all_joined(a));
    } else {
        law_all_joined(j, a, b.drop_last(), p);
        assert((a + b).drop_last() =~= a + b.drop_last());
        assert(j.all_joined(a + b) =~= j.all_joined(a) + j.all_joined(b));
    }
}

/// When build and probe rows hold the hashes of their keys, the build rows that come out
/// unmatched are those whose key no probe row has, all of them and no others, as they are
/// and in their order.
pub proof fn law_unmatched_rows(j: HashJoinOp, probes: Seq<(i32, u64, Seq<u64>)>)
    requires
        j.joinable(),
        rows_hashed(j.rows()),
        rows_hashed(probes),
        j.has_marked(probes),
    ensures
        exists|at: Seq<int>|
            {
                let out = j.unmatched(0, j.rows().len() as int);
                &&& out.len() == #[trigger] at.len()
                &&& forall|r: int| #[trigger]
                    at.contains(r) <==> 0 <= r < j.rows().len() && forall|i: int|
                        0 <= i < probes.len() ==> (#[trigger] probes[i]).0 != j.rows()[r].0
                &&& forall|e: int, f: int| 0 <= e < f < at.len() ==> at[e] < at[f]
                &&& forall|e: int| 0 <= e < at.len() ==> #[trigger] out[e] == j.rows()[at[e]]
            },
{
    let n = j.rows().len() as int;
    let keys = keys_of(j.rows());
    let pk = keys_of(probes);
    lemma_unmarked_keys(j, probes);
    let at = select::select(0, n, probe::not_in(keys, pk));
    select::law_select(0, n, probe::not_in(keys, pk));
    assert forall|r: int| #[trigger] at.contains(r) <==> 0 <= r < j.rows().len() && forall|i: int|
        0 <= i < probes.len() ==> (#[trigger] probes[i]).0 != j.rows()[r].0 by {
        if 0 <= r < n {
            if pk.contains(keys[r]) {
                let i = choose|i: int| 0 <= i < pk.len() && pk[i] == keys[r];
                assert(probes[i].0 == j.rows()[r].0);
            } else {
                assert forall|i: int| 0 <= i < probes.len() implies (#[trigger] probes[i]).0
                    != j.rows()[r].0 by {
                    assert(pk[i] == probes[i].0);
                }
            }
        }
    }
    assert(j.unmatched(0, n).len() == at.len());
}

/// Which build rows of a stretch come out unmatched: those whose bit is not set, all of
/// them and no others, as they are and in their order.
pub proof fn law_unmatched_stretch(j: HashJoinOp, lo: int, hi: int)
    ensures
        exists|at: Seq<int>|
            {
                let out = j.unmatched(lo, hi);
                &&& out.len() == #[trigger] at.len()
                &&& forall|r: int| #[trigger]
                    at.contains(r) <==> lo <= r < hi && !bitmap::is_marked(j.marks(), r)
                &&& forall|e: int, f: int| 0 <= e < f < at.len() ==> at[e] < at[f]
                &&& forall|e: int| 0 <= e < at.len() ==> #[trigger] out[e] == j.rows()[at[e]]
            },
{
    let at = select::select(lo, hi, bitmap::unmarked(j.marks()));
    select::law_select(lo, hi, bitmap::unmarked(j.marks()));
    assert(j.unmatched(lo, hi).len() == at.len());
}

/// The batches of unmatched rows are not empty and no longer than a chunk.
pub proof fn law_unmatched_batches(j: HashJoinOp, start: int, chunk: int, i: int)
    requires
        0 <= start,
        chunk > 0,
        0 <= i < unmatched_batches(j, start, chunk).len(),
    ensures
        0 < unmatched_batches(j, start, chunk)[i].len() <= chunk,
    decreases j.rows().len() - start,
{
    let n = j.rows().len() as int;
    let end = if start + chunk <= n {
        start + chunk
    } else {
        n
    };
    let rows = j.unmatched(start, end);
    lemma_select_len(start, end, bitmap::unmarked(j.marks()));
    let rest = unmatched_batches(j, start + chunk, chunk);
    if rows.len() == 0 {
        law_unmatched_batches(j, start + chunk, chunk, i);
    } else if i > 0 {
        assert(unmatched_batches(j, start, chunk)[i] == rest[i - 1]);
        law_unmatched_batches(j, start + chunk, chunk, i - 1);
    }
}

proof fn lemma_select_len(lo: int, hi: int, pred: spec_fn(int) -> bool)
    requires
        lo <= hi,
    ensures
        select::select(lo, hi, pred).len() <= hi - lo,
    decreases hi - lo,
{
    if lo < hi {
        lemma_select_len(lo, hi - 1, pred);
    }
}

/// The row after which a worker goes on: whole chunks further, with nothing left out but
/// the batch that was handed out.
pub proof fn law_position_after(j: HashJoinOp, start: int, chunk: int)
    requires
        0 <= start,
        chunk > 0,
    ensures
        position_after(j, start, chunk) > start,
        (position_after(j, start, chunk) - start) % chunk == 0,
        unmatched_batches(j, start, chunk).len() > 0 ==> unmatched_batches(
            j,
            position_after(j, start, chunk),
            chunk,
        ) == unmatched_batches(j, start, chunk).skip(1),
        unmatched_batches(j, start, chunk).len() == 0 ==> position_after(j, start, chunk)
            >= j.rows().len(),
    decreases
            if start < j.rows().len() {
                j.rows().len() - start
            } else {
                0
            },
{
    let n = j.rows().len() as int;
    vstd::arithmetic::div_mod::lemma_mod_self_0(chunk);
    if start < n {
        let end = if start + chunk <= n {
            start + chunk
        } else {
            n
        };
        let rows = j.unmatched(start, end);
        let rest = unmatched_batches(j, start + chunk, chunk);
        if rows.len() > 0 {
            assert((seq![rows] + rest).skip(1) =~= rest);
        } else {
            law_position_after(j, start + chunk, chunk);
            let p = position_after(j, start + chunk, chunk);
            vstd::arithmetic::div_mod::lemma_mod_add_multiples_vanish(p - start - chunk, chunk);
            assert(chunk + (p - start - chunk) == p - start);
        }
    }
}

/// A position is kept as it is as far as the machine can count, and stops there.
pub proof fn law_counted(position: int)
    requires
        position >= 0,
    ensures
        position <= usize::MAX ==> counted(position) == position,
        position > usize::MAX ==> counted(position) == usize::MAX,
{
}

/// The bytes and the rows of several local states are those of one after those of the
/// other, and there are as many rows as the states have in all.
pub proof fn law_local_states(locals: Seq<BuildLocalState>, more: BuildLocalState)
    ensures
        all_bytes(Seq::<BuildLocalState>::empty()).len() == 0,
        all_bytes(locals.push(more)) == all_bytes(locals) + more.bytes@,
        all_local_rows(Seq::<BuildLocalState>::empty()).len() == 0,
        all_local_rows(locals.push(more)) == all_local_rows(locals) + more.rows(),
        total_local_rows(Seq::<BuildLocalState>::empty()) == 0,
        total_local_rows(locals.push(more)) == total_local_rows(locals) + more.n_rows,
{
    assert(locals.push(more).drop_last() =~= locals);
}

/// Writing a build row changes hash, key and addresses alone: the link and the padding
/// stay, and so does every byte outside the row.
pub proof fn law_row_alone(before: Seq<u8>, after: Seq<u8>, at: int, i: int)
    requires
        only_row_changed(before, after, at),
        0 <= i < before.len(),
        i < at + 8 || at + 20 <= i < at + 24 || i >= at + 64,
    ensures
        after.len() == before.len(),
        after[i] == before[i],
{
}

/// Rows of a build side fit if they fit memory, and if the address behind the last of them
/// has at most 48 bits.
pub proof fn law_build_fits(n: int)
    ensures
        build_fits(n) <==> 64 * n <= isize::MAX && 64 + 64 * n <= 0x1_0000_0000_0000 && 64 + 64 * n
            <= usize::MAX,
{
}

/// The keys and the hashes of some rows, row by row.
pub proof fn law_row_columns(rows: Seq<(i32, u64, Seq<u64>)>, i: int)
    requires
        0 <= i < rows.len(),
    ensures
        keys_of(rows).len() == rows.len(),
        keys_of(rows)[i] == rows[i].0,
        hashes_of(rows).len() == rows.len(),
        hashes_of(rows)[i] == rows[i].1,
{
}

/// Probing leaves a join as it is but for the marks.
pub proof fn law_probe_keeps(before: HashJoinOp, after: HashJoinOp, h: u64, key: i32)
    requires
        after.same_join(before),
    ensures
        after.slot_idx == before.slot_idx,
        after.build == before.build,
        after.rows() == before.rows(),
        after.dir() == before.dir(),
        after.is_built() == before.is_built(),
        after.matches(h, key) == before.matches(h, key),
{
}

/// A batch that goes through the probe side: what comes out is what its rows are joined
/// to, and the build rows that are marked afterwards are those that were and those that
/// some row of the batch matches.
pub proof fn law_probe_batch(
    op: ProbeOperator,
    local: ProbeLocal,
    input: Batch,
    out: Seq<Batch>,
    after: ProbeOperator,
    local_after: ProbeLocal,
    r: int,
)
    requires
        op.ready(),
        op.makes(local, input, out, after, local_after),
        0 <= r < op.hj.rows().len(),
    ensures
        op.output(input.rows()) == op.hj.all_joined(input.rows()),
        op.hj.all_joined(input.rows()).len() == 0 ==> out.len() == 0,
        op.hj.all_joined(input.rows()).len() > 0 ==> out.len() == 1 && out[0].rows()
            == op.hj.all_joined(input.rows()),
        bitmap::is_marked(after.hj.marks(), r) <==> bitmap::is_marked(op.hj.marks(), r) || exists|
            i: int,
        |
            0 <= i < input.rows().len() && #[trigger] op.hj.matches(
                input.rows()[i].1,
                input.rows()[i].0,
            ).contains(r),
{
    assert(bitmap::is_marked(after.hj.marks(), r) == (bitmap::is_marked(op.hj.marks(), r)
        || op.hj.is_hit(input.rows(), r)));
}

/// What a local state holds after it took in a batch: its rows, those of the batch behind
/// them, and no link.
pub proof fn law_batch_appended(before: BuildLocalState, batch: Batch, after: BuildLocalState)
    requires
        after.appends(before, batch),
    ensures
        after.rows() == before.rows() + batch.rows(),
        after.n_rows == before.n_rows + batch.rows().len(),
        after.bytes@.len() == 64 * after.n_rows,
        after.bytes@.take(before.bytes@.len() as int) == before.bytes@,
{
}

/// What a build side holds after a local state was combined into it: its rows, and those of
/// the local state behind them.
pub proof fn law_local_appended(
    before: BuildGlobalState,
    local: BuildLocalState,
    after: BuildGlobalState,
)
    requires
        after.appends(before, local),
    ensures
        after.rows() == before.rows() + local.rows(),
        after.arena@ == before.arena@ + local.bytes@,
        after.n_rows == before.n_rows + local.n_rows,
        after.reserved_rows == before.reserved_rows,
{
}

/// A build side begins without rows.
pub proof fn law_build_begun(g: BuildGlobalState, expected_rows: usize)
    requires
        g.starts(expected_rows),
    ensures
        g.n_rows == 0,
        g.arena@.len() == 0,
        g.rows().len() == 0,
        g.reserved_rows == expected_rows,
{
}

/// A hash join that was finalized holds what it has taken in, can be probed, and has no row
/// marked.
pub proof fn law_join_finished(j: HashJoinOp, rows: Seq<(i32, u64, Seq<u64>)>, r: int)
    requires
        j.finished(rows),
        0 <= r < rows.len(),
    ensures
        j.is_built(),
        j.joinable(),
        j.rows() == rows,
        j.dir().filed().len() == rows.len(),
        j.dir().filed()[r] == rows[r].1,
        !bitmap::is_marked(j.marks(), r),
{
    bitmap::lemma_no_marks(rows.len() as int);
}

/// A source of unmatched rows gives the next of its batches, or nothing if there is none,
/// and goes on behind it.
pub proof fn law_unmatched_gives(
    source: UnmatchedSource,
    local: UnmatchedLocal,
    b: Option<Batch>,
    after: UnmatchedSource,
    local_after: UnmatchedLocal,
)
    requires
        source.gives(local, b, after, local_after),
    ensures
        after.hj == source.hj,
        after.global.chunk_size == source.global.chunk_size,
        b is Some <==> source.remaining().len() > 0,
        b is Some ==> b->0.rows() == source.remaining()[0],
        source.remaining() == unmatched_batches(
            *source.hj,
            source.global.next_row as int,
            source.global.chunk_size as int,
        ),
{
}

} // verus!
