//! Probing a finalized hash table: inner join, unmatched probes, and the counts
//! of a full outer join.

use crate::bitmap;
use crate::directory;
use crate::hash;
use crate::ht;
use crate::ht::JoinHashTable;
use crate::par;
use crate::par::{par_map, par_reduce};
use crate::partition;
use crate::row;
use crate::select;
use crate::select::chunk_bounds;
use vstd::prelude::*;

verus! {

/// Pairs of machine integers as pairs of integers.
pub open spec fn int_pairs(s: Seq<(usize, usize)>) -> Seq<(int, int)> {
    s.map_values(|e: (usize, usize)| (e.0 as int, e.1 as int))
}

impl JoinHashTable {
    /// What the probes `lo..hi` match, as pairs of a row and the number of the
    /// probe: probe by probe, and for each in the order in which it meets them.
    pub open spec fn emitted(self, hs: Seq<u64>, ks: Seq<i32>, lo: int, hi: int) -> Seq<(int, int)>
        decreases hi - lo,
    {
        if hi <= lo {
            Seq::empty()
        } else {
            self.emitted(hs, ks, lo, hi - 1) + self.matches(hs[hi - 1], ks[hi - 1]).map_values(
                |r: int| (r, hi - 1),
            )
        }
    }

    /// The same pairs with the address of the row in place of its number.
    pub open spec fn addressed(self, pairs: Seq<(int, int)>) -> Seq<(int, int)> {
        pairs.map_values(|e: (int, int)| (row::row_address(e.0, self.row_size()), e.1))
    }

    /// Which probes match no row.
    pub open spec fn misses(self, hs: Seq<u64>, ks: Seq<i32>) -> spec_fn(int) -> bool {
        |i: int| self.matches(hs[i], ks[i]).len() == 0
    }

    /// The probes among `lo..hi` that match no row.
    pub open spec fn missed(self, hs: Seq<u64>, ks: Seq<i32>, lo: int, hi: int) -> Seq<int> {
        select::select(lo, hi, self.misses(hs, ks))
    }

    /// Which rows some probe matches.
    pub open spec fn is_hit(self, hs: Seq<u64>, ks: Seq<i32>, r: int) -> bool {
        exists|i: int|
            0 <= i < ks.len() && #[trigger] self.matches(hs[i], ks[i]).contains(r)
    }

    /// Which rows no probe matches.
    pub open spec fn unhit(self, hs: Seq<u64>, ks: Seq<i32>) -> spec_fn(int) -> bool {
        |r: int| !self.is_hit(hs, ks, r)
    }

    /// What the probes `lo..hi` match, and how many of them match no row.
    fn probe_range(&self, hs: &[u64], ks: &[i32], lo: usize, hi: usize) -> (r: (
        Vec<(usize, usize)>,
        usize,
    ))
        requires
            self.wf(),
            self.is_final(),
            hs@.len() == ks@.len(),
            lo <= hi <= ks@.len(),
        ensures
            int_pairs(r.0@) == self.emitted(hs@, ks@, lo as int, hi as int),
            r.1 == self.missed(hs@, ks@, lo as int, hi as int).len(),
            r.1 <= hi - lo,
    {
        let mut missed: usize = 0;
        let mut out: Vec<(usize, usize)> = Vec::new();
        let mut i: usize = lo;
        assert(int_pairs(out@) =~= self.emitted(hs@, ks@, lo as int, lo as int));
        while i < hi
            invariant
                self.wf(),
                self.is_final(),
                hs@.len() == ks@.len(),
                lo <= i <= hi <= ks@.len(),
                int_pairs(out@) == self.emitted(hs@, ks@, lo as int, i as int),
                missed == self.missed(hs@, ks@, lo as int, i as int).len(),
                missed <= i - lo,
            decreases hi - i,
        {
            let found: Vec<usize> = self.matching_rows(hs[i], ks[i]);
            let ghost before = int_pairs(out@);
            let ghost rows = partition::ints(found@);
            let ghost tagged = rows.map_values(|r: int| (r, i as int));
            let n: usize = found.len();
            if n == 0 {
                missed += 1;
            }
            let mut j: usize = 0;
            assert(before + tagged.take(0) =~= before);
            while j < n
                invariant
                    n == found@.len(),
                    j <= n,
                    rows == partition::ints(found@),
                    tagged == rows.map_values(|r: int| (r, i as int)),
                    int_pairs(out@) == before + tagged.take(j as int),
                decreases n - j,
            {
                let ghost mid = out@;
                out.push((found[j], i));
                proof {
                    assert(int_pairs(out@) =~= int_pairs(mid).push((found[j as int] as int, i as int)));
                    assert(tagged.take(j + 1) =~= tagged.take(j as int).push(tagged[j as int]));
                    assert(int_pairs(out@) =~= before + tagged.take(j + 1));
                }
                j += 1;
            }
            assert(tagged.take(n as int) =~= tagged);
            i += 1;
        }
        (out, missed)
    }

    /// Inner-join probe over a batch of keys: the matches, each as the address
    /// of the row and the number of the probe. A probe has as many matches as
    /// there are rows with its key.
    pub fn probe_i32_inner(&self, probe_hashes: &[u64], probe_keys: &[i32]) -> (out: Vec<
        (usize, usize),
    >)
        requires
            self.wf(),
            self.is_final(),
            probe_hashes@.len() == probe_keys@.len(),
        ensures
            int_pairs(out@) == self.addressed(
                self.emitted(probe_hashes@, probe_keys@, 0, probe_keys@.len() as int),
            ),
    {
        self.probe_range_addressed(probe_hashes, probe_keys, 0, probe_keys.len())
    }

    fn probe_range_addressed(&self, hs: &[u64], ks: &[i32], lo: usize, hi: usize) -> (out: Vec<
        (usize, usize),
    >)
        requires
            self.wf(),
            self.is_final(),
            hs@.len() == ks@.len(),
            lo <= hi <= ks@.len(),
        ensures
            int_pairs(out@) == self.addressed(self.emitted(hs@, ks@, lo as int, hi as int)),
    {
        let pairs: Vec<(usize, usize)> = self.probe_range(hs, ks, lo, hi).0;
        let ghost emitted = self.emitted(hs@, ks@, lo as int, hi as int);
        let n: usize = pairs.len();
        let mut out: Vec<(usize, usize)> = Vec::with_capacity(n);
        let mut i: usize = 0;
        assert(int_pairs(out@) =~= self.addressed(emitted).take(0));
        while i < n
            invariant
                self.wf(),
                self.is_final(),
                n == pairs@.len(),
                i <= n,
                lo <= hi,
                emitted == self.emitted(hs@, ks@, lo as int, hi as int),
                int_pairs(pairs@) == emitted,
                int_pairs(out@) == self.addressed(emitted).take(i as int),
            decreases n - i,
        {
            let ghost mid = out@;
            let (r, p): (usize, usize) = pairs[i];
            proof {
                lemma_emitted(*self, hs@, ks@, lo as int, hi as int);
                assert(int_pairs(pairs@)[i as int] == emitted[i as int]);
                assert(emitted[i as int] == (r as int, p as int));
            }
            out.push((self.row_addr(r), p));
            proof {
                assert(int_pairs(out@) =~= int_pairs(mid).push(
                    (row::row_address(r as int, self.row_size()), p as int),
                ));
                assert(self.addressed(emitted).take(i + 1) =~= self.addressed(emitted).take(
                    i as int,
                ).push(self.addressed(emitted)[i as int]));
            }
            i += 1;
        }
        assert(self.addressed(emitted).take(n as int) =~= self.addressed(emitted));
        out
    }
}

/// A probe matches a row at most once, so that there are no more matches than
/// pairs of a row and a probe.
pub proof fn law_match_bound(ht: JoinHashTable, hs: Seq<u64>, ks: Seq<i32>, lo: int, hi: int)
    requires
        ht.wf(),
        ht.is_final(),
        lo <= hi,
    ensures
        ht.emitted(hs, ks, lo, hi).len() <= ht.rows() * (hi - lo),
    decreases hi - lo,
{
    let rows = ht.rows();
    if lo < hi {
        law_match_bound(ht, hs, ks, lo, hi - 1);
        let m = ht.matches(hs[hi - 1], ks[hi - 1]);
        ht::law_matches(ht, hs[hi - 1], ks[hi - 1]);
        directory::lemma_distinct_len(m, rows);
        assert(rows * (hi - lo) == rows * (hi - 1 - lo) + rows) by (nonlinear_arith);
    } else {
        assert(rows * (hi - lo) == 0) by (nonlinear_arith)
            requires
                hi == lo,
        ;
    }
}

/// What is emitted: each pair is a row that its probe matches.
pub proof fn lemma_emitted(ht: JoinHashTable, hs: Seq<u64>, ks: Seq<i32>, lo: int, hi: int)
    requires
        ht.wf(),
        ht.is_final(),
    ensures
        forall|e: int|
            0 <= e < ht.emitted(hs, ks, lo, hi).len() ==> {
                let (r, i) = #[trigger] ht.emitted(hs, ks, lo, hi)[e];
                &&& lo <= i < hi
                &&& 0 <= r < ht.rows()
                &&& ht.matches(hs[i], ks[i]).contains(r)
            },
        forall|i: int, r: int|
            lo <= i < hi && #[trigger] ht.matches(hs[i], ks[i]).contains(r) ==> ht.emitted(
                hs,
                ks,
                lo,
                hi,
            ).contains((r, i)),
    decreases hi - lo,
{
    if lo < hi {
        lemma_emitted(ht, hs, ks, lo, hi - 1);
        let before = ht.emitted(hs, ks, lo, hi - 1);
        let m = ht.matches(hs[hi - 1], ks[hi - 1]);
        let all = ht.emitted(hs, ks, lo, hi);
        ht::law_matches(ht, hs[hi - 1], ks[hi - 1]);
        assert forall|e: int| 0 <= e < all.len() implies {
            let (r, i) = #[trigger] all[e];
            &&& lo <= i < hi
            &&& 0 <= r < ht.rows()
            &&& ht.matches(hs[i], ks[i]).contains(r)
        } by {
            if e < before.len() {
                assert(all[e] == before[e]);
            } else {
                assert(all[e] == (m[e - before.len()], hi - 1));
            }
        }
        assert forall|i: int, r: int|
            lo <= i < hi && #[trigger] ht.matches(hs[i], ks[i]).contains(r) implies all.contains(
            (r, i),
        ) by {
            if i < hi - 1 {
                assert(before.contains((r, i)));
                let e = choose|e: int| 0 <= e < before.len() && before[e] == (r, i);
                assert(all[e] == (r, i));
            } else {
                let j = choose|j: int| 0 <= j < m.len() && m[j] == r;
                assert(all[before.len() + j] == (r, i));
            }
        }
    }
}

/// What adjoining ranges of probes emit is what the whole range emits.
pub proof fn lemma_emitted_concat(
    ht: JoinHashTable,
    hs: Seq<u64>,
    ks: Seq<i32>,
    lo: int,
    mid: int,
    hi: int,
)
    requires
        lo <= mid <= hi,
    ensures
        ht.emitted(hs, ks, lo, mid) + ht.emitted(hs, ks, mid, hi) == ht.emitted(hs, ks, lo, hi),
    decreases hi - mid,
{
    if mid < hi {
        lemma_emitted_concat(ht, hs, ks, lo, mid, hi - 1);
    }
    assert(ht.emitted(hs, ks, lo, mid) + ht.emitted(hs, ks, mid, hi) =~= ht.emitted(
        hs,
        ks,
        lo,
        hi,
    ));
}

/// The values that stand at the given positions.
pub open spec fn pick<A>(values: Seq<A>, at: Seq<int>) -> Seq<A> {
    at.map_values(|i: int| values[i])
}

impl JoinHashTable {
    /// Keys and hashes of the probes `lo..hi` that match no row.
    fn unmatched_range(&self, hs: &[u64], ks: &[i32], lo: usize, hi: usize) -> (out: (
        Vec<i32>,
        Vec<u64>,
    ))
        requires
            self.wf(),
            self.is_final(),
            hs@.len() == ks@.len(),
            lo <= hi <= ks@.len(),
        ensures
            out.0@ == pick(ks@, self.missed(hs@, ks@, lo as int, hi as int)),
            out.1@ == pick(hs@, self.missed(hs@, ks@, lo as int, hi as int)),
    {
        let mut keys: Vec<i32> = Vec::new();
        let mut hashes: Vec<u64> = Vec::new();
        let mut i: usize = lo;
        assert(keys@ =~= pick(ks@, self.missed(hs@, ks@, lo as int, lo as int)));
        assert(hashes@ =~= pick(hs@, self.missed(hs@, ks@, lo as int, lo as int)));
        while i < hi
            invariant
                self.wf(),
                self.is_final(),
                hs@.len() == ks@.len(),
                lo <= i <= hi <= ks@.len(),
                keys@ == pick(ks@, self.missed(hs@, ks@, lo as int, i as int)),
                hashes@ == pick(hs@, self.missed(hs@, ks@, lo as int, i as int)),
            decreases hi - i,
        {
            let ghost so_far = self.missed(hs@, ks@, lo as int, i as int);
            if self.first_match(hs[i], ks[i]).is_none() {
                keys.push(ks[i]);
                hashes.push(hs[i]);
                proof {
                    assert(self.missed(hs@, ks@, lo as int, i + 1) == so_far.push(i as int));
                    assert(keys@ =~= pick(ks@, so_far.push(i as int)));
                    assert(hashes@ =~= pick(hs@, so_far.push(i as int)));
                }
            }
            i += 1;
        }
        (keys, hashes)
    }

    /// Keys and hashes of the probes that match no row, in the order of the
    /// probes. The probes are handed out in chunks.
    pub fn probe_i32_collect_unmatched(
        &self,
        probe_hashes: &[u64],
        probe_keys: &[i32],
        chunk_size: usize,
    ) -> (out: (Vec<i32>, Vec<u64>))
        requires
            self.wf(),
            self.is_final(),
            probe_hashes@.len() == probe_keys@.len(),
            chunk_size > 0,
        ensures
            out.0@ == pick(
                probe_keys@,
                self.missed(probe_hashes@, probe_keys@, 0, probe_keys@.len() as int),
            ),
            out.1@ == pick(
                probe_hashes@,
                self.missed(probe_hashes@, probe_keys@, 0, probe_keys@.len() as int),
            ),
    {
        let n: usize = probe_keys.len();
        let chunks: Vec<(usize, usize)> = chunk_bounds(n, chunk_size);
        let ghost bounds = chunks@;
        let ghost hs = probe_hashes@;
        let ghost ks = probe_keys@;
        proof {
            assert forall|i: int| 0 <= i < bounds.len() implies (#[trigger] bounds[i]).0
                <= bounds[i].1 <= n by {
                select::lemma_chunks_adjoin(bounds, chunk_size as int, n as int, i);
            }
        }
        let probe = |c: (usize, usize)| -> (out: (Vec<i32>, Vec<u64>))
            requires
                c.0 <= c.1 <= probe_keys@.len(),
            ensures
                out.0@ == pick(
                    probe_keys@,
                    self.missed(probe_hashes@, probe_keys@, c.0 as int, c.1 as int),
                ),
                out.1@ == pick(
                    probe_hashes@,
                    self.missed(probe_hashes@, probe_keys@, c.0 as int, c.1 as int),
                ),
            { self.unmatched_range(probe_hashes, probe_keys, c.0, c.1) };
        let parts: Vec<(Vec<i32>, Vec<u64>)> = par_map(chunks, probe);
        let mut keys: Vec<i32> = Vec::new();
        let mut hashes: Vec<u64> = Vec::new();
        let mut t: usize = 0;
        let ghost mut b: int = 0;
        assert(keys@ =~= pick(ks, self.missed(hs, ks, 0, 0)));
        assert(hashes@ =~= pick(hs, self.missed(hs, ks, 0, 0)));
        while t < parts.len()
            invariant
                t <= parts@.len(),
                parts@.len() == bounds.len(),
                chunk_size > 0,
                select::is_chunked(bounds, chunk_size as int, n as int),
                b == (if t == 0 {
                    0
                } else {
                    bounds[t - 1].1 as int
                }),
                forall|i: int|
                    0 <= i < parts@.len() ==> (#[trigger] parts@[i]).0@ == pick(
                        ks,
                        self.missed(hs, ks, bounds[i].0 as int, bounds[i].1 as int),
                    ) && parts@[i].1@ == pick(
                        hs,
                        self.missed(hs, ks, bounds[i].0 as int, bounds[i].1 as int),
                    ),
                keys@ == pick(ks, self.missed(hs, ks, 0, b)),
                hashes@ == pick(hs, self.missed(hs, ks, 0, b)),
            decreases parts@.len() - t,
        {
            proof {
                let e = bounds[t as int].1 as int;
                select::lemma_chunks_adjoin(bounds, chunk_size as int, n as int, t as int);
                if t > 0 {
                    select::lemma_chunks_adjoin(bounds, chunk_size as int, n as int, t - 1);
                }
                select::lemma_select_concat(0, b, e, self.misses(hs, ks));
                let left = self.missed(hs, ks, 0, b);
                let right = self.missed(hs, ks, b, e);
                assert(pick(ks, left) + pick(ks, right) =~= pick(ks, left + right));
                assert(pick(hs, left) + pick(hs, right) =~= pick(hs, left + right));
                b = e;
            }
            keys.extend_from_slice(parts[t].0.as_slice());
            hashes.extend_from_slice(parts[t].1.as_slice());
            t += 1;
        }
        (keys, hashes)
    }
}

/// The sums of the components of pairs.
pub open spec fn sums(s: Seq<(usize, usize)>) -> (int, int)
    decreases s.len(),
{
    if s.len() == 0 {
        (0, 0)
    } else {
        (sums(s.drop_last()).0 + s.last().0, sums(s.drop_last()).1 + s.last().1)
    }
}

proof fn lemma_sums_concat(a: Seq<(usize, usize)>, b: Seq<(usize, usize)>)
    ensures
        sums(a + b).0 == sums(a).0 + sums(b).0,
        sums(a + b).1 == sums(a).1 + sums(b).1,
        sums(a).0 >= 0,
        sums(a).1 >= 0,
    decreases a.len() + b.len(),
{
    if b.len() == 0 {
        assert(a + b =~= a);
        if a.len() > 0 {
            lemma_sums_concat(a.drop_last(), b);
            assert(a.drop_last() + b =~= a.drop_last());
        }
    } else {
        lemma_sums_concat(a, b.drop_last());
        assert((a + b).drop_last() =~= a + b.drop_last());
    }
}

/// Combining pairs by adding them up, in whatever grouping, gives their sums.
proof fn lemma_combines_to_sums<I: Fn() -> (usize, usize), R: Fn(
    (usize, usize),
    (usize, usize),
) -> (usize, usize)>(
    items: Seq<(usize, usize)>,
    identity: I,
    op: R,
    depth: nat,
    out: (usize, usize),
)
    requires
        par::combines(items, identity, op, depth, out),
        forall|r: (usize, usize)|
            #[trigger] call_ensures(identity, (), r) ==> r.0 == 0 && r.1 == 0,
        forall|a: (usize, usize), b: (usize, usize), r: (usize, usize)|
            #[trigger] call_ensures(op, (a, b), r) ==> r.0 == a.0 + b.0 && r.1 == a.1 + b.1,
    ensures
        out.0 == sums(items).0,
        out.1 == sums(items).1,
    decreases depth,
{
    if items.len() == 0 && call_ensures(identity, (), out) {
    } else if items.len() == 1 && out == items[0] {
        assert(items.drop_last() =~= Seq::empty());
        assert(sums(items.drop_last()) == (0int, 0int));
    } else {
        let (k, left, right) = choose|k: int, left: (usize, usize), right: (usize, usize)|
            0 <= k <= items.len() && par::combines(
                #[trigger] items.take(k),
                identity,
                op,
                (depth - 1) as nat,
                left,
            ) && par::combines(items.skip(k), identity, op, (depth - 1) as nat, right)
                && #[trigger] call_ensures(op, (left, right), out);
        lemma_combines_to_sums(items.take(k), identity, op, (depth - 1) as nat, left);
        lemma_combines_to_sums(items.skip(k), identity, op, (depth - 1) as nat, right);
        lemma_sums_concat(items.take(k), items.skip(k));
        assert(items.take(k) + items.skip(k) =~= items);
    }
}

/// Adds up pairs, in parallel.
fn add_up(counts: Vec<(usize, usize)>) -> (total: (usize, usize))
    requires
        sums(counts@).0 <= usize::MAX,
        sums(counts@).1 <= usize::MAX,
    ensures
        total.0 == sums(counts@).0,
        total.1 == sums(counts@).1,
{
    let ghost items = counts@;
    let zero = || -> (r: (usize, usize))
        ensures
            r.0 == 0,
            r.1 == 0,
        { (0, 0) };
    let plus = |a: (usize, usize), b: (usize, usize)| -> (r: (usize, usize))
        requires
            a.0 + b.0 <= usize::MAX,
            a.1 + b.1 <= usize::MAX,
        ensures
            r.0 == a.0 + b.0,
            r.1 == a.1 + b.1,
        { (a.0 + b.0, a.1 + b.1) };
    proof {
        assert forall|
            i: int,
            j: int,
            k: int,
            d: nat,
            left: (usize, usize),
            right: (usize, usize),
        |
            0 <= i <= j <= k <= items.len() && #[trigger] par::combines(
                items.subrange(i, j),
                zero,
                plus,
                d,
                left,
            ) && #[trigger] par::combines(items.subrange(j, k), zero, plus, d, right) implies call_requires(
            plus,
            (left, right),
        ) by {
            lemma_combines_to_sums(items.subrange(i, j), zero, plus, d, left);
            lemma_combines_to_sums(items.subrange(j, k), zero, plus, d, right);
            let a = items.take(i);
            let b = items.subrange(i, j);
            let c = items.subrange(j, k);
            let e = items.skip(k);
            lemma_sums_concat(a + b + c, e);
            lemma_sums_concat(a + b, c);
            lemma_sums_concat(a, b);
            lemma_sums_concat(e, Seq::empty());
            assert(a + b + c + e =~= items);
        }
    }
    let total: (usize, usize) = par_reduce(counts, zero, plus);
    proof {
        let d = choose|d: nat| par::combines(items, zero, plus, d, total);
        lemma_combines_to_sums(items, zero, plus, d, total);
    }
    total
}

/// Whether row `q` is in one of the pairs.
spec fn in_pairs(pairs: Seq<(int, int)>, q: int) -> bool {
    exists|e: int| 0 <= e < pairs.len() && (#[trigger] pairs[e]).0 == q
}

/// Marks the rows of the pairs in the bitmap.
fn mark_all(words: &mut Vec<u64>, pairs: &Vec<(usize, usize)>, n: usize)
    requires
        n <= 64 * old(words)@.len(),
        forall|e: int| 0 <= e < pairs@.len() ==> (#[trigger] pairs@[e]).0 < n,
    ensures
        final(words)@.len() == old(words)@.len(),
        forall|q: int|
            0 <= q < n ==> #[trigger] bitmap::is_marked(final(words)@, q) == (bitmap::is_marked(old(words)@, q)
                || in_pairs(int_pairs(pairs@), q)),
{
    let ghost all = int_pairs(pairs@);
    let mut e: usize = 0;
    while e < pairs.len()
        invariant
            e <= pairs@.len(),
            all == int_pairs(pairs@),
            n <= 64 * words@.len(),
            words@.len() == old(words)@.len(),
            forall|e: int| 0 <= e < pairs@.len() ==> (#[trigger] pairs@[e]).0 < n,
            forall|q: int|
                0 <= q < n ==> #[trigger] bitmap::is_marked(words@, q) == (bitmap::is_marked(old(words)@, q)
                    || in_pairs(all.take(e as int), q)),
        decreases pairs@.len() - e,
    {
        let ghost mid = words@;
        bitmap::mark(words, pairs[e].0);
        assert forall|q: int| 0 <= q < n implies #[trigger] bitmap::is_marked(words@, q) == (bitmap::is_marked(
            old(words)@,
            q,
        ) || in_pairs(all.take(e + 1), q)) by {
            assert(bitmap::is_marked(mid, q) == (bitmap::is_marked(old(words)@, q) || in_pairs(
                all.take(e as int),
                q,
            )));
            let t = all.take(e + 1);
            assert(t[e as int].0 == pairs@[e as int].0);
            if in_pairs(all.take(e as int), q) {
                let k = choose|k: int|
                    0 <= k < e && (#[trigger] all.take(e as int)[k]).0 == q;
                assert(t[k].0 == q);
            }
            if in_pairs(t, q) {
                let k = choose|k: int| 0 <= k < t.len() && (#[trigger] t[k]).0 == q;
                if k < e {
                    assert(all.take(e as int)[k].0 == q);
                }
            }
        }
        e += 1;
    }
    assert(all.take(e as int) =~= all);
}

impl JoinHashTable {
    /// Counts of a full outer join: the matches, the probes without a match, and
    /// the rows that no probe matches. The probes are handed out in chunks.
    pub fn probe_i32_full_outer_count(
        &self,
        probe_hashes: &[u64],
        probe_keys: &[i32],
        chunk_size: usize,
    ) -> (out: (usize, usize, usize))
        requires
            self.wf(),
            self.is_final(),
            probe_hashes@.len() == probe_keys@.len(),
            chunk_size > 0,
            self.rows() * probe_keys@.len() <= usize::MAX || self.emitted(
                probe_hashes@,
                probe_keys@,
                0,
                probe_keys@.len() as int,
            ).len() <= usize::MAX,
        ensures
            out.0 == self.emitted(probe_hashes@, probe_keys@, 0, probe_keys@.len() as int).len(),
            out.1 == self.missed(probe_hashes@, probe_keys@, 0, probe_keys@.len() as int).len(),
            out.2 == select::select(
                0,
                self.rows() as int,
                self.unhit(probe_hashes@, probe_keys@),
            ).len(),
    {
        let n_build: usize = self.n_rows();
        let n: usize = probe_keys.len();
        let chunks: Vec<(usize, usize)> = chunk_bounds(n, chunk_size);
        let ghost bounds = chunks@;
        let ghost hs = probe_hashes@;
        let ghost ks = probe_keys@;
        proof {
            law_match_bound(*self, hs, ks, 0, n as int);
            assert forall|i: int| 0 <= i < bounds.len() implies (#[trigger] bounds[i]).0
                <= bounds[i].1 <= n by {
                select::lemma_chunks_adjoin(bounds, chunk_size as int, n as int, i);
            }
        }
        let probe = |c: (usize, usize)| -> (r: (Vec<(usize, usize)>, usize))
            requires
                c.0 <= c.1 <= probe_keys@.len(),
            ensures
                int_pairs(r.0@) == self.emitted(
                    probe_hashes@,
                    probe_keys@,
                    c.0 as int,
                    c.1 as int,
                ),
                r.1 == self.missed(probe_hashes@, probe_keys@, c.0 as int, c.1 as int).len(),
            { self.probe_range(probe_hashes, probe_keys, c.0, c.1) };
        let parts: Vec<(Vec<(usize, usize)>, usize)> = par_map(chunks, probe);
        let mut marked: Vec<u64> = bitmap::cleared(n_build);
        proof {
            bitmap::lemma_no_marks(n_build as int);
        }
        let mut counts: Vec<(usize, usize)> = Vec::new();
        let mut t: usize = 0;
        let ghost mut b: int = 0;
        while t < parts.len()
            invariant
                self.wf(),
                self.is_final(),
                t <= parts@.len(),
                parts@.len() == bounds.len(),
                counts@.len() == t,
                n_build == self.rows(),
                n_build <= 64 * marked@.len(),
                chunk_size > 0,
                select::is_chunked(bounds, chunk_size as int, n as int),
                b == (if t == 0 {
                    0
                } else {
                    bounds[t - 1].1 as int
                }),
                forall|i: int|
                    0 <= i < parts@.len() ==> int_pairs((#[trigger] parts@[i]).0@) == self.emitted(
                        hs,
                        ks,
                        bounds[i].0 as int,
                        bounds[i].1 as int,
                    ) && parts@[i].1 == self.missed(
                        hs,
                        ks,
                        bounds[i].0 as int,
                        bounds[i].1 as int,
                    ).len(),
                sums(counts@).0 == self.emitted(hs, ks, 0, b).len(),
                sums(counts@).1 == self.missed(hs, ks, 0, b).len(),
                forall|q: int|
                    0 <= q < n_build ==> #[trigger] bitmap::is_marked(marked@, q) == in_pairs(
                        self.emitted(hs, ks, 0, b),
                        q,
                    ),
            decreases parts@.len() - t,
        {
            let ghost e = bounds[t as int].1 as int;
            let ghost left = self.emitted(hs, ks, 0, b);
            let ghost right = self.emitted(hs, ks, b, e);
            proof {
                select::lemma_chunks_adjoin(bounds, chunk_size as int, n as int, t as int);
                if t > 0 {
                    select::lemma_chunks_adjoin(bounds, chunk_size as int, n as int, t - 1);
                }
                select::lemma_select_concat(0, b, e, self.misses(hs, ks));
                lemma_emitted_concat(*self, hs, ks, 0, b, e);
                lemma_emitted(*self, hs, ks, b, e);
                let pairs = parts@[t as int].0@;
                assert forall|k: int| 0 <= k < pairs.len() implies (#[trigger] pairs[k]).0
                    < n_build by {
                    assert(int_pairs(pairs)[k] == right[k]);
                }
            }
            let ghost mid = marked@;
            mark_all(&mut marked, &parts[t].0, n_build);
            let ghost before = counts@;
            counts.push((parts[t].0.len(), parts[t].1));
            proof {
                assert(counts@.drop_last() =~= before);
                assert forall|q: int| 0 <= q < n_build implies #[trigger] bitmap::is_marked(marked@, q)
                    == in_pairs(self.emitted(hs, ks, 0, e), q) by {
                    assert(bitmap::is_marked(mid, q) == in_pairs(left, q));
                    lemma_in_pairs_concat(left, right, q);
                }
                b = e;
            }
            t += 1;
        }
        proof {
            select::lemma_select(0, n as int, self.misses(hs, ks));
        }
        let (matches, probe_unmatched): (usize, usize) = add_up(counts);
        let build_unmatched: usize = bitmap::count_all_unmarked(marked.as_slice(), n_build);
        proof {
            lemma_emitted(*self, hs, ks, 0, n as int);
            let unmarked = bitmap::unmarked(marked@);
            assert forall|r: int| 0 <= r < n_build implies #[trigger] unmarked(r) == self.unhit(
                hs,
                ks,
            )(r) by {
                let all = self.emitted(hs, ks, 0, n as int);
                assert(bitmap::is_marked(marked@, r) == in_pairs(all, r));
                if in_pairs(all, r) {
                    let e = choose|e: int| 0 <= e < all.len() && (#[trigger] all[e]).0 == r;
                    let i = all[e].1;
                    assert(self.matches(hs[i], ks[i]).contains(r));
                }
                if self.is_hit(hs, ks, r) {
                    let i = choose|i: int|
                        0 <= i < ks.len() && #[trigger] self.matches(hs[i], ks[i]).contains(r);
                    assert(all.contains((r, i)));
                    let e = choose|e: int| 0 <= e < all.len() && all[e] == (r, i);
                    assert(all[e].0 == r);
                }
            }
            select::lemma_select_same(0, n_build as int, unmarked, self.unhit(hs, ks));
        }
        (matches, probe_unmatched, build_unmatched)
    }
}

/// Whether `s` can come from a fresh state of `init` by passing the pairs to
/// `partial`, one after the other.
pub open spec fn folded<S, I: Fn() -> S, F: Fn(S, usize, usize) -> S>(
    init: I,
    partial: F,
    pairs: Seq<(int, int)>,
    s: S,
) -> bool
    decreases pairs.len(),
{
    if pairs.len() == 0 {
        call_ensures(init, (), s)
    } else {
        exists|prev: S|
            folded(init, partial, pairs.drop_last(), prev) && #[trigger] call_ensures(
                partial,
                (prev, pairs.last().0 as usize, pairs.last().1 as usize),
                s,
            )
    }
}

/// Whether `partial` can be called on each of the pairs, with whatever state the
/// pairs before it lead to.
pub open spec fn foldable<S, I: Fn() -> S, F: Fn(S, usize, usize) -> S>(
    init: I,
    partial: F,
    pairs: Seq<(int, int)>,
) -> bool {
    &&& call_requires(init, ())
    &&& forall|j: int, prev: S|
        0 <= j < pairs.len() && #[trigger] folded(init, partial, pairs.take(j), prev)
            ==> call_requires(partial, (prev, pairs[j].0 as usize, pairs[j].1 as usize))
}

impl JoinHashTable {
    /// Whether `states` can come from the chunks of the probes, one state from
    /// each chunk.
    pub open spec fn chunk_states<S, I: Fn() -> S, F: Fn(S, usize, usize) -> S>(
        self,
        hs: Seq<u64>,
        ks: Seq<i32>,
        chunk_size: int,
        init: I,
        partial: F,
        states: Seq<S>,
    ) -> bool {
        exists|chunks: Seq<(usize, usize)>|
            {
                &&& #[trigger] select::is_chunked(chunks, chunk_size, ks.len() as int)
                &&& states.len() == chunks.len()
                &&& forall|t: int|
                    0 <= t < states.len() ==> folded(
                        init,
                        partial,
                        self.addressed(
                            self.emitted(hs, ks, chunks[t].0 as int, chunks[t].1 as int),
                        ),
                        #[trigger] states[t],
                    )
            }
    }

    /// Folds the matches of the probes `lo..hi` into a fresh state.
    fn fold_range<S, I: Fn() -> S, F: Fn(S, usize, usize) -> S>(
        &self,
        hs: &[u64],
        ks: &[i32],
        lo: usize,
        hi: usize,
        init: &I,
        partial: &F,
    ) -> (s: S)
        requires
            self.wf(),
            self.is_final(),
            hs@.len() == ks@.len(),
            lo <= hi <= ks@.len(),
            foldable(
                *init,
                *partial,
                self.addressed(self.emitted(hs@, ks@, lo as int, hi as int)),
            ),
        ensures
            folded(
                *init,
                *partial,
                self.addressed(self.emitted(hs@, ks@, lo as int, hi as int)),
                s,
            ),
    {
        let pairs: Vec<(usize, usize)> = self.probe_range_addressed(hs, ks, lo, hi);
        let ghost all = int_pairs(pairs@);
        let mut s: S = init();
        let mut i: usize = 0;
        assert(all.take(0) =~= Seq::empty());
        while i < pairs.len()
            invariant
                i <= pairs@.len(),
                all == int_pairs(pairs@),
                foldable(*init, *partial, all),
                folded(*init, *partial, all.take(i as int), s),
            decreases pairs@.len() - i,
        {
            let (addr, p): (usize, usize) = pairs[i];
            proof {
                assert(all[i as int] == (addr as int, p as int));
                assert(all.take(i + 1).drop_last() =~= all.take(i as int));
            }
            let ghost prev = s;
            s = partial(s, addr, p);
            proof {
                assert(all.take(i + 1).last() == (addr as int, p as int));
                assert(call_ensures(*partial, (prev, addr, p), s));
                assert(folded(*init, *partial, all.take(i + 1), s));
            }
            i += 1;
        }
        assert(all.take(i as int) =~= all);
        s
    }

    /// Parallel inner-join probe. The probes are cut into chunks; for each chunk
    /// a fresh state takes in the matches by `partial`, which gets the state, the
    /// address of the row and the number of the probe, and returns the new state;
    /// `reduce` combines the states of the chunks.
    pub fn probe_i32_inner_parallel<S, F, I, R>(
        &self,
        probe_hashes: &[u64],
        probe_keys: &[i32],
        chunk_size: usize,
        init: I,
        partial: F,
        reduce: R,
    ) -> (out: S) where
        S: Send,
        F: Fn(S, usize, usize) -> S + Send + Sync,
        I: Fn() -> S + Send + Sync,
        R: Fn(S, S) -> S + Send + Sync,

        requires
            self.wf(),
            self.is_final(),
            probe_hashes@.len() == probe_keys@.len(),
            chunk_size > 0,
            forall|lo: int, hi: int|
                0 <= lo <= hi <= probe_keys@.len() ==> foldable(
                    init,
                    partial,
                    self.addressed(#[trigger] self.emitted(probe_hashes@, probe_keys@, lo, hi)),
                ),
            forall|states: Seq<S>|
                #[trigger] self.chunk_states(
                    probe_hashes@,
                    probe_keys@,
                    chunk_size as int,
                    init,
                    partial,
                    states,
                ) ==> par::combinable(states, init, reduce),
        ensures
            exists|states: Seq<S>, d: nat|
                #[trigger] self.chunk_states(
                    probe_hashes@,
                    probe_keys@,
                    chunk_size as int,
                    init,
                    partial,
                    states,
                ) && #[trigger] par::combines(states, init, reduce, d, out),
    {
        let n: usize = probe_keys.len();
        let chunks: Vec<(usize, usize)> = chunk_bounds(n, chunk_size);
        let ghost bounds = chunks@;
        proof {
            assert forall|i: int| 0 <= i < bounds.len() implies (#[trigger] bounds[i]).0
                <= bounds[i].1 <= n by {
                select::lemma_chunks_adjoin(bounds, chunk_size as int, n as int, i);
            }
        }
        let init_ref: &I = &init;
        let partial_ref: &F = &partial;
        let fold = |c: (usize, usize)| -> (s: S)
            requires
                c.0 <= c.1 <= probe_keys@.len(),
            ensures
                folded(
                    *init_ref,
                    *partial_ref,
                    self.addressed(
                        self.emitted(probe_hashes@, probe_keys@, c.0 as int, c.1 as int),
                    ),
                    s,
                ),
            { self.fold_range(probe_hashes, probe_keys, c.0, c.1, init_ref, partial_ref) };
        let states: Vec<S> = par_map(chunks, fold);
        let ghost all = states@;
        proof {
            assert(self.chunk_states(
                probe_hashes@,
                probe_keys@,
                chunk_size as int,
                init,
                partial,
                all,
            ));
        }
        par_reduce(states, init, reduce)
    }
}

proof fn lemma_in_pairs_concat(a: Seq<(int, int)>, b: Seq<(int, int)>, q: int)
    ensures
        in_pairs(a + b, q) == (in_pairs(a, q) || in_pairs(b, q)),
{
    let c = a + b;
    if in_pairs(a, q) {
        let e = choose|e: int| 0 <= e < a.len() && (#[trigger] a[e]).0 == q;
        assert(c[e].0 == q);
    }
    if in_pairs(b, q) {
        let e = choose|e: int| 0 <= e < b.len() && (#[trigger] b[e]).0 == q;
        assert(c[a.len() + e].0 == q);
    }
    if in_pairs(c, q) {
        let e = choose|e: int| 0 <= e < c.len() && (#[trigger] c[e]).0 == q;
        if e < a.len() {
            assert(a[e].0 == q);
        } else {
            assert(b[e - a.len()].0 == q);
        }
    }
}

/// Whether every probe comes with the hash of its key.
pub open spec fn probes_hashed(hs: Seq<u64>, ks: Seq<i32>) -> bool {
    &&& hs.len() == ks.len()
    &&& forall|i: int| 0 <= i < ks.len() ==> #[trigger] hs[i] == hash::key_hash(ks[i])
}

/// Which of `ks` are among `keys`.
pub open spec fn found_in(ks: Seq<i32>, keys: Seq<i32>) -> spec_fn(int) -> bool {
    |i: int| keys.contains(ks[i])
}

/// Which of `ks` are not among `keys`.
pub open spec fn not_in(ks: Seq<i32>, keys: Seq<i32>) -> spec_fn(int) -> bool {
    |i: int| !keys.contains(ks[i])
}

/// When rows and probes are hashed by key, a probe matches a row if and only if
/// the keys are equal. So the probes without a match are those whose key no row
/// holds, and the rows that no probe matches are those whose key no probe has.
pub proof fn law_outer_sides(ht: JoinHashTable, hs: Seq<u64>, ks: Seq<i32>)
    requires
        ht.wf(),
        ht.is_final(),
        ht.hashed_by_key(),
        probes_hashed(hs, ks),
    ensures
        forall|i: int, r: int|
            0 <= i < ks.len() && 0 <= r < ht.rows() ==> (#[trigger] ht.matches(
                hs[i],
                ks[i],
            ).contains(r) <==> ht.keys()[r] == ks[i]),
        ht.missed(hs, ks, 0, ks.len() as int) == select::select(
            0,
            ks.len() as int,
            not_in(ks, ht.keys()),
        ),
        select::select(0, ht.rows() as int, ht.unhit(hs, ks)) == select::select(
            0,
            ht.rows() as int,
            not_in(ht.keys(), ks),
        ),
{
    let keys = ht.keys();
    assert forall|i: int, r: int| 0 <= i < ks.len() && 0 <= r < ht.rows() implies (
    #[trigger] ht.matches(hs[i], ks[i]).contains(r) <==> keys[r] == ks[i]) by {
        let m = ht.matches(hs[i], ks[i]);
        ht::law_matches(ht, hs[i], ks[i]);
        if m.contains(r) {
            let j = choose|j: int| 0 <= j < m.len() && m[j] == r;
            assert(keys[m[j]] == ks[i]);
        }
        if keys[r] == ks[i] {
            assert(ht.dir().filed()[r] == hash::key_hash(keys[r]));
        }
    }
    let miss = ht.misses(hs, ks);
    assert forall|i: int| 0 <= i < ks.len() implies #[trigger] miss(i) == not_in(ks, keys)(i) by {
        let m = ht.matches(hs[i], ks[i]);
        ht::law_matches(ht, hs[i], ks[i]);
        if m.len() > 0 {
            assert(m.contains(m[0]));
            assert(keys[m[0]] == ks[i]);
        }
        if keys.contains(ks[i]) {
            let r = choose|r: int| 0 <= r < keys.len() && keys[r] == ks[i];
            assert(m.contains(r));
        }
    }
    select::lemma_select_same(0, ks.len() as int, miss, not_in(ks, keys));
    let unhit = ht.unhit(hs, ks);
    assert forall|r: int| 0 <= r < ht.rows() implies #[trigger] unhit(r) == not_in(keys, ks)(r) by {
        if ht.is_hit(hs, ks, r) {
            let i = choose|i: int|
                0 <= i < ks.len() && #[trigger] ht.matches(hs[i], ks[i]).contains(r);
            assert(ks[i] == keys[r]);
        }
        if ks.contains(keys[r]) {
            let i = choose|i: int| 0 <= i < ks.len() && ks[i] == keys[r];
            assert(ht.matches(hs[i], ks[i]).contains(r));
        }
    }
    select::lemma_select_same(0, ht.rows() as int, unhit, not_in(keys, ks));
}

/// With distinct keys in the rows, the probes `0..n` emit one match for each of
/// them whose key some row holds.
proof fn lemma_distinct_emitted(ht: JoinHashTable, hs: Seq<u64>, ks: Seq<i32>, n: int)
    requires
        ht.wf(),
        ht.is_final(),
        ht.hashed_by_key(),
        probes_hashed(hs, ks),
        ht.keys().no_duplicates(),
        0 <= n <= ks.len(),
    ensures
        ht.emitted(hs, ks, 0, n).len() == select::select(0, n, found_in(ks, ht.keys())).len(),
    decreases n,
{
    if n > 0 {
        lemma_distinct_emitted(ht, hs, ks, n - 1);
        law_outer_sides(ht, hs, ks);
        let i = n - 1;
        let m = ht.matches(hs[i], ks[i]);
        let keys = ht.keys();
        ht::law_matches(ht, hs[i], ks[i]);
        if m.len() > 0 {
            assert(keys[m[0]] == ks[i]);
            assert(keys.contains(ks[i]));
        }
        if m.len() > 1 {
            assert(keys[m[1]] == ks[i]);
            assert(m[0] == m[1]);
        }
        if keys.contains(ks[i]) {
            let r = choose|r: int| 0 <= r < keys.len() && keys[r] == ks[i];
            assert(m.contains(r));
        }
    }
}

/// As many of the distinct `a` are among the distinct `b` as the other way round.
proof fn lemma_common_count(a: Seq<i32>, b: Seq<i32>)
    requires
        a.no_duplicates(),
        b.no_duplicates(),
    ensures
        select::select(0, a.len() as int, found_in(a, b)).len() == select::select(
            0,
            b.len() as int,
            found_in(b, a),
        ).len(),
{
    let sa = select::select(0, a.len() as int, found_in(a, b));
    let sb = select::select(0, b.len() as int, found_in(b, a));
    select::lemma_select(0, a.len() as int, found_in(a, b));
    select::lemma_select(0, b.len() as int, found_in(b, a));
    let pa = pick(a, sa);
    let pb = pick(b, sb);
    assert(pa.no_duplicates()) by {
        assert forall|i: int, j: int| 0 <= i < pa.len() && 0 <= j < pa.len() && i != j implies pa[i]
            != pa[j] by {
            assert(sa[i] != sa[j]);
        }
    }
    assert(pb.no_duplicates()) by {
        assert forall|i: int, j: int| 0 <= i < pb.len() && 0 <= j < pb.len() && i != j implies pb[i]
            != pb[j] by {
            assert(sb[i] != sb[j]);
        }
    }
    assert forall|k: i32| pa.to_set().contains(k) <==> pb.to_set().contains(k) by {
        if pa.contains(k) {
            let i = choose|i: int| 0 <= i < pa.len() && pa[i] == k;
            assert(found_in(a, b)(sa[i]));
            let j = choose|j: int| 0 <= j < b.len() && b[j] == k;
            assert(a[sa[i]] == b[j]);
            assert(found_in(b, a)(j));
            assert(sb.contains(j));
            let m = choose|m: int| 0 <= m < sb.len() && sb[m] == j;
            assert(pb[m] == k);
        }
        if pb.contains(k) {
            let i = choose|i: int| 0 <= i < pb.len() && pb[i] == k;
            assert(found_in(b, a)(sb[i]));
            let j = choose|j: int| 0 <= j < a.len() && a[j] == k;
            assert(b[sb[i]] == a[j]);
            assert(found_in(a, b)(j));
            assert(sa.contains(j));
            let m = choose|m: int| 0 <= m < sa.len() && sa[m] == j;
            assert(pa[m] == k);
        }
    }
    assert(pa.to_set() =~= pb.to_set());
    pa.unique_seq_to_set();
    pb.unique_seq_to_set();
}

/// The number of pairs of a row and one of the first `n` probes that have equal keys.
pub open spec fn equal_pairs(keys: Seq<i32>, ks: Seq<i32>, n: int) -> nat
    decreases n,
{
    if n <= 0 {
        0
    } else {
        equal_pairs(keys, ks, n - 1) + select::places(keys, ks[n - 1]).len()
    }
}

/// When rows and probes are hashed by key, there are as many matches as pairs of a
/// row and a probe with equal keys.
pub proof fn law_match_count(ht: JoinHashTable, hs: Seq<u64>, ks: Seq<i32>, n: int)
    requires
        ht.wf(),
        ht.is_final(),
        ht.hashed_by_key(),
        probes_hashed(hs, ks),
        0 <= n <= ks.len(),
    ensures
        ht.emitted(hs, ks, 0, n).len() == equal_pairs(ht.keys(), ks, n),
    decreases n,
{
    if n > 0 {
        law_match_count(ht, hs, ks, n - 1);
        ht::law_lookup(ht, ks[n - 1]);
        assert(hs[n - 1] == hash::key_hash(ks[n - 1]));
    }
}

/// The counts of a full outer join of distinct keys add up to the size of the
/// union: the rows plus the probes less the keys that are on both sides. The
/// matches are the keys on both sides.
pub proof fn law_full_outer_count(ht: JoinHashTable, hs: Seq<u64>, ks: Seq<i32>)
    requires
        ht.wf(),
        ht.is_final(),
        ht.hashed_by_key(),
        probes_hashed(hs, ks),
        ht.keys().no_duplicates(),
        ks.no_duplicates(),
    ensures
        ({
            let n = ks.len() as int;
            let matches = ht.emitted(hs, ks, 0, n).len();
            let probe_unmatched = ht.missed(hs, ks, 0, n).len();
            let build_unmatched = select::select(0, ht.rows() as int, ht.unhit(hs, ks)).len();
            let common = select::select(0, n, found_in(ks, ht.keys())).len();
            &&& matches == common
            &&& matches + probe_unmatched + build_unmatched == ht.rows() + n - common
        }),
{
    let n = ks.len() as int;
    let keys = ht.keys();
    law_outer_sides(ht, hs, ks);
    lemma_distinct_emitted(ht, hs, ks, n);
    lemma_common_count(ks, keys);
    let here = found_in(ks, keys);
    let there = found_in(keys, ks);
    select::lemma_select_complement(0, n, here);
    select::lemma_select_complement(0, keys.len() as int, there);
    select::lemma_select_same(0, n, not_in(ks, keys), |i: int| !here(i));
    select::lemma_select_same(0, keys.len() as int, not_in(keys, ks), |i: int| !there(i));
}

/// A parallel inner-join probe that counts 1 per match and adds up the counts of
/// the chunks gives the number of matches, whatever the chunks and whatever the
/// grouping in which their counts are added.
pub proof fn law_parallel_count<
    I: Fn() -> usize,
    F: Fn(usize, usize, usize) -> usize,
    R: Fn(usize, usize) -> usize,
>(
    ht: JoinHashTable,
    hs: Seq<u64>,
    ks: Seq<i32>,
    chunk_size: int,
    init: I,
    partial: F,
    reduce: R,
    states: Seq<usize>,
    depth: nat,
    out: usize,
)
    requires
        chunk_size > 0,
        ht.chunk_states(hs, ks, chunk_size, init, partial, states),
        par::combines(states, init, reduce, depth, out),
        forall|r: usize| #[trigger] call_ensures(init, (), r) ==> r == 0,
        forall|s: usize, a: usize, i: usize, r: usize|
            #[trigger] call_ensures(partial, (s, a, i), r) ==> r == s + 1,
        forall|a: usize, b: usize, r: usize|
            #[trigger] call_ensures(reduce, (a, b), r) ==> r == a + b,
    ensures
        out == ht.emitted(hs, ks, 0, ks.len() as int).len(),
{
    let n = ks.len() as int;
    let chunks = choose|chunks: Seq<(usize, usize)>|
        {
            &&& #[trigger] select::is_chunked(chunks, chunk_size, n)
            &&& states.len() == chunks.len()
            &&& forall|t: int|
                0 <= t < states.len() ==> folded(
                    init,
                    partial,
                    ht.addressed(ht.emitted(hs, ks, chunks[t].0 as int, chunks[t].1 as int)),
                    #[trigger] states[t],
                )
        };
    lemma_chunk_counts(ht, hs, ks, chunk_size, init, partial, states, chunks, states.len() as int);
    lemma_counts_add_up(states, init, reduce, depth, out);
    assert(states.take(states.len() as int) =~= states);
}

/// The sum of some counts.
pub open spec fn total(s: Seq<usize>) -> int
    decreases s.len(),
{
    if s.len() == 0 {
        0
    } else {
        total(s.drop_last()) + s.last()
    }
}

proof fn lemma_total_concat(a: Seq<usize>, b: Seq<usize>)
    ensures
        total(a + b) == total(a) + total(b),
    decreases b.len(),
{
    if b.len() == 0 {
        assert(a + b =~= a);
    } else {
        lemma_total_concat(a, b.drop_last());
        assert((a + b).drop_last() =~= a + b.drop_last());
    }
}

proof fn lemma_counts_add_up<I: Fn() -> usize, R: Fn(usize, usize) -> usize>(
    items: Seq<usize>,
    init: I,
    reduce: R,
    depth: nat,
    out: usize,
)
    requires
        par::combines(items, init, reduce, depth, out),
        forall|r: usize| #[trigger] call_ensures(init, (), r) ==> r == 0,
        forall|a: usize, b: usize, r: usize|
            #[trigger] call_ensures(reduce, (a, b), r) ==> r == a + b,
    ensures
        out == total(items),
    decreases depth,
{
    if items.len() == 0 && call_ensures(init, (), out) {
    } else if items.len() == 1 && out == items[0] {
        assert(items.drop_last() =~= Seq::empty());
        assert(total(items.drop_last()) == 0);
    } else {
        let (k, left, right) = choose|k: int, left: usize, right: usize|
            0 <= k <= items.len() && par::combines(
                #[trigger] items.take(k),
                init,
                reduce,
                (depth - 1) as nat,
                left,
            ) && par::combines(items.skip(k), init, reduce, (depth - 1) as nat, right)
                && #[trigger] call_ensures(reduce, (left, right), out);
        lemma_counts_add_up(items.take(k), init, reduce, (depth - 1) as nat, left);
        lemma_counts_add_up(items.skip(k), init, reduce, (depth - 1) as nat, right);
        lemma_total_concat(items.take(k), items.skip(k));
        assert(items.take(k) + items.skip(k) =~= items);
    }
}

proof fn lemma_count_folded<I: Fn() -> usize, F: Fn(usize, usize, usize) -> usize>(
    init: I,
    partial: F,
    pairs: Seq<(int, int)>,
    s: usize,
)
    requires
        folded(init, partial, pairs, s),
        forall|r: usize| #[trigger] call_ensures(init, (), r) ==> r == 0,
        forall|s: usize, a: usize, i: usize, r: usize|
            #[trigger] call_ensures(partial, (s, a, i), r) ==> r == s + 1,
    ensures
        s == pairs.len(),
    decreases pairs.len(),
{
    if pairs.len() > 0 {
        let prev = choose|prev: usize|
            folded(init, partial, pairs.drop_last(), prev) && #[trigger] call_ensures(
                partial,
                (prev, pairs.last().0 as usize, pairs.last().1 as usize),
                s,
            );
        lemma_count_folded(init, partial, pairs.drop_last(), prev);
    }
}

proof fn lemma_chunk_counts<I: Fn() -> usize, F: Fn(usize, usize, usize) -> usize>(
    ht: JoinHashTable,
    hs: Seq<u64>,
    ks: Seq<i32>,
    chunk_size: int,
    init: I,
    partial: F,
    states: Seq<usize>,
    chunks: Seq<(usize, usize)>,
    t: int,
)
    requires
        chunk_size > 0,
        select::is_chunked(chunks, chunk_size, ks.len() as int),
        states.len() == chunks.len(),
        0 <= t <= chunks.len(),
        forall|t: int|
            0 <= t < states.len() ==> folded(
                init,
                partial,
                ht.addressed(ht.emitted(hs, ks, chunks[t].0 as int, chunks[t].1 as int)),
                #[trigger] states[t],
            ),
        forall|r: usize| #[trigger] call_ensures(init, (), r) ==> r == 0,
        forall|s: usize, a: usize, i: usize, r: usize|
            #[trigger] call_ensures(partial, (s, a, i), r) ==> r == s + 1,
    ensures
        total(states.take(t)) == ht.emitted(
            hs,
            ks,
            0,
            if t == 0 {
                0
            } else {
                chunks[t - 1].1 as int
            },
        ).len(),
    decreases t,
{
    if t > 0 {
        lemma_chunk_counts(ht, hs, ks, chunk_size, init, partial, states, chunks, t - 1);
        let lo = chunks[t - 1].0 as int;
        let hi = chunks[t - 1].1 as int;
        select::lemma_chunks_adjoin(chunks, chunk_size, ks.len() as int, t - 1);
        lemma_emitted_concat(ht, hs, ks, 0, lo, hi);
        lemma_count_folded(
            init,
            partial,
            ht.addressed(ht.emitted(hs, ks, lo, hi)),
            states[t - 1],
        );
        assert(states.take(t).drop_last() =~= states.take(t - 1));
    }
}

/// The values at the probe numbers of some pairs.
pub open spec fn probed<A>(values: Seq<A>, pairs: Seq<(int, int)>) -> Seq<A> {
    pairs.map_values(|e: (int, int)| values[e.1])
}

/// A pair of sequences after one more of each.
spec fn pushed(s: (Vec<i32>, Vec<u64>), r: (Vec<i32>, Vec<u64>), k: i32, h: u64) -> bool {
    r.0@ == s.0@.push(k) && r.1@ == s.1@.push(h)
}

spec fn joined(a: (Vec<i32>, Vec<u64>), b: (Vec<i32>, Vec<u64>), r: (Vec<i32>, Vec<u64>)) -> bool {
    r.0@ == a.0@ + b.0@ && r.1@ == a.1@ + b.1@
}

/// The sequences of `a` followed by those of `b`.
fn join_collected(a: (Vec<i32>, Vec<u64>), b: (Vec<i32>, Vec<u64>)) -> (r: (Vec<i32>, Vec<u64>))
    ensures
        joined(a, b, r),
{
    let (mut keys, mut hashes): (Vec<i32>, Vec<u64>) = a;
    keys.extend_from_slice(b.0.as_slice());
    hashes.extend_from_slice(b.1.as_slice());
    assert(keys@ =~= a.0@ + b.0@);
    assert(hashes@ =~= a.1@ + b.1@);
    (keys, hashes)
}

proof fn lemma_collect_folded<I: Fn() -> (Vec<i32>, Vec<u64>), F: Fn(
    (Vec<i32>, Vec<u64>),
    usize,
    usize,
) -> (Vec<i32>, Vec<u64>)>(
    init: I,
    partial: F,
    hs: Seq<u64>,
    ks: Seq<i32>,
    pairs: Seq<(int, int)>,
    s: (Vec<i32>, Vec<u64>),
)
    requires
        folded(init, partial, pairs, s),
        ks.len() <= usize::MAX,
        forall|e: int| 0 <= e < pairs.len() ==> 0 <= (#[trigger] pairs[e]).1 < ks.len(),
        forall|r: (Vec<i32>, Vec<u64>)|
            #[trigger] call_ensures(init, (), r) ==> r.0@.len() == 0 && r.1@.len() == 0,
        forall|s: (Vec<i32>, Vec<u64>), a: usize, i: usize, r: (Vec<i32>, Vec<u64>)|
            #[trigger] call_ensures(partial, (s, a, i), r) ==> pushed(s, r, ks[i as int], hs[i as int]),
    ensures
        s.0@ == probed(ks, pairs),
        s.1@ == probed(hs, pairs),
    decreases pairs.len(),
{
    if pairs.len() > 0 {
        let prev = choose|prev: (Vec<i32>, Vec<u64>)|
            folded(init, partial, pairs.drop_last(), prev) && #[trigger] call_ensures(
                partial,
                (prev, pairs.last().0 as usize, pairs.last().1 as usize),
                s,
            );
        assert forall|e: int| 0 <= e < pairs.drop_last().len() implies 0 <= (
        #[trigger] pairs.drop_last()[e]).1 < ks.len() by {
            assert(0 <= pairs[e].1 < ks.len());
        }
        lemma_collect_folded(init, partial, hs, ks, pairs.drop_last(), prev);
        assert(0 <= pairs[pairs.len() - 1].1 < ks.len());
        assert(s.0@ =~= probed(ks, pairs));
        assert(s.1@ =~= probed(hs, pairs));
    } else {
        assert(s.0@ =~= probed(ks, pairs));
        assert(s.1@ =~= probed(hs, pairs));
    }
}

/// The concatenation of the collected sequences.
spec fn all_collected(states: Seq<(Vec<i32>, Vec<u64>)>) -> (Seq<i32>, Seq<u64>)
    decreases states.len(),
{
    if states.len() == 0 {
        (Seq::empty(), Seq::empty())
    } else {
        let prev = all_collected(states.drop_last());
        (prev.0 + states.last().0@, prev.1 + states.last().1@)
    }
}

proof fn lemma_all_collected_concat(a: Seq<(Vec<i32>, Vec<u64>)>, b: Seq<(Vec<i32>, Vec<u64>)>)
    ensures
        all_collected(a + b).0 == all_collected(a).0 + all_collected(b).0,
        all_collected(a + b).1 == all_collected(a).1 + all_collected(b).1,
    decreases b.len(),
{
    if b.len() == 0 {
        assert(a + b =~= a);
        assert(all_collected(a).0 + all_collected(b).0 =~= all_collected(a).0);
        assert(all_collected(a).1 + all_collected(b).1 =~= all_collected(a).1);
    } else {
        lemma_all_collected_concat(a, b.drop_last());
        assert((a + b).drop_last() =~= a + b.drop_last());
        assert(all_collected(a + b).0 =~= all_collected(a).0 + all_collected(b).0);
        assert(all_collected(a + b).1 =~= all_collected(a).1 + all_collected(b).1);
    }
}

proof fn lemma_collect_combined<I: Fn() -> (Vec<i32>, Vec<u64>), R: Fn(
    (Vec<i32>, Vec<u64>),
    (Vec<i32>, Vec<u64>),
) -> (Vec<i32>, Vec<u64>)>(
    items: Seq<(Vec<i32>, Vec<u64>)>,
    init: I,
    reduce: R,
    depth: nat,
    out: (Vec<i32>, Vec<u64>),
)
    requires
        par::combines(items, init, reduce, depth, out),
        forall|r: (Vec<i32>, Vec<u64>)|
            #[trigger] call_ensures(init, (), r) ==> r.0@.len() == 0 && r.1@.len() == 0,
        forall|a: (Vec<i32>, Vec<u64>), b: (Vec<i32>, Vec<u64>), r: (Vec<i32>, Vec<u64>)|
            #[trigger] call_ensures(reduce, (a, b), r) ==> joined(a, b, r),
    ensures
        out.0@ == all_collected(items).0,
        out.1@ == all_collected(items).1,
    decreases depth,
{
    if items.len() == 0 && call_ensures(init, (), out) {
        assert(out.0@ =~= all_collected(items).0);
        assert(out.1@ =~= all_collected(items).1);
    } else if items.len() == 1 && out == items[0] {
        assert(items.drop_last() =~= Seq::empty());
        assert(all_collected(items.drop_last()) == (Seq::<i32>::empty(), Seq::<u64>::empty()));
        assert(out.0@ =~= all_collected(items).0);
        assert(out.1@ =~= all_collected(items).1);
    } else {
        let (k, left, right) = choose|
            k: int,
            left: (Vec<i32>, Vec<u64>),
            right: (Vec<i32>, Vec<u64>),
        |
            0 <= k <= items.len() && par::combines(
                #[trigger] items.take(k),
                init,
                reduce,
                (depth - 1) as nat,
                left,
            ) && par::combines(items.skip(k), init, reduce, (depth - 1) as nat, right)
                && #[trigger] call_ensures(reduce, (left, right), out);
        lemma_collect_combined(items.take(k), init, reduce, (depth - 1) as nat, left);
        lemma_collect_combined(items.skip(k), init, reduce, (depth - 1) as nat, right);
        lemma_all_collected_concat(items.take(k), items.skip(k));
        assert(items.take(k) + items.skip(k) =~= items);
    }
}

proof fn lemma_collect_chunks<I: Fn() -> (Vec<i32>, Vec<u64>), F: Fn(
    (Vec<i32>, Vec<u64>),
    usize,
    usize,
) -> (Vec<i32>, Vec<u64>)>(
    ht: JoinHashTable,
    hs: Seq<u64>,
    ks: Seq<i32>,
    chunk_size: int,
    init: I,
    partial: F,
    states: Seq<(Vec<i32>, Vec<u64>)>,
    chunks: Seq<(usize, usize)>,
    t: int,
)
    requires
        ht.wf(),
        ht.is_final(),
        chunk_size > 0,
        ks.len() <= usize::MAX,
        select::is_chunked(chunks, chunk_size, ks.len() as int),
        states.len() == chunks.len(),
        0 <= t <= chunks.len(),
        forall|t: int|
            0 <= t < states.len() ==> folded(
                init,
                partial,
                ht.addressed(ht.emitted(hs, ks, chunks[t].0 as int, chunks[t].1 as int)),
                #[trigger] states[t],
            ),
        forall|r: (Vec<i32>, Vec<u64>)|
            #[trigger] call_ensures(init, (), r) ==> r.0@.len() == 0 && r.1@.len() == 0,
        forall|s: (Vec<i32>, Vec<u64>), a: usize, i: usize, r: (Vec<i32>, Vec<u64>)|
            #[trigger] call_ensures(partial, (s, a, i), r) ==> pushed(s, r, ks[i as int], hs[i as int]),
    ensures
        ({
            let end = if t == 0 {
                0
            } else {
                chunks[t - 1].1 as int
            };
            &&& all_collected(states.take(t)).0 == probed(ks, ht.emitted(hs, ks, 0, end))
            &&& all_collected(states.take(t)).1 == probed(hs, ht.emitted(hs, ks, 0, end))
        }),
    decreases t,
{
    if t > 0 {
        lemma_collect_chunks(ht, hs, ks, chunk_size, init, partial, states, chunks, t - 1);
        let lo = chunks[t - 1].0 as int;
        let hi = chunks[t - 1].1 as int;
        select::lemma_chunks_adjoin(chunks, chunk_size, ks.len() as int, t - 1);
        let before = ht.emitted(hs, ks, 0, lo);
        let part = ht.emitted(hs, ks, lo, hi);
        lemma_emitted_concat(ht, hs, ks, 0, lo, hi);
        lemma_emitted(ht, hs, ks, lo, hi);
        let pairs = ht.addressed(part);
        assert forall|e: int| 0 <= e < pairs.len() implies 0 <= (#[trigger] pairs[e]).1
            < ks.len() by {
            assert(lo <= part[e].1 < hi);
        }
        lemma_collect_folded(init, partial, hs, ks, pairs, states[t - 1]);
        assert(probed(ks, pairs) =~= probed(ks, part));
        assert(probed(hs, pairs) =~= probed(hs, part));
        assert(probed(ks, before) + probed(ks, part) =~= probed(ks, before + part));
        assert(probed(hs, before) + probed(hs, part) =~= probed(hs, before + part));
        assert(states.take(t).drop_last() =~= states.take(t - 1));
    } else {
        assert(all_collected(states.take(0)).0 =~= probed(ks, ht.emitted(hs, ks, 0, 0)));
        assert(all_collected(states.take(0)).1 =~= probed(hs, ht.emitted(hs, ks, 0, 0)));
    }
}

impl JoinHashTable {
    /// Keys and hashes of the probes that match, once for each match, in the
    /// order of the probes. The probes are handed out in chunks.
    pub fn probe_i32_collect_matched(
        &self,
        probe_hashes: &[u64],
        probe_keys: &[i32],
        chunk_size: usize,
    ) -> (out: (Vec<i32>, Vec<u64>))
        requires
            self.wf(),
            self.is_final(),
            probe_hashes@.len() == probe_keys@.len(),
            chunk_size > 0,
        ensures
            out.0@ == probed(
                probe_keys@,
                self.emitted(probe_hashes@, probe_keys@, 0, probe_keys@.len() as int),
            ),
            out.1@ == probed(
                probe_hashes@,
                self.emitted(probe_hashes@, probe_keys@, 0, probe_keys@.len() as int),
            ),
    {
        let ghost hs = probe_hashes@;
        let ghost ks = probe_keys@;
        let fresh = || -> (r: (Vec<i32>, Vec<u64>))
            ensures
                r.0@.len() == 0,
                r.1@.len() == 0,
            { (Vec::new(), Vec::new()) };
        let take_in = |s: (Vec<i32>, Vec<u64>), addr: usize, i: usize| -> (r: (Vec<i32>, Vec<u64>))
            requires
                i < probe_keys@.len(),
                i < probe_hashes@.len(),
            ensures
                pushed(s, r, probe_keys@[i as int], probe_hashes@[i as int]),
            {
                let (mut keys, mut hashes): (Vec<i32>, Vec<u64>) = s;
                keys.push(probe_keys[i]);
                hashes.push(probe_hashes[i]);
                (keys, hashes)
            };
        let join = |a: (Vec<i32>, Vec<u64>), b: (Vec<i32>, Vec<u64>)| -> (r: (Vec<i32>, Vec<u64>))
            ensures
                joined(a, b, r),
            { join_collected(a, b) };
        proof {
            assert forall|lo: int, hi: int| 0 <= lo <= hi <= ks.len() implies foldable(
                fresh,
                take_in,
                self.addressed(#[trigger] self.emitted(hs, ks, lo, hi)),
            ) by {
                lemma_emitted(*self, hs, ks, lo, hi);
                let pairs = self.addressed(self.emitted(hs, ks, lo, hi));
                assert forall|j: int, prev: (Vec<i32>, Vec<u64>)|
                    0 <= j < pairs.len() && #[trigger] folded(
                        fresh,
                        take_in,
                        pairs.take(j),
                        prev,
                    ) implies call_requires(
                    take_in,
                    (prev, pairs[j].0 as usize, pairs[j].1 as usize),
                ) by {
                    assert(lo <= self.emitted(hs, ks, lo, hi)[j].1 < hi);
                }
            }
        }
        let out: (Vec<i32>, Vec<u64>) = self.probe_i32_inner_parallel(
            probe_hashes,
            probe_keys,
            chunk_size,
            fresh,
            take_in,
            join,
        );
        proof {
            let (states, d) = choose|states: Seq<(Vec<i32>, Vec<u64>)>, d: nat|
                #[trigger] self.chunk_states(
                    hs,
                    ks,
                    chunk_size as int,
                    fresh,
                    take_in,
                    states,
                ) && #[trigger] par::combines(states, fresh, join, d, out);
            let chunks = choose|chunks: Seq<(usize, usize)>|
                {
                    &&& #[trigger] select::is_chunked(chunks, chunk_size as int, ks.len() as int)
                    &&& states.len() == chunks.len()
                    &&& forall|t: int|
                        0 <= t < states.len() ==> folded(
                            fresh,
                            take_in,
                            self.addressed(
                                self.emitted(hs, ks, chunks[t].0 as int, chunks[t].1 as int),
                            ),
                            #[trigger] states[t],
                        )
                };
            lemma_collect_combined(states, fresh, join, d, out);
            lemma_collect_chunks(
                *self,
                hs,
                ks,
                chunk_size as int,
                fresh,
                take_in,
                states,
                chunks,
                states.len() as int,
            );
            assert(states.take(states.len() as int) =~= states);
        }
        out
    }
}

/// When rows and probes are hashed by key, an inner-join probe emits exactly the pairs
/// of a row and a probe with equal keys, each once: probe by probe, and for each probe
/// the last row first.
pub proof fn law_emitted(ht: JoinHashTable, hs: Seq<u64>, ks: Seq<i32>)
    requires
        ht.wf(),
        ht.is_final(),
        ht.hashed_by_key(),
        probes_hashed(hs, ks),
    ensures
        ({
            let out = ht.emitted(hs, ks, 0, ks.len() as int);
            &&& forall|r: int, i: int| #[trigger]
                out.contains((r, i)) <==> 0 <= r < ht.rows() && 0 <= i < ks.len() && ht.keys()[r]
                    == ks[i]
            &&& forall|e: int, f: int|
                0 <= e < f < out.len() ==> (#[trigger] out[e]).1 < (#[trigger] out[f]).1
                    || out[e].1 == out[f].1 && out[e].0 > out[f].0
        }),
{
    let n = ks.len() as int;
    let out = ht.emitted(hs, ks, 0, n);
    lemma_emitted(ht, hs, ks, 0, n);
    law_outer_sides(ht, hs, ks);
    assert forall|r: int, i: int| #[trigger] out.contains((r, i)) <==> 0 <= r < ht.rows() && 0 <= i
        < ks.len() && ht.keys()[r] == ks[i] by {
        if out.contains((r, i)) {
            let e = choose|e: int| 0 <= e < out.len() && out[e] == (r, i);
            assert(ht.matches(hs[i], ks[i]).contains(r));
        }
        if 0 <= r < ht.rows() && 0 <= i < ks.len() && ht.keys()[r] == ks[i] {
            assert(ht.matches(hs[i], ks[i]).contains(r));
        }
    }
    lemma_emitted_order(ht, hs, ks, n);
}

proof fn lemma_emitted_order(ht: JoinHashTable, hs: Seq<u64>, ks: Seq<i32>, n: int)
    requires
        ht.wf(),
        ht.is_final(),
        ht.hashed_by_key(),
        probes_hashed(hs, ks),
        0 <= n <= ks.len(),
    ensures
        ({
            let out = ht.emitted(hs, ks, 0, n);
            forall|e: int, f: int|
                0 <= e < f < out.len() ==> (#[trigger] out[e]).1 < (#[trigger] out[f]).1
                    || out[e].1 == out[f].1 && out[e].0 > out[f].0
        }),
    decreases n,
{
    let out = ht.emitted(hs, ks, 0, n);
    if n > 0 {
        let before = ht.emitted(hs, ks, 0, n - 1);
        let k = ks[n - 1];
        let m = ht.matches(hs[n - 1], k);
        lemma_emitted_order(ht, hs, ks, n - 1);
        lemma_emitted(ht, hs, ks, 0, n - 1);
        ht::law_lookup(ht, k);
        select::law_places(ht.keys(), k);
        let at = select::places(ht.keys(), k);
        assert forall|e: int, f: int| 0 <= e < f < out.len() implies (#[trigger] out[e]).1 < (
        #[trigger] out[f]).1 || out[e].1 == out[f].1 && out[e].0 > out[f].0 by {
            if f < before.len() {
                assert(before[e] == out[e] && before[f] == out[f]);
            } else {
                let j = f - before.len();
                assert(out[f] == (m[j], n - 1));
                if e < before.len() {
                    assert(before[e] == out[e]);
                } else {
                    let i = e - before.len();
                    assert(out[e] == (m[i], n - 1));
                    assert(m[i] == at[at.len() - 1 - i] && m[j] == at[at.len() - 1 - j]);
                }
            }
        }
    }
}

/// When rows and probes are hashed by key, the probes that miss are exactly those whose
/// key no row holds, and the rows that are not hit exactly those whose key no probe
/// has; each is listed once, in increasing order.
pub proof fn law_missed(ht: JoinHashTable, hs: Seq<u64>, ks: Seq<i32>)
    requires
        ht.wf(),
        ht.is_final(),
        ht.hashed_by_key(),
        probes_hashed(hs, ks),
    ensures
        ({
            let missed = ht.missed(hs, ks, 0, ks.len() as int);
            let unhit = select::select(0, ht.rows() as int, ht.unhit(hs, ks));
            &&& forall|i: int| #[trigger]
                missed.contains(i) <==> 0 <= i < ks.len() && !ht.keys().contains(ks[i])
            &&& forall|r: int| #[trigger]
                unhit.contains(r) <==> 0 <= r < ht.rows() && !ks.contains(ht.keys()[r])
            &&& forall|i: int, j: int|
                0 <= i < j < missed.len() ==> #[trigger] missed[i] < #[trigger] missed[j]
            &&& forall|i: int, j: int|
                0 <= i < j < unhit.len() ==> #[trigger] unhit[i] < #[trigger] unhit[j]
        }),
{
    law_outer_sides(ht, hs, ks);
    select::law_select(0, ks.len() as int, not_in(ks, ht.keys()));
    select::law_select(0, ht.rows() as int, not_in(ht.keys(), ks));
}

/// What is collected for matches and misses: the key and the hash of the probe, and of
/// a match the address of the row, `64` plus its number times the width of a row.
pub proof fn law_collected<A>(
    ht: JoinHashTable,
    values: Seq<A>,
    pairs: Seq<(int, int)>,
    at: Seq<int>,
    e: int,
)
    ensures
        probed(values, pairs).len() == pairs.len(),
        pick(values, at).len() == at.len(),
        ht.addressed(pairs).len() == pairs.len(),
        0 <= e < pairs.len() ==> probed(values, pairs)[e] == values[pairs[e].1],
        0 <= e < at.len() ==> pick(values, at)[e] == values[at[e]],
        0 <= e < pairs.len() ==> ht.addressed(pairs)[e].0 == 64 + pairs[e].0 * ht.row_size(),
        0 <= e < pairs.len() ==> ht.addressed(pairs)[e].1 == pairs[e].1,
{
}

/// Pairs are counted up component by component.
pub proof fn law_sums(s: Seq<(usize, usize)>, e: (usize, usize))
    ensures
        sums(Seq::<(usize, usize)>::empty()) == (0int, 0int),
        sums(s.push(e)).0 == sums(s).0 + e.0,
        sums(s.push(e)).1 == sums(s).1 + e.1,
{
    assert(s.push(e).drop_last() =~= s);
}

/// Machine integers stand for themselves.
pub proof fn law_int_pairs(s: Seq<(usize, usize)>, i: int)
    requires
        0 <= i < s.len(),
    ensures
        int_pairs(s).len() == s.len(),
        int_pairs(s)[i].0 == s[i].0,
        int_pairs(s)[i].1 == s[i].1,
{
}

/// A probe emits its matches, whatever its hash: those of one more probe stand behind the
/// others, in the order in which they are met, each with the number of the probe.
pub proof fn law_emitted_by_probe(
    ht: JoinHashTable,
    hs: Seq<u64>,
    ks: Seq<i32>,
    lo: int,
    hi: int,
    e: int,
)
    requires
        lo <= hi,
    ensures
        ht.emitted(hs, ks, lo, lo).len() == 0,
        ({
            let before = ht.emitted(hs, ks, lo, hi);
            let m = ht.matches(hs[hi], ks[hi]);
            let out = ht.emitted(hs, ks, lo, hi + 1);
            &&& out.len() == before.len() + m.len()
            &&& out.take(before.len() as int) == before
            &&& 0 <= e < m.len() ==> out[before.len() + e].0 == m[e] && out[before.len() + e].1 == hi
        }),
{
    let before = ht.emitted(hs, ks, lo, hi);
    assert(ht.emitted(hs, ks, lo, hi + 1).take(before.len() as int) =~= before);
}

/// The probes that miss are those that match no row, and the rows that are not hit those
/// that no probe matches, whatever the hashes.
pub proof fn law_missed_by_match(
    ht: JoinHashTable,
    hs: Seq<u64>,
    ks: Seq<i32>,
    lo: int,
    hi: int,
    x: int,
)
    ensures
        ht.missed(hs, ks, lo, hi).contains(x) <==> lo <= x < hi && ht.matches(hs[x], ks[x]).len()
            == 0,
        ht.unhit(hs, ks)(x) <==> forall|i: int|
            0 <= i < ks.len() ==> !(#[trigger] ht.matches(hs[i], ks[i])).contains(x),
{
    select::law_select(lo, hi, ht.misses(hs, ks));
    if ht.unhit(hs, ks)(x) {
        assert forall|i: int| 0 <= i < ks.len() implies !(#[trigger] ht.matches(
            hs[i],
            ks[i],
        )).contains(x) by {
            assert(!ht.is_hit(hs, ks, x));
        }
    }
}

/// Folding begins with a fresh state and passes on the pairs one after the other, each to
/// the state that the pairs before it lead to.
pub proof fn law_folded<S, I: Fn() -> S, F: Fn(S, usize, usize) -> S>(
    init: I,
    partial: F,
    pairs: Seq<(int, int)>,
    e: (int, int),
    s: S,
)
    ensures
        folded(init, partial, Seq::<(int, int)>::empty(), s) <==> call_ensures(init, (), s),
        folded(init, partial, pairs.push(e), s) <==> exists|prev: S|
            folded(init, partial, pairs, prev) && #[trigger] call_ensures(
                partial,
                (prev, e.0 as usize, e.1 as usize),
                s,
            ),
{
    let all = pairs.push(e);
    assert(all.drop_last() =~= pairs);
    let (r, i) = (e.0 as usize, e.1 as usize);
    if folded(init, partial, all, s) {
        let prev = choose|prev: S|
            folded(init, partial, all.drop_last(), prev) && #[trigger] call_ensures(
                partial,
                (prev, all.last().0 as usize, all.last().1 as usize),
                s,
            );
        assert(call_ensures(partial, (prev, r, i), s));
    }
    if exists|prev: S|
        folded(init, partial, pairs, prev) && #[trigger] call_ensures(partial, (prev, r, i), s) {
        let prev = choose|prev: S|
            folded(init, partial, pairs, prev) && #[trigger] call_ensures(
                partial,
                (prev, r, i),
                s,
            );
        assert(folded(init, partial, all.drop_last(), prev));
        assert(call_ensures(
            partial,
            (prev, all.last().0 as usize, all.last().1 as usize),
            s,
        ));
    }
}

} // verus!
