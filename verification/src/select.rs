//! Positions picked out of a range, and ranges cut into chunks.

use vstd::prelude::*;

verus! {

/// The numbers from `lo` up to `hi`, without `hi`, that satisfy `pred`, in
/// increasing order.
pub open spec fn select(lo: int, hi: int, pred: spec_fn(int) -> bool) -> Seq<int>
    decreases hi - lo,
{
    if hi <= lo {
        Seq::empty()
    } else if pred(hi - 1) {
        select(lo, hi - 1, pred).push(hi - 1)
    } else {
        select(lo, hi - 1, pred)
    }
}

/// What is selected from a range lies in the range, satisfies the predicate,
/// is all of it that does, and is in increasing order.
pub proof fn lemma_select(lo: int, hi: int, pred: spec_fn(int) -> bool)
    ensures
        forall|i: int|
            0 <= i < select(lo, hi, pred).len() ==> lo <= #[trigger] select(lo, hi, pred)[i] < hi
                && pred(select(lo, hi, pred)[i]),
        forall|i: int, j: int|
            0 <= i < j < select(lo, hi, pred).len() ==> #[trigger] select(lo, hi, pred)[i]
                < #[trigger] select(lo, hi, pred)[j],
        forall|x: int|
            lo <= x < hi && pred(x) ==> #[trigger] select(lo, hi, pred).contains(x),
        select(lo, hi, pred).len() <= (if hi <= lo {
            0
        } else {
            hi - lo
        }),
    decreases hi - lo,
{
    if lo < hi {
        lemma_select(lo, hi - 1, pred);
        let s = select(lo, hi, pred);
        let t = select(lo, hi - 1, pred);
        assert forall|x: int| lo <= x < hi && pred(x) implies #[trigger] s.contains(x) by {
            if x == hi - 1 {
                assert(s[s.len() - 1] == x);
            } else {
                assert(t.contains(x));
                let i = choose|i: int| 0 <= i < t.len() && t[i] == x;
                assert(s[i] == x);
            }
        }
    }
}

/// Selecting from two adjoining ranges is selecting from both.
pub proof fn lemma_select_concat(lo: int, mid: int, hi: int, pred: spec_fn(int) -> bool)
    requires
        lo <= mid <= hi,
    ensures
        select(lo, mid, pred) + select(mid, hi, pred) == select(lo, hi, pred),
    decreases hi - mid,
{
    if mid < hi {
        lemma_select_concat(lo, mid, hi - 1, pred);
        assert(select(lo, mid, pred) + select(mid, hi, pred) =~= select(lo, hi, pred));
    } else {
        assert(select(lo, mid, pred) + select(mid, hi, pred) =~= select(lo, hi, pred));
    }
}

/// What is selected depends on the predicate within the range only.
pub proof fn lemma_select_same(
    lo: int,
    hi: int,
    p: spec_fn(int) -> bool,
    q: spec_fn(int) -> bool,
)
    requires
        forall|i: int| lo <= i < hi ==> #[trigger] p(i) == q(i),
    ensures
        select(lo, hi, p) == select(lo, hi, q),
    decreases hi - lo,
{
    if lo < hi {
        lemma_select_same(lo, hi - 1, p, q);
    }
}

/// At which positions `key` stands in `keys`.
pub open spec fn holds(keys: Seq<i32>, key: i32) -> spec_fn(int) -> bool {
    |r: int| keys[r] == key
}

/// The positions at which `key` stands in `keys`, in increasing order.
pub open spec fn places(keys: Seq<i32>, key: i32) -> Seq<int> {
    select(0, keys.len() as int, holds(keys, key))
}

/// An increasing sequence is determined by its elements.
pub proof fn lemma_increasing_unique(a: Seq<int>, b: Seq<int>)
    requires
        forall|i: int, j: int| 0 <= i < j < a.len() ==> #[trigger] a[i] < #[trigger] a[j],
        forall|i: int, j: int| 0 <= i < j < b.len() ==> #[trigger] b[i] < #[trigger] b[j],
        forall|x: int| #[trigger] a.contains(x) <==> b.contains(x),
    ensures
        a == b,
    decreases a.len() + b.len(),
{
    if a.len() == 0 || b.len() == 0 {
        if a.len() > 0 {
            assert(a.contains(a[0]));
        }
        if b.len() > 0 {
            assert(a.contains(b[0]) <==> b.contains(b[0]));
            assert(b.contains(b[0]));
        }
        assert(a =~= b);
    } else {
        let x = a.last();
        let y = b.last();
        assert(a[a.len() - 1] == x && b[b.len() - 1] == y);
        assert(a.contains(x));
        assert(b.contains(y));
        assert(a.contains(y));
        assert(b.contains(x));
        let i = choose|i: int| 0 <= i < a.len() && a[i] == y;
        let j = choose|j: int| 0 <= j < b.len() && b[j] == x;
        assert(x == y) by {
            if i < a.len() - 1 {
                assert(a[i] < a[a.len() - 1]);
            }
            if j < b.len() - 1 {
                assert(b[j] < b[b.len() - 1]);
            }
        }
        let a1 = a.drop_last();
        let b1 = b.drop_last();
        assert forall|z: int| #[trigger] a1.contains(z) <==> b1.contains(z) by {
            if a1.contains(z) {
                let k = choose|k: int| 0 <= k < a1.len() && a1[k] == z;
                assert(a[k] == z && a[k] < a[a.len() - 1]);
                assert(a.contains(z));
                assert(b.contains(z));
                let m = choose|m: int| 0 <= m < b.len() && b[m] == z;
                assert(b1[m] == z);
            }
            if b1.contains(z) {
                let k = choose|k: int| 0 <= k < b1.len() && b1[k] == z;
                assert(b[k] == z && b[k] < b[b.len() - 1]);
                assert(b.contains(z));
                assert(a.contains(z));
                let m = choose|m: int| 0 <= m < a.len() && a[m] == z;
                assert(a1[m] == z);
            }
        }
        lemma_increasing_unique(a1, b1);
        assert(a =~= a1.push(x));
        assert(b =~= b1.push(y));
    }
}

/// A range splits into what satisfies a predicate and what does not.
pub proof fn lemma_select_complement(lo: int, hi: int, pred: spec_fn(int) -> bool)
    requires
        lo <= hi,
    ensures
        select(lo, hi, pred).len() + select(lo, hi, |i: int| !pred(i)).len() == hi - lo,
    decreases hi - lo,
{
    if lo < hi {
        lemma_select_complement(lo, hi - 1, pred);
    }
}

/// Chunk number `i` of the range `0..n` cut into chunks of `size`: where it
/// starts and where it ends.
pub open spec fn chunk(i: int, size: int, n: int) -> (int, int) {
    (i * size, if (i + 1) * size <= n {
        (i + 1) * size
    } else {
        n
    })
}

/// Whether `chunks` are the chunks of `size` into which the range `0..n` is cut,
/// the last one perhaps shorter.
pub open spec fn is_chunked(chunks: Seq<(usize, usize)>, size: int, n: int) -> bool {
    &&& forall|i: int|
        0 <= i < chunks.len() ==> ((#[trigger] chunks[i]).0 as int, chunks[i].1 as int) == chunk(
            i,
            size,
            n,
        )
    &&& forall|i: int| 0 <= i < chunks.len() ==> (#[trigger] chunks[i]).0 < chunks[i].1
    &&& chunks.len() > 0 ==> chunks[chunks.len() - 1].1 == n
    &&& chunks.len() == 0 ==> n == 0
}

/// Each chunk starts where the one before it ends, the first one at 0.
pub proof fn lemma_chunks_adjoin(chunks: Seq<(usize, usize)>, size: int, n: int, i: int)
    requires
        is_chunked(chunks, size, n),
        0 <= i < chunks.len(),
        size > 0,
        n >= 0,
    ensures
        i == 0 ==> chunks[i].0 == 0,
        i > 0 ==> chunks[i].0 == chunks[i - 1].1,
        chunks[i].1 <= n,
{
    assert((chunks[i].0 as int, chunks[i].1 as int) == chunk(i, size, n));
    assert(0 * size == 0);
    if i > 0 {
        assert((chunks[i - 1].0 as int, chunks[i - 1].1 as int) == chunk(i - 1, size, n));
    }
}

/// Cuts the range `0..n` into chunks of `size`.
pub fn chunk_bounds(n: usize, size: usize) -> (chunks: Vec<(usize, usize)>)
    requires
        size > 0,
    ensures
        is_chunked(chunks@, size as int, n as int),
{
    let mut chunks: Vec<(usize, usize)> = Vec::new();
    let mut start: usize = 0;
    assert(0 * size == 0) by (nonlinear_arith);
    while start < n
        invariant
            size > 0,
            start <= n,
            start < n ==> start == chunks@.len() * size,
            forall|i: int|
                0 <= i < chunks@.len() ==> ((#[trigger] chunks@[i]).0 as int, chunks@[i].1 as int)
                    == chunk(i, size as int, n as int),
            forall|i: int| 0 <= i < chunks@.len() ==> (#[trigger] chunks@[i]).0 < chunks@[i].1,
            chunks@.len() > 0 ==> chunks@[chunks@.len() - 1].1 == start,
            chunks@.len() == 0 ==> start == 0,
        decreases n - start,
    {
        let end: usize = if n - start > size {
            start + size
        } else {
            n
        };
        proof {
            let k = chunks@.len() as int;
            assert((k + 1) * size == k * size + size) by (nonlinear_arith);
        }
        chunks.push((start, end));
        start = end;
    }
    chunks
}

/// Selecting gives the numbers of the range that satisfy the predicate, all of them
/// and no others, each once, in increasing order.
pub proof fn law_select(lo: int, hi: int, pred: spec_fn(int) -> bool)
    ensures
        forall|x: int| #[trigger]
            select(lo, hi, pred).contains(x) <==> lo <= x < hi && pred(x),
        forall|i: int, j: int|
            0 <= i < j < select(lo, hi, pred).len() ==> #[trigger] select(lo, hi, pred)[i]
                < #[trigger] select(lo, hi, pred)[j],
{
    lemma_select(lo, hi, pred);
}

/// The places of a key are the positions at which it stands, all of them and no
/// others, each once, in increasing order.
pub proof fn law_places(keys: Seq<i32>, key: i32)
    ensures
        forall|i: int| #[trigger]
            places(keys, key).contains(i) <==> 0 <= i < keys.len() && keys[i] == key,
        forall|i: int, j: int|
            0 <= i < j < places(keys, key).len() ==> #[trigger] places(keys, key)[i]
                < #[trigger] places(keys, key)[j],
        forall|i: int|
            0 <= i < places(keys, key).len() ==> 0 <= #[trigger] places(keys, key)[i] < keys.len()
                && keys[places(keys, key)[i]] == key,
{
    lemma_select(0, keys.len() as int, holds(keys, key));
    let at = places(keys, key);
    assert forall|i: int| #[trigger] at.contains(i) <==> 0 <= i < keys.len() && keys[i] == key by {
        if at.contains(i) {
            let j = choose|j: int| 0 <= j < at.len() && at[j] == i;
            assert(holds(keys, key)(at[j]));
        }
        if 0 <= i < keys.len() && keys[i] == key {
            assert(holds(keys, key)(i));
        }
    }
    assert forall|i: int| 0 <= i < at.len() implies 0 <= #[trigger] at[i] < keys.len()
        && keys[at[i]] == key by {
        assert(holds(keys, key)(at[i]));
    }
}

/// The chunks of a range are cut one behind the other from 0 to its end, all of the
/// given size but perhaps the last.
pub proof fn law_chunks(chunks: Seq<(usize, usize)>, size: int, n: int, i: int)
    requires
        is_chunked(chunks, size, n),
        size > 0,
        n >= 0,
    ensures
        chunks.len() == 0 <==> n == 0,
        0 <= i < chunks.len() ==> chunks[i].0 == (if i == 0 {
            0
        } else {
            chunks[i - 1].1 as int
        }),
        0 <= i < chunks.len() ==> chunks[i].0 < chunks[i].1 <= chunks[i].0 + size,
        0 <= i < chunks.len() - 1 ==> chunks[i].1 == chunks[i].0 + size,
        0 <= i == chunks.len() - 1 ==> chunks[i].1 == n,
{
    if 0 <= i < chunks.len() {
        lemma_chunks_adjoin(chunks, size, n, i);
        assert((chunks[i].0 as int, chunks[i].1 as int) == chunk(i, size, n));
        assert((i + 1) * size == i * size + size) by (nonlinear_arith);
        if i < chunks.len() - 1 {
            lemma_chunks_adjoin(chunks, size, n, i + 1);
            assert((chunks[i + 1].0 as int, chunks[i + 1].1 as int) == chunk(i + 1, size, n));
        }
    }
}

} // verus!
