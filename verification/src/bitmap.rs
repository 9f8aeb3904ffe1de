//! Bitmaps: one bit per row, packed into words.

use crate::par::par_map;
use crate::select;
use crate::select::chunk_bounds;
use vstd::arithmetic::power2::*;
use vstd::prelude::*;

verus! {

/// Whether bit `r` of a bitmap is set.
pub open spec fn is_marked(words: Seq<u64>, r: int) -> bool {
    words[r / 64] & (1u64 << ((r % 64) as u64)) != 0
}

/// Sets bit `r` of a bitmap.
pub(crate) fn mark(words: &mut Vec<u64>, r: usize)
    requires
        r / 64 < old(words)@.len(),
    ensures
        final(words)@.len() == old(words)@.len(),
        forall|q: int|
            0 <= q < 64 * old(words)@.len() ==> #[trigger] is_marked(final(words)@, q) == (q == r
                || is_marked(old(words)@, q)),
{
    let w: usize = r / 64;
    let bit: u64 = (r % 64) as u64;
    let word: u64 = words[w];
    words.set(w, word | (1u64 << bit));
    assert forall|q: int| 0 <= q < 64 * old(words)@.len() implies #[trigger] is_marked(words@, q)
        == (q == r || is_marked(old(words)@, q)) by {
        let c = (q % 64) as u64;
        assert(((word | (1u64 << bit)) & (1u64 << c) != 0) == (bit == c || word & (1u64 << c) != 0))
            by (bit_vector)
            requires
                bit < 64,
                c < 64,
        ;
    }
}

/// Which bits of a bitmap are not set.
pub open spec fn unmarked(words: Seq<u64>) -> spec_fn(int) -> bool {
    |r: int| !is_marked(words, r)
}

/// The bitmap of `n` bits, none of them set: as many words as hold `n` bits.
pub open spec fn no_marks(n: int) -> Seq<u64> {
    Seq::new(((n + 63) / 64) as nat, |w: int| 0u64)
}

/// No bit of the bitmap without marks is set.
pub proof fn lemma_no_marks(n: int)
    requires
        n >= 0,
    ensures
        n <= 64 * no_marks(n).len(),
        forall|r: int|
            0 <= r < 64 * no_marks(n).len() ==> !#[trigger] is_marked(no_marks(n), r),
{
    assert forall|r: int| 0 <= r < 64 * no_marks(n).len() implies !#[trigger] is_marked(
        no_marks(n),
        r,
    ) by {
        let c = (r % 64) as u64;
        assert(0u64 & (1u64 << c) == 0) by (bit_vector);
    }
}

/// Words that agree in their lowest bits agree in one more if they agree in it.
proof fn lemma_low_bits(a: u64, b: u64, k: u64)
    by (bit_vector)
    requires
        k < 64,
        a & (((1u64 << k) - 1) as u64) == b & (((1u64 << k) - 1) as u64),
        (a & (1u64 << k) != 0) == (b & (1u64 << k) != 0),
    ensures
        k < 63 ==> a & (((1u64 << (k + 1) as u64) - 1) as u64) == b & (((1u64 << (k + 1) as u64)
            - 1) as u64),
        k == 63 ==> a == b,
{
}

/// Bitmaps with as many words that agree in every bit are equal.
pub proof fn law_bits_make_bitmap(a: Seq<u64>, b: Seq<u64>)
    requires
        a.len() == b.len(),
        forall|r: int| 0 <= r < 64 * a.len() ==> #[trigger] is_marked(a, r) == is_marked(b, r),
    ensures
        a == b,
{
    assert forall|w: int| 0 <= w < a.len() implies #[trigger] a[w] == b[w] by {
        lemma_word_bits(a, b, w, 63);
    }
    assert(a =~= b);
}

proof fn lemma_word_bits(a: Seq<u64>, b: Seq<u64>, w: int, k: u64)
    requires
        a.len() == b.len(),
        forall|r: int| 0 <= r < 64 * a.len() ==> #[trigger] is_marked(a, r) == is_marked(b, r),
        0 <= w < a.len(),
        k < 64,
    ensures
        k < 63 ==> a[w] & (((1u64 << (k + 1) as u64) - 1) as u64) == b[w] & (((1u64 << (k
            + 1) as u64) - 1) as u64),
        k == 63 ==> a[w] == b[w],
    decreases k,
{
    let x = a[w];
    let y = b[w];
    if k > 0 {
        lemma_word_bits(a, b, w, (k - 1) as u64);
    } else {
        assert(x & (((1u64 << 0u64) - 1) as u64) == y & (((1u64 << 0u64) - 1) as u64))
            by (bit_vector);
    }
    assert(is_marked(a, 64 * w + k) == is_marked(b, 64 * w + k));
    assert((64 * w + k) / 64 == w && (64 * w + k) % 64 == k);
    lemma_low_bits(x, y, k);
}

/// Number of words of a bitmap of `n` bits.
pub(crate) fn words_for(n: usize) -> (w: usize)
    ensures
        n <= 64 * w,
        w == (n + 63) / 64,
{
    n / 64 + (if n % 64 == 0 {
        0
    } else {
        1
    })
}

/// A bitmap of `n` bits, none of them set.
pub(crate) fn cleared(n: usize) -> (words: Vec<u64>)
    ensures
        words@ == no_marks(n as int),
{
    let words: Vec<u64> = vec![0u64; words_for(n)];
    assert(words@ =~= no_marks(n as int));
    words
}

/// Whether bit `r` of a bitmap is set.
pub(crate) fn test(words: &[u64], r: usize) -> (b: bool)
    requires
        r / 64 < words@.len(),
    ensures
        b == is_marked(words@, r as int),
{
    words[r / 64] & (1u64 << ((r % 64) as u64)) != 0
}

/// Number of bits among `lo..hi` of a bitmap that are not set.
fn count_unmarked(words: &[u64], lo: usize, hi: usize) -> (n: usize)
    requires
        lo <= hi <= 64 * words@.len(),
    ensures
        n == select::select(lo as int, hi as int, unmarked(words@)).len(),
{
    let ghost free = unmarked(words@);
    let mut n: usize = 0;
    let mut r: usize = lo;
    while r < hi
        invariant
            lo <= r <= hi <= 64 * words@.len(),
            free == unmarked(words@),
            n == select::select(lo as int, r as int, free).len(),
            n <= r - lo,
        decreases hi - r,
    {
        if words[r / 64] & (1u64 << ((r % 64) as u64)) == 0 {
            n += 1;
        }
        r += 1;
    }
    n
}

/// Number of rows `0..n` that are not marked, counted word by word in parallel.
pub(crate) fn count_all_unmarked(words: &[u64], n: usize) -> (total: usize)
    requires
        n <= 64 * words@.len(),
    ensures
        total == select::select(0, n as int, unmarked(words@)).len(),
{
    let ghost free = unmarked(words@);
    let chunks: Vec<(usize, usize)> = chunk_bounds(n, 64);
    let ghost bounds = chunks@;
    proof {
        assert forall|i: int| 0 <= i < bounds.len() implies (#[trigger] bounds[i]).0 <= bounds[i].1
            <= n by {
            select::lemma_chunks_adjoin(bounds, 64, n as int, i);
        }
    }
    let count = |c: (usize, usize)| -> (k: usize)
        requires
            c.0 <= c.1 <= 64 * words@.len(),
        ensures
            k == select::select(c.0 as int, c.1 as int, unmarked(words@)).len(),
        { count_unmarked(words, c.0, c.1) };
    let counts: Vec<usize> = par_map(chunks, count);
    let mut total: usize = 0;
    let mut t: usize = 0;
    let ghost mut b: int = 0;
    while t < counts.len()
        invariant
            t <= counts@.len(),
            counts@.len() == bounds.len(),
            select::is_chunked(bounds, 64, n as int),
            free == unmarked(words@),
            b == (if t == 0 {
                0
            } else {
                bounds[t - 1].1 as int
            }),
            forall|i: int|
                0 <= i < counts@.len() ==> #[trigger] counts@[i] == select::select(
                    bounds[i].0 as int,
                    bounds[i].1 as int,
                    free,
                ).len(),
            total == select::select(0, b, free).len(),
        decreases counts@.len() - t,
    {
        proof {
            let e = bounds[t as int].1 as int;
            select::lemma_chunks_adjoin(bounds, 64, n as int, t as int);
            if t > 0 {
                select::lemma_chunks_adjoin(bounds, 64, n as int, t - 1);
            }
            select::lemma_select_concat(0, b, e, free);
            select::lemma_select(0, e, free);
            b = e;
        }
        total += counts[t];
        t += 1;
    }
    total
}

/// Bit `r` of a bitmap is bit `r % 64`, counted from the lowest, of word `r / 64`.
pub proof fn law_marked_bit(words: Seq<u64>, r: int)
    requires
        0 <= r < 64 * words.len(),
    ensures
        is_marked(words, r) <==> (words[r / 64] as nat / pow2((r % 64) as nat)) % 2 == 1,
{
    let w = words[r / 64];
    let c = (r % 64) as u64;
    vstd::bits::lemma_u64_shr_is_div(w, c);
    assert((w & (1u64 << c) != 0) == ((w >> c) % 2 == 1)) by (bit_vector)
        requires
            c < 64,
    ;
}

/// A bitmap of `n` bits without marks has the fewest words of 64 bits that hold them, and
/// every word is 0.
pub proof fn law_no_marks(n: int, w: int)
    requires
        n >= 0,
        0 <= w < no_marks(n).len(),
    ensures
        n <= 64 * no_marks(n).len() < n + 64,
        no_marks(n)[w] == 0,
{
}

} // verus!
