//! Wrapping checksums over what a sink reads.

use crate::io::BatchCols;
use crate::par;
use crate::par::par_reduce;
use crate::select;
use vstd::prelude::*;

verus! {

/// What a sink adds in place of the columns of a side that has no row.
pub const SENTINEL: u64 = 0xDEAD_BEEF_CAFE_BABE;

/// The sum of the words, modulo the range of a word.
pub open spec fn wrapping_sum(words: Seq<u64>) -> u64
    decreases words.len(),
{
    if words.len() == 0 {
        0
    } else {
        wrapping_sum(words.drop_last()).wrapping_add(words.last())
    }
}

/// The wrapping sum of two stretches of words is the sum of both sums.
pub proof fn lemma_wrapping_sum_concat(a: Seq<u64>, b: Seq<u64>)
    ensures
        wrapping_sum(a + b) == wrapping_sum(a).wrapping_add(wrapping_sum(b)),
    decreases b.len(),
{
    if b.len() == 0 {
        assert(a + b =~= a);
    } else {
        lemma_wrapping_sum_concat(a, b.drop_last());
        assert((a + b).drop_last() =~= a + b.drop_last());
    }
}

/// The words of the items `lo..hi`, one item after the other.
pub open spec fn gather(words: spec_fn(int) -> Seq<u64>, lo: int, hi: int) -> Seq<u64>
    decreases hi - lo,
{
    if hi <= lo {
        Seq::empty()
    } else {
        gather(words, lo, hi - 1) + words(hi - 1)
    }
}

pub proof fn lemma_gather_concat(words: spec_fn(int) -> Seq<u64>, lo: int, mid: int, hi: int)
    requires
        lo <= mid <= hi,
    ensures
        gather(words, lo, mid) + gather(words, mid, hi) == gather(words, lo, hi),
    decreases hi - mid,
{
    if mid < hi {
        lemma_gather_concat(words, lo, mid, hi - 1);
    }
    assert(gather(words, lo, mid) + gather(words, mid, hi) =~= gather(words, lo, hi));
}

/// What is gathered depends on the words of the items in the range only.
pub proof fn lemma_gather_same(
    a: spec_fn(int) -> Seq<u64>,
    b: spec_fn(int) -> Seq<u64>,
    lo: int,
    hi: int,
)
    requires
        forall|i: int| lo <= i < hi ==> #[trigger] a(i) == b(i),
    ensures
        gather(a, lo, hi) == gather(b, lo, hi),
    decreases hi - lo,
{
    if lo < hi {
        lemma_gather_same(a, b, lo, hi - 1);
    }
}

/// The sums of the chunks of a range add up to the sum of the range.
pub proof fn lemma_chunk_sums(
    words: spec_fn(int) -> Seq<u64>,
    chunks: Seq<(usize, usize)>,
    size: int,
    n: int,
    sums: Seq<u64>,
    t: int,
)
    requires
        size > 0,
        n >= 0,
        select::is_chunked(chunks, size, n),
        sums.len() == chunks.len(),
        forall|i: int|
            0 <= i < sums.len() ==> #[trigger] sums[i] == wrapping_sum(
                gather(words, chunks[i].0 as int, chunks[i].1 as int),
            ),
        0 <= t <= chunks.len(),
    ensures
        wrapping_sum(sums.take(t)) == wrapping_sum(
            gather(
                words,
                0,
                if t == 0 {
                    0
                } else {
                    chunks[t - 1].1 as int
                },
            ),
        ),
        t == chunks.len() ==> wrapping_sum(sums) == wrapping_sum(gather(words, 0, n)),
    decreases t,
{
    if t > 0 {
        lemma_chunk_sums(words, chunks, size, n, sums, t - 1);
        let lo = chunks[t - 1].0 as int;
        let hi = chunks[t - 1].1 as int;
        select::lemma_chunks_adjoin(chunks, size, n, t - 1);
        lemma_gather_concat(words, 0, lo, hi);
        lemma_wrapping_sum_concat(gather(words, 0, lo), gather(words, lo, hi));
        assert(sums.take(t).drop_last() =~= sums.take(t - 1));
    }
    if t == chunks.len() {
        assert(sums.take(t) =~= sums);
    }
}

proof fn lemma_combines_to_wrapping_sum<I: Fn() -> u64, R: Fn(u64, u64) -> u64>(
    items: Seq<u64>,
    identity: I,
    op: R,
    depth: nat,
    out: u64,
)
    requires
        par::combines(items, identity, op, depth, out),
        forall|r: u64| #[trigger] call_ensures(identity, (), r) ==> r == 0,
        forall|a: u64, b: u64, r: u64|
            #[trigger] call_ensures(op, (a, b), r) ==> r == a.wrapping_add(b),
    ensures
        out == wrapping_sum(items),
    decreases depth,
{
    if items.len() == 0 && call_ensures(identity, (), out) {
    } else if items.len() == 1 && out == items[0] {
        assert(items.drop_last() =~= Seq::empty());
        assert(wrapping_sum(items.drop_last()) == 0);
    } else {
        let (k, left, right) = choose|k: int, left: u64, right: u64|
            0 <= k <= items.len() && par::combines(
                #[trigger] items.take(k),
                identity,
                op,
                (depth - 1) as nat,
                left,
            ) && par::combines(items.skip(k), identity, op, (depth - 1) as nat, right)
                && #[trigger] call_ensures(op, (left, right), out);
        lemma_combines_to_wrapping_sum(items.take(k), identity, op, (depth - 1) as nat, left);
        lemma_combines_to_wrapping_sum(items.skip(k), identity, op, (depth - 1) as nat, right);
        lemma_wrapping_sum_concat(items.take(k), items.skip(k));
        assert(items.take(k) + items.skip(k) =~= items);
    }
}

/// The wrapping sum of some words, in parallel.
pub(crate) fn par_wrapping_sum(words: Vec<u64>) -> (sum: u64)
    ensures
        sum == wrapping_sum(words@),
{
    let ghost items = words@;
    let zero = || -> (r: u64)
        ensures
            r == 0,
        { 0 };
    let plus = |a: u64, b: u64| -> (r: u64)
        ensures
            r == a.wrapping_add(b),
        { a.wrapping_add(b) };
    let sum: u64 = par_reduce(words, zero, plus);
    proof {
        let d = choose|d: nat| par::combines(items, zero, plus, d, sum);
        lemma_combines_to_wrapping_sum(items, zero, plus, d, sum);
    }
    sum
}

/// What a sink reads of a string: its length and, unless it is empty, its first
/// byte.
pub open spec fn string_words(s: Seq<u8>) -> Seq<u64> {
    if s.len() == 0 {
        seq![0u64]
    } else {
        seq![s.len() as u64, s[0] as u64]
    }
}

/// What a sink reads of row `r` of a record batch: the data columns.
pub open spec fn row_words(cols: BatchCols, r: int) -> Seq<u64> {
    seq![
        cols.c_int@[r] as u64,
        cols.c_bigint@[r] as u64,
        cols.c_dbl@[r],
        cols.c_flt@[r] as u64,
        if cols.c_bool@[r] {
            1u64
        } else {
            0u64
        },
    ] + string_words(cols.c_short@[r]@) + string_words(cols.c_long@[r]@)
}

/// The wrapping sum of what a sink reads of a string.
fn string_sum(s: &[u8]) -> (sum: u64)
    ensures
        sum == wrapping_sum(string_words(s@)),
{
    proof {
        reveal_with_fuel(wrapping_sum, 3);
        let w = string_words(s@);
        if s@.len() == 0 {
            assert(w.drop_last() =~= Seq::empty());
        } else {
            assert(w.drop_last() =~= seq![s@.len() as u64]);
            assert(w.drop_last().drop_last() =~= Seq::empty());
        }
    }
    if s.len() == 0 {
        0
    } else {
        (s.len() as u64).wrapping_add(s[0] as u64)
    }
}

/// The wrapping sum of what a sink reads of row `r` of a record batch.
pub fn row_checksum(cols: &BatchCols, r: usize) -> (sum: u64)
    requires
        cols.ok(),
        r < cols.n_rows,
    ensures
        sum == wrapping_sum(row_words(*cols, r as int)),
{
    let a: u64 = cols.c_int[r] as u64;
    let b: u64 = cols.c_bigint[r] as u64;
    let c: u64 = cols.c_dbl[r];
    let d: u64 = cols.c_flt[r] as u64;
    let e: u64 = if cols.c_bool[r] {
        1
    } else {
        0
    };
    let fixed: u64 = a.wrapping_add(b).wrapping_add(c).wrapping_add(d).wrapping_add(e);
    proof {
        let w = seq![a, b, c, d, e];
        assert(wrapping_sum(w) == fixed) by {
            reveal_with_fuel(wrapping_sum, 6);
            assert(w.drop_last() =~= seq![a, b, c, d]);
            assert(w.drop_last().drop_last() =~= seq![a, b, c]);
            assert(w.drop_last().drop_last().drop_last() =~= seq![a, b]);
            assert(w.drop_last().drop_last().drop_last().drop_last() =~= seq![a]);
            assert(w.drop_last().drop_last().drop_last().drop_last().drop_last() =~= Seq::empty());
        }
        let short = string_words(cols.c_short@[r as int]@);
        let long = string_words(cols.c_long@[r as int]@);
        lemma_wrapping_sum_concat(w, short);
        lemma_wrapping_sum_concat(w + short, long);
    }
    fixed.wrapping_add(string_sum(cols.c_short[r].as_slice())).wrapping_add(
        string_sum(cols.c_long[r].as_slice()),
    )
}

/// A checksum adds up words modulo 2^64: nothing gives 0, and one more word adds
/// its value.
pub proof fn law_wrapping_sum(words: Seq<u64>, word: u64)
    ensures
        wrapping_sum(Seq::<u64>::empty()) == 0,
        wrapping_sum(words.push(word)) == (wrapping_sum(words) + word) % 0x1_0000_0000_0000_0000,
{
    assert(words.push(word).drop_last() =~= words);
}

/// The words of a range are those of its items, one after the other.
pub proof fn law_gather(words: spec_fn(int) -> Seq<u64>, lo: int, hi: int)
    requires
        lo <= hi,
    ensures
        gather(words, lo, lo) == Seq::<u64>::empty(),
        gather(words, lo, hi + 1) == gather(words, lo, hi) + words(hi),
{
}

/// The sum of some words.
spec fn total(words: Seq<u64>) -> int
    decreases words.len(),
{
    if words.len() == 0 {
        0
    } else {
        total(words.drop_last()) + words.last()
    }
}

proof fn lemma_total_concat(a: Seq<u64>, b: Seq<u64>)
    ensures
        total(a + b) == total(a) + total(b),
    decreases b.len(),
{
    if b.len() == 0 {
        assert(a + b =~= a);
    } else {
        lemma_total_concat(a, b.drop_last());
        assert((a + b).drop_last() =~= a + b.drop_last());
    }
}

proof fn lemma_wrapping_sum_is_mod(words: Seq<u64>)
    ensures
        wrapping_sum(words) == total(words) % 0x1_0000_0000_0000_0000,
    decreases words.len(),
{
    if words.len() > 0 {
        lemma_wrapping_sum_is_mod(words.drop_last());
    }
}

proof fn lemma_string_total(s: Seq<u8>)
    requires
        s.len() <= u64::MAX,
    ensures
        total(string_words(s)) == s.len() + (if s.len() > 0 {
            s[0] as int
        } else {
            0
        }),
{
    reveal_with_fuel(total, 3);
    let w = string_words(s);
    if s.len() == 0 {
        assert(w.drop_last() =~= Seq::empty());
    } else {
        assert(w.drop_last() =~= seq![s.len() as u64]);
        assert(w.drop_last().drop_last() =~= Seq::empty());
    }
}

/// The checksum of a row is, modulo 2^64, the sum of its five fixed-width columns,
/// the signed ones by their value, the floating-point ones by their bit pattern and
/// the `bool` as 0 or 1, and of the length and the first byte of each of its two
/// strings.
pub proof fn law_row_checksum(cols: BatchCols, r: int)
    requires
        cols.ok(),
        0 <= r < cols.n_rows,
    ensures
        wrapping_sum(row_words(cols, r)) as int == (cols.c_int@[r] + cols.c_bigint@[r]
            + cols.c_dbl@[r] + cols.c_flt@[r] + (if cols.c_bool@[r] {
            1int
        } else {
            0
        }) + cols.c_short@[r]@.len() + (if cols.c_short@[r]@.len() > 0 {
            cols.c_short@[r]@[0] as int
        } else {
            0
        }) + cols.c_long@[r]@.len() + (if cols.c_long@[r]@.len() > 0 {
            cols.c_long@[r]@[0] as int
        } else {
            0
        })) % 0x1_0000_0000_0000_0000,
{
    let i = cols.c_int@[r];
    let j = cols.c_bigint@[r];
    let c = cols.c_dbl@[r];
    let d = cols.c_flt@[r] as u64;
    let e = if cols.c_bool@[r] {
        1u64
    } else {
        0u64
    };
    let short = cols.c_short@[r]@;
    let long = cols.c_long@[r]@;
    assert(short.len() == cols.c_short@[r].len() && long.len() == cols.c_long@[r].len());
    lemma_sign_extended(i, j);
    lemma_string_total(short);
    lemma_string_total(long);
    let w = seq![i as u64, j as u64, c, d, e];
    lemma_fixed_total(i as u64, j as u64, c, d, e);
    lemma_total_concat(w, string_words(short));
    lemma_total_concat(w + string_words(short), string_words(long));
    lemma_wrapping_sum_is_mod(row_words(cols, r));
    let k: int = (if i >= 0 {
        0int
    } else {
        1
    }) + (if j >= 0 {
        0int
    } else {
        1
    });
    let rest = c + d + e + total(string_words(short)) + total(string_words(long));
    vstd::arithmetic::div_mod::lemma_mod_multiples_vanish(
        k,
        i + j + rest,
        0x1_0000_0000_0000_0000,
    );
    assert(total(row_words(cols, r)) == 0x1_0000_0000_0000_0000 * k + (i + j + rest));
}

proof fn lemma_sign_extended(i: i32, j: i64)
    ensures
        i as u64 == (if i >= 0 {
            i as int
        } else {
            i + 0x1_0000_0000_0000_0000
        }),
        j as u64 == (if j >= 0 {
            j as int
        } else {
            j + 0x1_0000_0000_0000_0000
        }),
{
    assert(i as u64 == (if i >= 0 {
        i as int
    } else {
        i + 0x1_0000_0000_0000_0000
    })) by (bit_vector);
    assert(j as u64 == (if j >= 0 {
        j as int
    } else {
        j + 0x1_0000_0000_0000_0000
    })) by (bit_vector);
}

proof fn lemma_fixed_total(a: u64, b: u64, c: u64, d: u64, e: u64)
    ensures
        total(seq![a, b, c, d, e]) == a + b + c + d + e,
{
    let w = seq![a, b, c, d, e];
    reveal_with_fuel(total, 6);
    assert(w.drop_last() =~= seq![a, b, c, d]);
    assert(w.drop_last().drop_last() =~= seq![a, b, c]);
    assert(w.drop_last().drop_last().drop_last() =~= seq![a, b]);
    assert(w.drop_last().drop_last().drop_last().drop_last() =~= seq![a]);
    assert(w.drop_last().drop_last().drop_last().drop_last().drop_last() =~= Seq::empty());
}

/// Two rows have checksums that differ, modulo 2^64, by exactly what their columns
/// differ by: each of the seven data columns counts, and counts once.
pub proof fn law_row_checksums_differ(a: BatchCols, r: int, b: BatchCols, q: int)
    requires
        a.ok(),
        0 <= r < a.n_rows,
        b.ok(),
        0 <= q < b.n_rows,
    ensures
        ({
            let head = |s: Seq<u8>|
                if s.len() > 0 {
                    s[0] as int
                } else {
                    0
                };
            let bit = |x: bool|
                if x {
                    1int
                } else {
                    0
                };
            (wrapping_sum(row_words(a, r)) - wrapping_sum(row_words(b, q))) % 0x1_0000_0000_0000_0000
                == ((a.c_int@[r] - b.c_int@[q]) + (a.c_bigint@[r] - b.c_bigint@[q]) + (a.c_dbl@[r]
                - b.c_dbl@[q]) + (a.c_flt@[r] - b.c_flt@[q]) + (bit(a.c_bool@[r]) - bit(
                b.c_bool@[q],
            )) + (a.c_short@[r]@.len() - b.c_short@[q]@.len()) + (head(a.c_short@[r]@) - head(
                b.c_short@[q]@,
            )) + (a.c_long@[r]@.len() - b.c_long@[q]@.len()) + (head(a.c_long@[r]@) - head(
                b.c_long@[q]@,
            ))) % 0x1_0000_0000_0000_0000
        }),
{
    let head = |s: Seq<u8>|
        if s.len() > 0 {
            s[0] as int
        } else {
            0
        };
    let bit = |x: bool|
        if x {
            1int
        } else {
            0
        };
    let x = a.c_int@[r] + a.c_bigint@[r] + a.c_dbl@[r] + a.c_flt@[r] + bit(a.c_bool@[r])
        + a.c_short@[r]@.len() + head(a.c_short@[r]@) + a.c_long@[r]@.len() + head(a.c_long@[r]@);
    let y = b.c_int@[q] + b.c_bigint@[q] + b.c_dbl@[q] + b.c_flt@[q] + bit(b.c_bool@[q])
        + b.c_short@[q]@.len() + head(b.c_short@[q]@) + b.c_long@[q]@.len() + head(b.c_long@[q]@);
    assert(wrapping_sum(row_words(a, r)) as int == x % 0x1_0000_0000_0000_0000) by {
        law_row_checksum(a, r);
    }
    assert(wrapping_sum(row_words(b, q)) as int == y % 0x1_0000_0000_0000_0000) by {
        law_row_checksum(b, q);
    }
    vstd::arithmetic::div_mod::lemma_sub_mod_noop(x, y, 0x1_0000_0000_0000_0000);
}

} // verus!
