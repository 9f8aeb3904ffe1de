//! What a benchmark run is made of: lists given on the command line, and the
//! columns of a joined table.

use crate::directory;
use vstd::prelude::*;

verus! {

/// The pieces of a text between commas.
pub open spec fn split_at_commas(text: Seq<u8>) -> Seq<Seq<u8>>
    decreases text.len(),
{
    if text.len() == 0 {
        seq![Seq::<u8>::empty()]
    } else {
        let pieces = split_at_commas(text.drop_last());
        if text.last() == 0x2C {
            pieces.push(Seq::<u8>::empty())
        } else {
            pieces.drop_last().push(pieces.last().push(text.last()))
        }
    }
}

/// Which pieces of a list count: those that are not empty.
pub open spec fn not_empty() -> spec_fn(Seq<u8>) -> bool {
    |piece: Seq<u8>| piece.len() > 0
}

/// The views of some texts.
pub open spec fn texts(pieces: Seq<Vec<u8>>) -> Seq<Seq<u8>> {
    pieces.map_values(|p: Vec<u8>| p@)
}

/// The entries of a comma-separated list; empty ones are left out.
pub fn csv_fields(text: &[u8]) -> (fields: Vec<Vec<u8>>)
    ensures
        texts(fields@) == split_at_commas(text@).filter(not_empty()),
{
    let ghost mut done: Seq<Seq<u8>> = Seq::empty();
    let mut fields: Vec<Vec<u8>> = Vec::new();
    let mut piece: Vec<u8> = Vec::new();
    let mut i: usize = 0;
    proof {
        reveal(Seq::filter);
        assert(text@.take(0) =~= Seq::empty());
        assert(done.push(piece@) =~= split_at_commas(text@.take(0)));
        assert(texts(fields@) =~= done.filter(not_empty()));
    }
    while i < text.len()
        invariant
            i <= text@.len(),
            split_at_commas(text@.take(i as int)) == done.push(piece@),
            texts(fields@) == done.filter(not_empty()),
        decreases text@.len() - i,
    {
        let c: u8 = text[i];
        let ghost before = piece@;
        let ghost fields0 = fields@;
        let ghost pieces = split_at_commas(text@.take(i as int));
        proof {
            assert(text@.take(i + 1).drop_last() =~= text@.take(i as int));
            assert(pieces.drop_last() =~= done);
            assert(pieces.last() == before);
        }
        if c == 0x2C {
            proof {
                lemma_filter_push(done, before);
            }
            if piece.len() > 0 {
                fields.push(piece);
                assert(texts(fields@) =~= texts(fields0).push(before));
            }
            piece = Vec::new();
            proof {
                done = done.push(before);
                assert(split_at_commas(text@.take(i + 1)) =~= done.push(piece@));
            }
        } else {
            piece.push(c);
            assert(split_at_commas(text@.take(i + 1)) =~= done.push(piece@));
        }
        i += 1;
    }
    proof {
        assert(text@.take(i as int) =~= text@);
        lemma_filter_push(done, piece@);
    }
    let ghost fields0 = fields@;
    let ghost last = piece@;
    if piece.len() > 0 {
        fields.push(piece);
        assert(texts(fields@) =~= texts(fields0).push(last));
    }
    fields
}

proof fn lemma_filter_push(pieces: Seq<Seq<u8>>, last: Seq<u8>)
    ensures
        pieces.push(last).filter(not_empty()) == (if last.len() > 0 {
            pieces.filter(not_empty()).push(last)
        } else {
            pieces.filter(not_empty())
        }),
{
    let all = pieces.push(last);
    directory::lemma_filter_step(all, not_empty(), pieces.len() as int);
    assert(all.take(all.len() as int) =~= all);
    assert(all.take(pieces.len() as int) =~= pieces);
}

/// The data columns of a join of `n_tables` tables with `n_cols` data columns each,
/// table by table: pairs of a column and a table.
pub fn joined_columns(n_cols: usize, n_tables: usize) -> (cols: Vec<(usize, usize)>)
    requires
        n_cols * n_tables <= usize::MAX,
    ensures
        cols@.len() == n_cols * n_tables,
        forall|t: int, c: int|
            #![trigger cols@[t * n_cols + c]]
            0 <= t < n_tables && 0 <= c < n_cols ==> cols@[t * n_cols + c].0 == c && cols@[t
                * n_cols + c].1 == t,
{
    let mut cols: Vec<(usize, usize)> = Vec::new();
    let mut t: usize = 0;
    assert(0 * n_cols == 0) by (nonlinear_arith);
    while t < n_tables
        invariant
            t <= n_tables,
            cols@.len() == t * n_cols,
            forall|s: int, c: int|
                #![trigger cols@[s * n_cols + c]]
                0 <= s < t && 0 <= c < n_cols ==> cols@[s * n_cols + c].0 == c && cols@[s * n_cols
                    + c].1 == s,
        decreases n_tables - t,
    {
        let ghost before = cols@;
        let mut c: usize = 0;
        while c < n_cols
            invariant
                c <= n_cols,
                t < n_tables,
                before.len() == t * n_cols,
                cols@.len() == before.len() + c,
                forall|i: int| 0 <= i < before.len() ==> #[trigger] cols@[i] == before[i],
                forall|d: int|
                    0 <= d < c ==> (#[trigger] cols@[before.len() + d]).0 == d && cols@[before.len()
                        + d].1 == t,
            decreases n_cols - c,
        {
            cols.push((c, t));
            c += 1;
        }
        proof {
            assert((t + 1) * n_cols == t * n_cols + n_cols) by (nonlinear_arith);
            assert forall|s: int, c: int|
                #![trigger cols@[s * n_cols + c]]
                0 <= s < t + 1 && 0 <= c < n_cols implies cols@[s * n_cols + c].0 == c && cols@[s
                * n_cols + c].1 == s by {
                if s < t {
                    assert(0 <= s * n_cols && s * n_cols + n_cols <= t * n_cols)
                        by (nonlinear_arith)
                        requires
                            0 <= s < t,
                            n_cols >= 0,
                    ;
                    assert(cols@[s * n_cols + c] == before[s * n_cols + c]);
                } else {
                    assert(cols@[before.len() + c].0 == c);
                }
            }
        }
        t += 1;
    }
    proof {
        assert(t * n_cols == n_cols * n_tables) by (nonlinear_arith)
            requires
                t == n_tables,
        ;
    }
    cols
}

/// There is always a piece.
proof fn lemma_some_piece(text: Seq<u8>)
    ensures
        split_at_commas(text).len() > 0,
    decreases text.len(),
{
    if text.len() > 0 {
        lemma_some_piece(text.drop_last());
    }
}

/// A comma ends one piece and begins another: the pieces of two texts with a comma
/// between them are those of the first and those of the second. A text without a comma
/// is one piece.
pub proof fn law_split(a: Seq<u8>, b: Seq<u8>)
    ensures
        split_at_commas(a + seq![0x2Cu8] + b) == split_at_commas(a) + split_at_commas(b),
        !a.contains(0x2C) ==> split_at_commas(a) == seq![a],
    decreases b.len(), a.len(),
{
    let text = a + seq![0x2Cu8] + b;
    if b.len() == 0 {
        assert(text.drop_last() =~= a);
        assert(split_at_commas(text) =~= split_at_commas(a) + split_at_commas(b));
    } else {
        let prev = b.drop_last();
        law_split(a, prev);
        assert(text.drop_last() =~= a + seq![0x2Cu8] + prev);
        lemma_some_piece(prev);
        assert(split_at_commas(text) =~= split_at_commas(a) + split_at_commas(b));
    }
    if !a.contains(0x2C) {
        lemma_whole(a);
    }
}

proof fn lemma_whole(a: Seq<u8>)
    requires
        !a.contains(0x2C),
    ensures
        split_at_commas(a) == seq![a],
    decreases a.len(),
{
    if a.len() > 0 {
        let prev = a.drop_last();
        assert(!prev.contains(0x2C)) by {
            if prev.contains(0x2C) {
                let i = choose|i: int| 0 <= i < prev.len() && prev[i] == 0x2C;
                assert(a[i] == 0x2C);
            }
        }
        lemma_whole(prev);
        assert(a[a.len() - 1] == a.last());
        assert(prev.push(a.last()) =~= a);
        assert(split_at_commas(a) =~= seq![a]);
    } else {
        assert(a =~= Seq::empty());
    }
}

/// The entries of two lists with a comma between them are those of the first and those
/// of the second. A text without a comma is one entry, unless it is empty: then there
/// is none.
pub proof fn law_csv(a: Seq<u8>, b: Seq<u8>)
    ensures
        split_at_commas(a + seq![0x2Cu8] + b).filter(not_empty()) == split_at_commas(a).filter(
            not_empty(),
        ) + split_at_commas(b).filter(not_empty()),
        !a.contains(0x2C) && a.len() > 0 ==> split_at_commas(a).filter(not_empty()) == seq![a],
        a.len() == 0 ==> split_at_commas(a).filter(not_empty()).len() == 0,
{
    law_split(a, b);
    Seq::filter_distributes_over_add(split_at_commas(a), split_at_commas(b), not_empty());
    let none = Seq::<Seq<u8>>::empty();
    reveal(Seq::filter);
    assert(none.filter(not_empty()) =~= none);
    lemma_filter_push(none, a);
    assert(none.push(a) =~= seq![a]);
    if a.len() == 0 {
        assert(!a.contains(0x2C));
    }
    assert(a.len() > 0 ==> none.push(a) =~= seq![a]);
}

} // verus!
