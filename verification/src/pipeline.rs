//! Pipelines of sources, operators and sinks.
//!
//! A source hands out batches of rows, an operator turns a batch into further
//! batches, a sink takes batches in. A sink works with local states, which take in
//! batches independently of each other, and a global state, into which the local
//! states are combined. The workers that drain a source take turns at it, and each
//! sinks what it has pulled.
//!
//! A row that flows through a pipeline is a key, its hash and, for each source
//! table, the address of a row of that table or 0.

use crate::par::par_map;
use vstd::prelude::*;

verus! {

/// Usual number of rows of a batch.
pub const CHUNK_SIZE: usize = 2048;

/// A batch of rows: keys, hashes and row addresses, one of each per row.
pub struct Batch {
    pub keys: Vec<i32>,
    pub hashes: Vec<u64>,
    pub ptrs: Vec<[u64; 5]>,
}

impl Default for Batch {
    fn default() -> (b: Self)
        ensures
            b.wf(),
            b.rows() == Seq::<(i32, u64, Seq<u64>)>::empty(),
    {
        let b: Batch = Batch { keys: Vec::new(), hashes: Vec::new(), ptrs: Vec::new() };
        assert(b.rows() =~= Seq::empty());
        b
    }
}

impl Batch {
    /// Whether there is one of each per row.
    pub open spec fn wf(self) -> bool {
        &&& self.hashes@.len() == self.keys@.len()
        &&& self.ptrs@.len() == self.keys@.len()
    }

    /// The rows as key, hash and addresses.
    pub open spec fn rows(self) -> Seq<(i32, u64, Seq<u64>)> {
        Seq::new(
            self.keys@.len(),
            |i: int| (self.keys@[i], self.hashes@[i], self.ptrs@[i]@),
        )
    }

    /// An empty batch with room for `n` rows.
    pub fn with_capacity(n: usize) -> (b: Self)
        requires
            n * 40 <= isize::MAX,
        ensures
            b.wf(),
            b.rows() == Seq::<(i32, u64, Seq<u64>)>::empty(),
    {
        let b: Batch = Batch {
            keys: Vec::with_capacity(n),
            hashes: Vec::with_capacity(n),
            ptrs: Vec::with_capacity(n),
        };
        assert(b.rows() =~= Seq::empty());
        b
    }

    /// Number of rows.
    pub fn len(&self) -> (n: usize)
        ensures
            n == self.rows().len(),
    {
        self.keys.len()
    }

    /// Whether there is no row.
    pub fn is_empty(&self) -> (b: bool)
        ensures
            b == (self.rows().len() == 0),
    {
        self.keys.is_empty()
    }

    /// Appends a row.
    pub fn push(&mut self, key: i32, hash: u64, ptrs: [u64; 5])
        requires
            old(self).wf(),
        ensures
            final(self).wf(),
            final(self).rows() == old(self).rows().push((key, hash, ptrs@)),
    {
        self.keys.push(key);
        self.hashes.push(hash);
        self.ptrs.push(ptrs);
        assert(self.rows() =~= old(self).rows().push((key, hash, ptrs@)));
    }

    /// Removes all rows.
    pub fn clear(&mut self)
        ensures
            final(self).wf(),
            final(self).rows() == Seq::<(i32, u64, Seq<u64>)>::empty(),
    {
        self.keys.clear();
        self.hashes.clear();
        self.ptrs.clear();
        assert(self.rows() =~= Seq::empty());
    }
}

/// The rows of some batches, one batch after the other.
pub open spec fn all_rows(batches: Seq<Seq<(i32, u64, Seq<u64>)>>) -> Seq<(i32, u64, Seq<u64>)>
    decreases batches.len(),
{
    if batches.len() == 0 {
        Seq::empty()
    } else {
        all_rows(batches.drop_last()) + batches.last()
    }
}

/// The rows of each of some batches.
pub open spec fn rows_of_batches(batches: Seq<Batch>) -> Seq<Seq<(i32, u64, Seq<u64>)>> {
    batches.map_values(|b: Batch| b.rows())
}

pub proof fn lemma_all_rows_concat(
    a: Seq<Seq<(i32, u64, Seq<u64>)>>,
    b: Seq<Seq<(i32, u64, Seq<u64>)>>,
)
    ensures
        all_rows(a + b) == all_rows(a) + all_rows(b),
    decreases b.len(),
{
    if b.len() == 0 {
        assert(a + b =~= a);
        assert(all_rows(a) + all_rows(b) =~= all_rows(a));
    } else {
        lemma_all_rows_concat(a, b.drop_last());
        assert((a + b).drop_last() =~= a + b.drop_last());
        assert(all_rows(a + b) =~= all_rows(a) + all_rows(b));
    }
}

/// A source hands out batches until it is exhausted.
pub trait Source: Send + Sync + Sized {
    type Global: Send + Sync;

    type Local: Send + Default;

    /// What the source can be asked for batches in.
    spec fn ready(&self) -> bool;

    /// The batches that are still to come.
    spec fn remaining(&self) -> Seq<Seq<(i32, u64, Seq<u64>)>>;

    /// Whether a worker with the local state `local` that asks for the next batch is
    /// given `b`, and the source becomes `after`, the local state `local_after`.
    spec fn gives(
        &self,
        local: Self::Local,
        b: Option<Batch>,
        after: Self,
        local_after: Self::Local,
    ) -> bool;

    /// The state that the workers share.
    fn global_state(&self) -> &Self::Global;

    /// The next batch, or `None` when there is none left.
    fn get_data(&mut self, local: &mut Self::Local) -> (b: Option<Batch>)
        requires
            old(self).ready(),
        ensures
            old(self).gives(*old(local), b, *final(self), *final(local)),
            final(self).ready(),
            match b {
                Some(batch) => {
                    &&& batch.wf()
                    &&& old(self).remaining().len() > 0
                    &&& batch.rows() == old(self).remaining()[0]
                    &&& final(self).remaining() == old(self).remaining().skip(1)
                },
                None => {
                    &&& old(self).remaining().len() == 0
                    &&& final(self).remaining().len() == 0
                },
            },
    ;
}

/// A sink takes in batches: by local states first, which are then combined into
/// the sink. A state is known by the rows that it has taken in.
pub trait Sink: Send + Sync + Sized {
    type Global: Send + Sync;

    type Local: Send + Default;

    /// Whether `local` has taken in `rows`, in this order.
    spec fn local_has(&self, local: Self::Local, rows: Seq<(i32, u64, Seq<u64>)>) -> bool;

    /// Whether the local states that were combined into the sink have taken in
    /// `rows`, in this order.
    spec fn has(&self, rows: Seq<(i32, u64, Seq<u64>)>) -> bool;

    /// Whether the sink was finalized after it had taken in `rows`.
    spec fn finished(&self, rows: Seq<(i32, u64, Seq<u64>)>) -> bool;

    /// Whether the sink can take in `rows`.
    spec fn can_take(&self, rows: Seq<(i32, u64, Seq<u64>)>) -> bool;

    /// Whether the sink is `before` but for what it has taken in.
    spec fn continues(&self, before: Self) -> bool;

    /// A sink continues itself.
    proof fn continues_itself(&self)
        ensures
            self.continues(*self),
    ;

    /// What continues a continuation continues what that continues.
    proof fn continues_on(&self, between: Self, before: Self)
        requires
            self.continues(between),
            between.continues(before),
        ensures
            self.continues(before),
    ;

    /// Whether a local state that takes in a batch becomes `after`.
    spec fn takes(&self, local: Self::Local, batch: Batch, after: Self::Local) -> bool;

    /// Whether the sink is what `before` becomes when `local` is combined into it.
    spec fn combined(&self, before: Self, local: Self::Local) -> bool;

    /// A fresh local state has taken in nothing.
    proof fn fresh_local(&self, local: Self::Local)
        requires
            call_ensures(<Self::Local as Default>::default, (), local),
        ensures
            self.local_has(local, Seq::<(i32, u64, Seq<u64>)>::empty()),
    ;

    /// A sink that can take in some rows can take in any stretch of them.
    proof fn takes_parts(
        &self,
        a: Seq<(i32, u64, Seq<u64>)>,
        b: Seq<(i32, u64, Seq<u64>)>,
        c: Seq<(i32, u64, Seq<u64>)>,
    )
        requires
            self.can_take(a + b + c),
        ensures
            self.can_take(b),
            self.can_take(a + b),
    ;

    /// The state into which local states are combined.
    fn global_state(&self) -> &Self::Global;

    /// The local state takes in a batch.
    fn sink(&self, batch: Batch, local: &mut Self::Local)
        requires
            batch.wf(),
            exists|rows: Seq<(i32, u64, Seq<u64>)>|
                #[trigger] self.local_has(*old(local), rows) && self.can_take(rows + batch.rows()),
        ensures
            self.takes(*old(local), batch, *final(local)),
            forall|rows: Seq<(i32, u64, Seq<u64>)>|
                #[trigger] self.local_has(*old(local), rows) ==> self.local_has(
                    *final(local),
                    rows + batch.rows(),
                ),
    ;

    /// What a local state has taken in goes over to the sink.
    fn combine(&mut self, local: Self::Local)
        requires
            exists|before: Seq<(i32, u64, Seq<u64>)>, rows: Seq<(i32, u64, Seq<u64>)>|
                #[trigger] old(self).has(before) && #[trigger] old(self).local_has(local, rows)
                    && old(self).can_take(before + rows),
        ensures
            forall|before: Seq<(i32, u64, Seq<u64>)>, rows: Seq<(i32, u64, Seq<u64>)>|
                #[trigger] old(self).has(before) && #[trigger] old(self).local_has(local, rows)
                    ==> final(self).has(before + rows),
            forall|l: Self::Local, r: Seq<(i32, u64, Seq<u64>)>|
                #[trigger] old(self).local_has(l, r) ==> final(self).local_has(l, r),
            forall|r: Seq<(i32, u64, Seq<u64>)>|
                #[trigger] old(self).can_take(r) ==> final(self).can_take(r),
            final(self).combined(*old(self), local),
            final(self).continues(*old(self)),
    ;

    /// To be called once, after everything was taken in.
    fn finalize(&mut self)
        requires
            exists|rows: Seq<(i32, u64, Seq<u64>)>|
                #[trigger] old(self).has(rows) && old(self).can_take(rows),
        ensures
            forall|rows: Seq<(i32, u64, Seq<u64>)>|
                #[trigger] old(self).has(rows) ==> final(self).finished(rows),
            final(self).continues(*old(self)),
    ;
}

/// An operator turns a batch into further batches.
pub trait Operator: Send + Sync + Sized {
    type Global: Send + Sync;

    type Local: Send + Default;

    /// What the operator can be handed batches in.
    spec fn ready(&self) -> bool;

    /// The rows that come out for the rows of a batch.
    spec fn output(&self, rows: Seq<(i32, u64, Seq<u64>)>) -> Seq<(i32, u64, Seq<u64>)>;

    /// Whether the operator has been handed `rows`.
    spec fn has_seen(&self, rows: Seq<(i32, u64, Seq<u64>)>) -> bool;

    /// Whether the operator is `before` but for what it has been handed.
    spec fn continues(&self, before: Self) -> bool;

    /// An operator continues itself.
    proof fn continues_itself(&self)
        ensures
            self.continues(*self),
    ;

    /// What continues a continuation continues what that continues.
    proof fn continues_on(&self, between: Self, before: Self)
        requires
            self.continues(between),
            between.continues(before),
        ensures
            self.continues(before),
    ;

    /// Whether a worker with the local state `local` that hands over `input` gets
    /// `out`, and the operator becomes `after`, the local state `local_after`.
    spec fn makes(
        &self,
        local: Self::Local,
        input: Batch,
        out: Seq<Batch>,
        after: Self,
        local_after: Self::Local,
    ) -> bool;

    /// The state that the workers share.
    fn global_state(&self) -> &Self::Global;

    /// Turns a batch into further batches.
    fn execute(&mut self, input: Batch, local: &mut Self::Local) -> (out: Vec<Batch>)
        requires
            old(self).ready(),
            input.wf(),
        ensures
            old(self).makes(*old(local), input, out@, *final(self), *final(local)),
            final(self).ready(),
            forall|i: int| 0 <= i < out@.len() ==> (#[trigger] out@[i]).wf(),
            all_rows(rows_of_batches(out@)) == old(self).output(input.rows()),
            forall|rows: Seq<(i32, u64, Seq<u64>)>|
                #[trigger] final(self).output(rows) == old(self).output(rows),
            forall|rows: Seq<(i32, u64, Seq<u64>)>|
                #[trigger] old(self).has_seen(rows) ==> final(self).has_seen(rows + input.rows()),
            final(self).continues(*old(self)),
    ;
}

/// A source, a deferred second source and the sink that both feed: the first
/// source is drained into the sink, then the second one.
pub struct StagedPipeline<'a, S: Source, U: Source, K: Sink> {
    pub primary: &'a mut S,
    pub secondary: &'a mut U,
    pub sink: &'a mut K,
    pub num_threads: usize,
}

/// Whether every batch is well formed.
pub open spec fn batches_wf(batches: Seq<Batch>) -> bool {
    forall|i: int| 0 <= i < batches.len() ==> (#[trigger] batches[i]).wf()
}

/// What worker `w` of `n` gets when items are handed out by turns.
pub open spec fn hand<T>(items: Seq<T>, n: nat, w: int) -> Seq<T>
    decreases items.len(),
{
    if items.len() == 0 {
        Seq::empty()
    } else {
        let before = hand(items.drop_last(), n, w);
        if (items.len() - 1) % n as int == w {
            before.push(items.last())
        } else {
            before
        }
    }
}

/// What each of `n` workers gets when items are handed out by turns.
pub open spec fn hands<T>(items: Seq<T>, n: nat) -> Seq<Seq<T>> {
    Seq::new(n, |w: int| hand(items, n, w))
}

/// The rows of each worker.
pub open spec fn rows_of_hands(hands: Seq<Seq<Seq<(i32, u64, Seq<u64>)>>>) -> Seq<
    Seq<(i32, u64, Seq<u64>)>,
> {
    hands.map_values(|h: Seq<Seq<(i32, u64, Seq<u64>)>>| all_rows(h))
}

/// The rows of the batches that `n` workers get by turns, one worker after the
/// other.
pub open spec fn dealt(batches: Seq<Seq<(i32, u64, Seq<u64>)>>, n: nat) -> Seq<
    (i32, u64, Seq<u64>),
> {
    all_rows(rows_of_hands(hands(batches, n)))
}

/// Handing out by turns gives item `i` to worker `i % n`, as the item number `i / n`
/// of its hand.
pub proof fn law_handed_out<T>(items: Seq<T>, n: nat, i: int)
    requires
        0 < n,
        0 <= i < items.len(),
    ensures
        0 <= i / (n as int) < hand(items, n, i % (n as int)).len(),
        hand(items, n, i % (n as int))[i / (n as int)] == items[i],
    decreases items.len(),
{
    let m = n as int;
    let w = i % m;
    let prev = items.drop_last();
    let last = items.len() - 1;
    vstd::arithmetic::div_mod::lemma_mod_bound(i, m);
    vstd::arithmetic::div_mod::lemma_div_pos_is_pos(i, m);
    if i < last {
        law_handed_out(prev, n, i);
    } else {
        lemma_hand_len(prev, n, w);
    }
}

/// A worker gets what is handed out in its turns and nothing else: item number `j`
/// of the hand of worker `w` is item `j * n + w`.
pub proof fn law_hand<T>(items: Seq<T>, n: nat, w: int, j: int)
    requires
        0 <= w < n,
        0 <= j < hand(items, n, w).len(),
    ensures
        0 <= j * n + w < items.len(),
        hand(items, n, w)[j] == items[j * n + w],
    decreases items.len(),
{
    let m = n as int;
    let prev = items.drop_last();
    let last = items.len() - 1;
    assert(j * n >= 0) by (nonlinear_arith)
        requires
            j >= 0,
    ;
    if j < hand(prev, n, w).len() {
        law_hand(prev, n, w, j);
    } else {
        lemma_hand_len(prev, n, w);
        vstd::arithmetic::div_mod::lemma_fundamental_div_mod(last, m);
        assert(m * (last / m) == (last / m) * m) by (nonlinear_arith);
    }
}

/// How many items a worker has got when its turn comes.
proof fn lemma_hand_len<T>(items: Seq<T>, n: nat, w: int)
    requires
        0 <= w < n,
    ensures
        items.len() % n == w ==> hand(items, n, w).len() == items.len() / n,
        hand(items, n, w).len() == (if w < items.len() % n {
            items.len() / n + 1
        } else {
            items.len() / n
        }),
    decreases items.len(),
{
    let m = n as int;
    let len = items.len() as int;
    if len > 0 {
        let last = len - 1;
        let q = last / m;
        let r = last % m;
        lemma_hand_len(items.drop_last(), n, w);
        vstd::arithmetic::div_mod::lemma_fundamental_div_mod(last, m);
        vstd::arithmetic::div_mod::lemma_mod_bound(last, m);
        if r + 1 == m {
            assert(len == (q + 1) * m + 0) by (nonlinear_arith)
                requires
                    len - 1 == m * q + (m - 1),
            ;
            vstd::arithmetic::div_mod::lemma_fundamental_div_mod_converse(len, m, q + 1, 0);
        } else {
            assert(len == q * m + (r + 1)) by (nonlinear_arith)
                requires
                    len - 1 == m * q + r,
            ;
            vstd::arithmetic::div_mod::lemma_fundamental_div_mod_converse(len, m, q, r + 1);
        }
    } else {
        vstd::arithmetic::div_mod::lemma_small_mod(0, n);
        vstd::arithmetic::div_mod::lemma_div_basics(m);
    }
}

/// Handing out one more item adds it to the hand of the worker whose turn it is.
proof fn lemma_hand_push<T>(items: Seq<T>, n: nat, x: T, w: int)
    ensures
        hand(items.push(x), n, w) == (if items.len() % n == w {
            hand(items, n, w).push(x)
        } else {
            hand(items, n, w)
        }),
{
    assert(items.push(x).drop_last() =~= items);
}

/// When the part of one worker grows, the rows of all workers grow by the same rows.
proof fn lemma_part_grows(
    parts: Seq<Seq<(i32, u64, Seq<u64>)>>,
    w: int,
    more: Seq<(i32, u64, Seq<u64>)>,
)
    requires
        0 <= w < parts.len(),
    ensures
        all_rows(parts.update(w, parts[w] + more)).to_multiset() == all_rows(
            parts,
        ).to_multiset().add(more.to_multiset()),
    decreases parts.len(),
{
    let after = parts.update(w, parts[w] + more);
    let prev = parts.drop_last();
    let last = parts.last();
    vstd::seq_lib::lemma_multiset_commutative(all_rows(prev), last);
    if w == parts.len() - 1 {
        assert(after.drop_last() =~= prev);
        vstd::seq_lib::lemma_multiset_commutative(all_rows(prev), last + more);
        vstd::seq_lib::lemma_multiset_commutative(last, more);
        assert(all_rows(after).to_multiset() =~= all_rows(parts).to_multiset().add(
            more.to_multiset(),
        ));
    } else {
        lemma_part_grows(prev, w, more);
        assert(after.drop_last() =~= prev.update(w, prev[w] + more));
        vstd::seq_lib::lemma_multiset_commutative(all_rows(after.drop_last()), last);
        assert(all_rows(after).to_multiset() =~= all_rows(parts).to_multiset().add(
            more.to_multiset(),
        ));
    }
}

/// Whatever the number of workers, every row of every batch reaches one of them,
/// once.
pub proof fn law_dealt_complete(batches: Seq<Seq<(i32, u64, Seq<u64>)>>, n: nat)
    requires
        n > 0,
    ensures
        dealt(batches, n).to_multiset() == all_rows(batches).to_multiset(),
    decreases batches.len(),
{
    let parts = rows_of_hands(hands(batches, n));
    if batches.len() == 0 {
        assert forall|w: int| 0 <= w < n implies #[trigger] parts[w] =~= Seq::empty() by {}
        lemma_nothing(parts);
        assert(dealt(batches, n) =~= all_rows(batches));
    } else {
        let prev = batches.drop_last();
        let last = batches.last();
        let before = rows_of_hands(hands(prev, n));
        let w = (batches.len() - 1) % n as int;
        vstd::arithmetic::div_mod::lemma_mod_bound(batches.len() - 1, n as int);
        law_dealt_complete(prev, n);
        lemma_part_grows(before, w, last);
        assert forall|v: int| 0 <= v < n implies #[trigger] parts[v] == before.update(
            w,
            before[w] + last,
        )[v] by {
            if v == w {
                let h = hand(prev, n, w);
                assert(h.push(last).drop_last() =~= h);
            }
        }
        assert(parts =~= before.update(w, before[w] + last));
        vstd::seq_lib::lemma_multiset_commutative(all_rows(prev), last);
    }
}

proof fn lemma_nothing(parts: Seq<Seq<(i32, u64, Seq<u64>)>>)
    requires
        forall|w: int|
            0 <= w < parts.len() ==> #[trigger] parts[w] == Seq::<(i32, u64, Seq<u64>)>::empty(),
    ensures
        all_rows(parts) == Seq::<(i32, u64, Seq<u64>)>::empty(),
    decreases parts.len(),
{
    if parts.len() > 0 {
        lemma_nothing(parts.drop_last());
        assert(parts[parts.len() - 1] == Seq::<(i32, u64, Seq<u64>)>::empty());
        assert(all_rows(parts) =~= Seq::empty());
    }
}

/// The replies to workers that ask for `batches` by turns until each of `n` workers
/// has been told that nothing is left.
pub open spec fn replies(batches: Seq<Batch>, n: nat) -> Seq<Option<Batch>> {
    Seq::new(
        batches.len() + n,
        |i: int|
            if i < batches.len() {
                Some(batches[i])
            } else {
                None
            },
    )
}

/// The last turn of worker `w` of `n` when there are `count` batches.
pub open spec fn last_turn(count: nat, n: nat, w: int) -> int {
    count + (w - count) % (n as int)
}

/// Every worker is told that nothing is left exactly once, in its last turn, and every
/// turn `i` that it has before gives it the next batch of its hand.
pub proof fn law_told_once(batches: Seq<Batch>, n: nat, w: int, i: int)
    requires
        0 <= w < n,
        0 <= i < batches.len() + n,
        i % (n as int) == w,
    ensures
        batches.len() <= last_turn(batches.len(), n, w) < batches.len() + n,
        last_turn(batches.len(), n, w) % (n as int) == w,
        replies(batches, n)[last_turn(batches.len(), n, w)] == None::<Batch>,
        i <= last_turn(batches.len(), n, w),
        i < last_turn(batches.len(), n, w) ==> i / (n as int) < hand(batches, n, w).len()
            && replies(batches, n)[i] == Some(hand(batches, n, w)[i / (n as int)]),
{
    let m = n as int;
    let len = batches.len() as int;
    let last = last_turn(batches.len(), n, w);
    let d = (w - len) % m;
    let q = (w - len) / m;
    vstd::arithmetic::div_mod::lemma_fundamental_div_mod(w - len, m);
    vstd::arithmetic::div_mod::lemma_mod_bound(w - len, m);
    let k = -q;
    assert(last == k * m + w) by (nonlinear_arith)
        requires
            last == len + d,
            w - len == m * q + d,
            k == -q,
    ;
    vstd::arithmetic::div_mod::lemma_fundamental_div_mod_converse(last, m, k, w);
    vstd::arithmetic::div_mod::lemma_fundamental_div_mod(i, m);
    let e = i / m;
    assert(i == last || i <= last - m) by (nonlinear_arith)
        requires
            i == m * e + w,
            last == k * m + w,
            i < len + m,
            len <= last,
            m > 0,
    ;
    if i < last {
        law_handed_out(batches, n, i);
    }
}

/// Whether the source `start` becomes `end` when workers ask it for batches by
/// turns, each with a local state of its own, and these are the replies. The local
/// states are `fresh` at first and `locals` in the end.
pub open spec fn pulled_by_turns<S: Source>(
    start: S,
    fresh: Seq<S::Local>,
    replies: Seq<Option<Batch>>,
    end: S,
    locals: Seq<S::Local>,
) -> bool
    decreases replies.len(),
{
    if replies.len() == 0 {
        end == start && locals == fresh
    } else {
        let w = (replies.len() - 1) % fresh.len() as int;
        exists|before: S, local: S::Local|
            {
                &&& #[trigger] before.gives(local, replies.last(), end, locals[w])
                &&& pulled_by_turns(
                    start,
                    fresh,
                    replies.drop_last(),
                    before,
                    locals.update(w, local),
                )
            }
    }
}

/// Whether `n` workers drain the source `start` of `batches`, and it becomes `end`:
/// they ask by turns, each with a local state of its own, until each has been told
/// that nothing is left.
pub open spec fn drained<S: Source>(start: S, end: S, batches: Seq<Batch>, n: nat) -> bool {
    exists|fresh: Seq<S::Local>, locals: Seq<S::Local>|
        {
            &&& #[trigger] pulled_by_turns(start, fresh, replies(batches, n), end, locals)
            &&& fresh.len() == n
            &&& forall|w: int|
                0 <= w < n ==> call_ensures(
                    <S::Local as Default>::default,
                    (),
                    #[trigger] fresh[w],
                )
        }
}

/// Whether the operator `start` becomes `end` when workers hand batches to it by
/// turns, each with a local state of its own, and it makes `outs` of them. The local
/// states are `fresh` at first and `locals` in the end.
pub open spec fn made_by_turns<O: Operator>(
    start: O,
    fresh: Seq<O::Local>,
    batches: Seq<Batch>,
    outs: Seq<Seq<Batch>>,
    end: O,
    locals: Seq<O::Local>,
) -> bool
    decreases batches.len(),
{
    if batches.len() == 0 {
        end == start && locals == fresh && outs.len() == 0
    } else {
        let w = (batches.len() - 1) % fresh.len() as int;
        exists|before: O, local: O::Local|
            {
                &&& #[trigger] before.makes(local, batches.last(), outs.last(), end, locals[w])
                &&& outs.len() == batches.len()
                &&& made_by_turns(
                    start,
                    fresh,
                    batches.drop_last(),
                    outs.drop_last(),
                    before,
                    locals.update(w, local),
                )
            }
    }
}

/// Whether `n` workers hand `batches` to the operator `start` by turns, each with a
/// local state of its own, and it becomes `end` and makes `outs` of them.
pub open spec fn put_through<O: Operator>(
    start: O,
    end: O,
    batches: Seq<Batch>,
    outs: Seq<Seq<Batch>>,
    n: nat,
) -> bool {
    exists|fresh: Seq<O::Local>, locals: Seq<O::Local>|
        {
            &&& #[trigger] made_by_turns(start, fresh, batches, outs, end, locals)
            &&& fresh.len() == n
            &&& forall|w: int|
                0 <= w < n ==> call_ensures(
                    <O::Local as Default>::default,
                    (),
                    #[trigger] fresh[w],
                )
        }
}

/// Whether a fresh local state that takes in `batches`, one after the other, becomes
/// `local`.
pub open spec fn sunk<K: Sink>(sink: K, batches: Seq<Batch>, local: K::Local) -> bool
    decreases batches.len(),
{
    if batches.len() == 0 {
        call_ensures(<K::Local as Default>::default, (), local)
    } else {
        exists|before: K::Local|
            {
                &&& #[trigger] sink.takes(before, batches.last(), local)
                &&& sunk(sink, batches.drop_last(), before)
            }
    }
}

/// Whether the sink `before` becomes `after` when the local states of some workers
/// are combined into it, one after the other: one local state for each of `hands`,
/// which has taken in these batches.
pub open spec fn workers_combined<K: Sink>(before: K, after: K, hands: Seq<Seq<Batch>>) -> bool
    decreases hands.len(),
{
    if hands.len() == 0 {
        after == before
    } else {
        exists|between: K, local: K::Local|
            {
                &&& #[trigger] after.combined(between, local)
                &&& sunk(before, hands.last(), local)
                &&& workers_combined(before, between, hands.drop_last())
            }
    }
}

/// A local state that takes in the batches of a worker.
fn sink_hand<K: Sink>(sink: &K, batches: Vec<Batch>) -> (local: K::Local)
    requires
        batches_wf(batches@),
        sink.can_take(all_rows(rows_of_batches(batches@))),
    ensures
        sink.local_has(local, all_rows(rows_of_batches(batches@))),
        sunk(*sink, batches@, local),
{
    let ghost all = batches@;
    let ghost rows = rows_of_batches(all);
    let mut local: K::Local = K::Local::default();
    proof {
        sink.fresh_local(local);
        assert(rows.take(0) =~= Seq::empty());
        assert(all.take(0) =~= Seq::empty());
    }
    for batch in it: batches
        invariant
            it.seq() == all,
            rows == rows_of_batches(all),
            batches_wf(all),
            sink.can_take(all_rows(rows)),
            sink.local_has(local, all_rows(rows.take(it.index() as int))),
            sunk(*sink, all.take(it.index() as int), local),
    {
        let ghost i = it.index() as int;
        let ghost before = local;
        proof {
            assert(batch == all[i]);
            let done = all_rows(rows.take(i));
            assert(rows.take(i + 1).drop_last() =~= rows.take(i));
            assert(all.take(i + 1).drop_last() =~= all.take(i));
            assert(rows =~= rows.take(i + 1) + rows.skip(i + 1));
            lemma_all_rows_concat(rows.take(i + 1), rows.skip(i + 1));
            let rest = all_rows(rows.skip(i + 1));
            assert(Seq::empty() + (done + batch.rows()) + rest =~= all_rows(rows));
            sink.takes_parts(Seq::empty(), done + batch.rows(), rest);
        }
        sink.sink(batch, &mut local);
        proof {
            assert(all.take(i + 1).last() == batch);
            assert(sink.takes(before, all.take(i + 1).last(), local));
        }
    }
    proof {
        assert(all.take(all.len() as int) =~= all);
        assert(rows.take(all.len() as int) =~= rows);
    }
    local
}

/// The batches of each worker.
spec fn hands_of(hands: Seq<Vec<Batch>>) -> Seq<Seq<Batch>> {
    hands.map_values(|h: Vec<Batch>| h@)
}

/// The rows of each worker.
spec fn parts_of(hands: Seq<Vec<Batch>>) -> Seq<Seq<(i32, u64, Seq<u64>)>> {
    hands.map_values(|h: Vec<Batch>| all_rows(rows_of_batches(h@)))
}

/// A sink that can take in the rows of all workers can take in those of one, behind
/// those of the workers before it.
proof fn lemma_part_taken<K: Sink>(
    sink: K,
    before: Seq<(i32, u64, Seq<u64>)>,
    parts: Seq<Seq<(i32, u64, Seq<u64>)>>,
    w: int,
)
    requires
        sink.can_take(before + all_rows(parts)),
        0 <= w < parts.len(),
    ensures
        sink.can_take(parts[w]),
        sink.can_take(before + all_rows(parts.take(w)) + parts[w]),
{
    assert(parts =~= parts.take(w + 1) + parts.skip(w + 1));
    lemma_all_rows_concat(parts.take(w + 1), parts.skip(w + 1));
    assert(parts.take(w + 1).drop_last() =~= parts.take(w));
    let a = before + all_rows(parts.take(w));
    let rest = all_rows(parts.skip(w + 1));
    assert(before + all_rows(parts) =~= a + parts[w] + rest);
    sink.takes_parts(a, parts[w], rest);
}

/// The workers sink their batches, in parallel, and are combined into the sink.
fn sink_hands<K: Sink>(sink: &mut K, hands: Vec<Vec<Batch>>)
    requires
        forall|w: int| 0 <= w < hands@.len() ==> batches_wf((#[trigger] hands@[w])@),
        exists|before: Seq<(i32, u64, Seq<u64>)>|
            #[trigger] old(sink).has(before) && old(sink).can_take(
                before + all_rows(parts_of(hands@)),
            ),
    ensures
        forall|before: Seq<(i32, u64, Seq<u64>)>|
            #[trigger] old(sink).has(before) ==> final(sink).has(
                before + all_rows(parts_of(hands@)),
            ),
        forall|r: Seq<(i32, u64, Seq<u64>)>|
            #[trigger] old(sink).can_take(r) ==> final(sink).can_take(r),
        final(sink).continues(*old(sink)),
        workers_combined(*old(sink), *final(sink), hands_of(hands@)),
{
    let ghost start = *sink;
    let ghost given = hands_of(hands@);
    let ghost parts = parts_of(hands@);
    let ghost total = all_rows(parts);
    let ghost first = choose|before: Seq<(i32, u64, Seq<u64>)>|
        #[trigger] old(sink).has(before) && old(sink).can_take(before + total);
    proof {
        assert forall|w: int| 0 <= w < hands@.len() implies sink.can_take(
            all_rows(rows_of_batches((#[trigger] hands@[w])@)),
        ) by {
            lemma_part_taken(*sink, first, parts, w);
        }
    }
    let ghost stacks = hands@;
    let locals: Vec<K::Local> = {
        let shared: &K = &*sink;
        let work = |g: Vec<Batch>| -> (l: K::Local)
            requires
                batches_wf(g@),
                shared.can_take(all_rows(rows_of_batches(g@))),
            ensures
                shared.local_has(l, all_rows(rows_of_batches(g@))),
                sunk(*shared, g@, l),
            { sink_hand(shared, g) };
        par_map(hands, work)
    };
    let ghost sinkers = locals@;
    proof {
        sink.continues_itself();
        assert(parts.take(0) =~= Seq::empty());
        assert(given.take(0) =~= Seq::empty());
        assert forall|w: int| 0 <= w < parts.len() implies start.local_has(
            #[trigger] sinkers[w],
            parts[w],
        ) && sunk(start, given[w], sinkers[w]) by {
            assert(stacks[w]@ == given[w]);
        }
        assert forall|b: Seq<(i32, u64, Seq<u64>)>| #[trigger] start.has(b) implies sink.has(
            b + all_rows(parts.take(0)),
        ) by {
            assert(b + all_rows(parts.take(0)) =~= b);
        }
    }
    for local in it: locals
        invariant
            it.seq() == sinkers,
            sinkers.len() == parts.len(),
            given.len() == parts.len(),
            total == all_rows(parts),
            forall|w: int|
                0 <= w < parts.len() ==> sink.local_has(#[trigger] sinkers[w], parts[w]) && sunk(
                    start,
                    given[w],
                    sinkers[w],
                ),
            start.has(first),
            sink.can_take(first + total),
            forall|b: Seq<(i32, u64, Seq<u64>)>|
                #[trigger] start.has(b) ==> sink.has(b + all_rows(parts.take(it.index() as int))),
            forall|r: Seq<(i32, u64, Seq<u64>)>|
                #[trigger] start.can_take(r) ==> sink.can_take(r),
            sink.continues(start),
            workers_combined(start, *sink, given.take(it.index() as int)),
    {
        let ghost w = it.index() as int;
        let ghost mid = *sink;
        let ghost done = all_rows(parts.take(w));
        proof {
            assert(local == sinkers[w]);
            lemma_part_taken(mid, first, parts, w);
            assert(mid.has(first + done));
            assert(parts.take(w + 1).drop_last() =~= parts.take(w));
            assert(given.take(w + 1).drop_last() =~= given.take(w));
        }
        sink.combine(local);
        proof {
            sink.continues_on(mid, start);
            assert forall|b: Seq<(i32, u64, Seq<u64>)>| #[trigger] start.has(b) implies sink.has(
                b + all_rows(parts.take(w + 1)),
            ) by {
                assert(mid.has(b + done));
                assert(b + all_rows(parts.take(w + 1)) =~= (b + done) + parts[w]);
            }
            assert(given.take(w + 1).last() == given[w]);
            assert(sink.combined(mid, local));
            assert(workers_combined(start, *sink, given.take(w + 1)));
        }
    }
    proof {
        assert(parts.take(parts.len() as int) =~= parts);
        assert(given.take(given.len() as int) =~= given);
    }
}

/// The worker whose turn is next.
fn next_worker(worker: usize, num_threads: usize, Ghost(turns): Ghost<int>) -> (next: usize)
    requires
        worker < num_threads,
        worker == turns % num_threads as int,
    ensures
        next < num_threads,
        next == (turns + 1) % num_threads as int,
{
    let next: usize = if worker + 1 == num_threads {
        0
    } else {
        worker + 1
    };
    proof {
        let n = num_threads as int;
        let q = turns / n;
        vstd::arithmetic::div_mod::lemma_fundamental_div_mod(turns, n);
        if worker + 1 == num_threads {
            assert(turns + 1 == (q + 1) * n + 0) by (nonlinear_arith)
                requires
                    turns == n * q + (n - 1),
            ;
            vstd::arithmetic::div_mod::lemma_fundamental_div_mod_converse(turns + 1, n, q + 1, 0);
        } else {
            assert(turns + 1 == q * n + (worker + 1)) by (nonlinear_arith)
                requires
                    turns == n * q + worker,
            ;
            vstd::arithmetic::div_mod::lemma_fundamental_div_mod_converse(
                turns + 1,
                n,
                q,
                worker + 1,
            );
        }
    }
    next
}

/// Fresh local states, one for each of `n` workers.
fn fresh_locals<L: Default>(n: usize) -> (locals: Vec<L>)
    ensures
        locals@.len() == n,
        forall|w: int|
            0 <= w < n ==> call_ensures(<L as Default>::default, (), #[trigger] locals@[w]),
{
    let mut locals: Vec<L> = Vec::new();
    while locals.len() < n
        invariant
            locals@.len() <= n,
            forall|w: int|
                0 <= w < locals@.len() ==> call_ensures(
                    <L as Default>::default,
                    (),
                    #[trigger] locals@[w],
                ),
        decreases n - locals@.len(),
    {
        locals.push(L::default());
    }
    locals
}

/// No batches yet for each of `n` workers.
fn empty_hands(n: usize) -> (hands: Vec<Vec<Batch>>)
    ensures
        hands@.len() == n,
        forall|w: int| 0 <= w < n ==> (#[trigger] hands@[w])@ == Seq::<Batch>::empty(),
{
    let mut hands: Vec<Vec<Batch>> = Vec::new();
    while hands.len() < n
        invariant
            hands@.len() <= n,
            forall|w: int|
                0 <= w < hands@.len() ==> (#[trigger] hands@[w])@ == Seq::<Batch>::empty(),
        decreases n - hands@.len(),
    {
        hands.push(Vec::new());
    }
    hands
}

/// The workers pull batches by turns until each has been told that nothing is left.
/// Gives the batches of each worker, and which batches they are in all.
fn pull_by_turns<S: Source>(source: &mut S, num_threads: usize) -> (out: (
    Vec<Vec<Batch>>,
    Ghost<Seq<Batch>>,
))
    requires
        num_threads > 0,
        old(source).ready(),
    ensures
        final(source).ready(),
        final(source).remaining().len() == 0,
        batches_wf(out.1@),
        rows_of_batches(out.1@) == old(source).remaining(),
        drained(*old(source), *final(source), out.1@, num_threads as nat),
        hands_of(out.0@) == hands(out.1@, num_threads as nat),
{
    let ghost n = num_threads as nat;
    let ghost start = *source;
    let ghost all = source.remaining();
    let mut locals: Vec<S::Local> = fresh_locals(num_threads);
    let mut given: Vec<Vec<Batch>> = empty_hands(num_threads);
    let ghost fresh = locals@;
    let ghost mut batches: Seq<Batch> = Seq::empty();
    let mut worker: usize = 0;
    let mut ended: usize = 0;
    proof {
        assert(rows_of_batches(batches) + source.remaining() =~= all);
        assert(replies(batches, 0) =~= Seq::empty());
    }
    while ended < num_threads
        invariant
            n == num_threads,
            0 < num_threads,
            ended <= num_threads,
            worker < num_threads,
            worker == (batches.len() + ended) % n as int,
            source.ready(),
            batches_wf(batches),
            rows_of_batches(batches) + source.remaining() == all,
            ended > 0 ==> source.remaining().len() == 0,
            locals@.len() == n,
            fresh.len() == n,
            pulled_by_turns(start, fresh, replies(batches, ended as nat), *source, locals@),
            given@.len() == n,
            forall|w: int| 0 <= w < n ==> (#[trigger] given@[w])@ == hand(batches, n, w),
        decreases source.remaining().len() + (num_threads - ended),
    {
        let ghost left = source.remaining();
        let ghost before = *source;
        let ghost locals0 = locals@;
        let ghost told = replies(batches, ended as nat);
        let ghost turns: int = batches.len() + ended;
        let reply: Option<Batch> = source.get_data(&mut locals[worker]);
        proof {
            let more = told.push(reply);
            assert(more.drop_last() =~= told);
            assert(locals@.update(worker as int, locals0[worker as int]) =~= locals0);
            assert(before.gives(
                locals0[worker as int],
                more.last(),
                *source,
                locals@[worker as int],
            ));
            assert(pulled_by_turns(start, fresh, more, *source, locals@));
        }
        match reply {
            Some(batch) => {
                let ghost pulled = batches;
                proof {
                    batches = batches.push(batch);
                    assert(replies(batches, 0) =~= told.push(Some(batch)));
                    assert(rows_of_batches(batches) =~= rows_of_batches(pulled).push(left[0]));
                    assert(rows_of_batches(batches) + source.remaining() =~= all);
                    assert forall|w: int| 0 <= w < n implies #[trigger] hand(batches, n, w) == (if w
                        == worker {
                        hand(pulled, n, w).push(batch)
                    } else {
                        hand(pulled, n, w)
                    }) by {
                        lemma_hand_push(pulled, n, batch, w);
                    }
                }
                given[worker].push(batch);
            },
            None => {
                proof {
                    assert(replies(batches, (ended + 1) as nat) =~= told.push(None));
                    assert(source.remaining() =~= left);
                }
                ended += 1;
            },
        }
        worker = next_worker(worker, num_threads, Ghost(turns));
    }
    proof {
        assert(rows_of_batches(batches) =~= all);
        assert(hands_of(given@) =~= hands(batches, n));
    }
    (given, Ghost(batches))
}

/// Drains a source into a sink. `num_threads` workers pull batches by turns, each
/// sinks what it has pulled into a local state of its own, and in the end the local
/// states are combined into the sink, one for each worker; without workers nothing
/// happens. Does not finalize the sink: more sources may follow.
pub fn drive_source_to_sink<S: Source, K: Sink>(source: &mut S, sink: &mut K, num_threads: usize)
    requires
        old(source).ready(),
        num_threads > 0 ==> exists|before: Seq<(i32, u64, Seq<u64>)>|
            #[trigger] old(sink).has(before) && old(sink).can_take(
                before + dealt(old(source).remaining(), num_threads as nat),
            ),
    ensures
        num_threads == 0 ==> *final(source) == *old(source) && *final(sink) == *old(sink),
        num_threads > 0 ==> {
            &&& final(source).ready()
            &&& final(source).remaining().len() == 0
            &&& forall|before: Seq<(i32, u64, Seq<u64>)>|
                #[trigger] old(sink).has(before) ==> final(sink).has(
                    before + dealt(old(source).remaining(), num_threads as nat),
                )
            &&& forall|r: Seq<(i32, u64, Seq<u64>)>|
                #[trigger] old(sink).can_take(r) ==> final(sink).can_take(r)
            &&& final(sink).continues(*old(sink))
            &&& exists|batches: Seq<Batch>|
                {
                    &&& #[trigger] drained(
                        *old(source),
                        *final(source),
                        batches,
                        num_threads as nat,
                    )
                    &&& rows_of_batches(batches) == old(source).remaining()
                    &&& workers_combined(
                        *old(sink),
                        *final(sink),
                        hands(batches, num_threads as nat),
                    )
                }
        },
{
    if num_threads == 0 {
        return ;
    }
    let ghost n = num_threads as nat;
    let ghost all = source.remaining();
    let (given, pulled) = pull_by_turns(source, num_threads);
    proof {
        let batches = pulled@;
        let parts = rows_of_hands(hands(all, n));
        assert(hands_of(given@).len() == given@.len());
        assert(hands(batches, n).len() == n);
        assert forall|w: int| 0 <= w < n implies batches_wf((#[trigger] given@[w])@)
            && parts_of(given@)[w] == parts[w] by {
            assert(hands_of(given@)[w] == hands(batches, n)[w]);
            lemma_hand_rows(batches, n, w);
        }
        assert(parts_of(given@) =~= parts);
    }
    sink_hands(sink, given);
}

/// The batches of a worker are well formed, and its rows are those of the batches
/// that it gets.
proof fn lemma_hand_rows(batches: Seq<Batch>, n: nat, w: int)
    requires
        batches_wf(batches),
    ensures
        batches_wf(hand(batches, n, w)),
        rows_of_batches(hand(batches, n, w)) == hand(rows_of_batches(batches), n, w),
    decreases batches.len(),
{
    if batches.len() > 0 {
        let prev = batches.drop_last();
        lemma_hand_rows(prev, n, w);
        assert(rows_of_batches(batches).drop_last() =~= rows_of_batches(prev));
        assert(batches[batches.len() - 1].wf());
    }
    assert(rows_of_batches(hand(batches, n, w)) =~= hand(rows_of_batches(batches), n, w));
}

impl<'a, S: Source, U: Source, K: Sink> StagedPipeline<'a, S, U, K> {
    /// Drains the first source into the sink, then the second one, and finalizes
    /// the sink.
    pub fn run(self)
        requires
            self.num_threads > 0,
            self.primary.ready(),
            self.secondary.ready(),
            exists|before: Seq<(i32, u64, Seq<u64>)>|
                #[trigger] self.sink.has(before) && self.sink.can_take(
                    before + dealt(self.primary.remaining(), self.num_threads as nat) + dealt(
                        self.secondary.remaining(),
                        self.num_threads as nat,
                    ),
                ),
        ensures
            final(self.primary).remaining().len() == 0,
            final(self.secondary).remaining().len() == 0,
            forall|before: Seq<(i32, u64, Seq<u64>)>|
                #[trigger] old(self.sink).has(before) ==> final(self.sink).finished(
                    before + dealt(old(self.primary).remaining(), self.num_threads as nat) + dealt(
                        old(self.secondary).remaining(),
                        self.num_threads as nat,
                    ),
                ),
            final(self.sink).continues(*old(self.sink)),
    {
        let ghost start = *self.sink;
        let ghost a = dealt(self.primary.remaining(), self.num_threads as nat);
        let ghost b = dealt(self.secondary.remaining(), self.num_threads as nat);
        let ghost first = choose|before: Seq<(i32, u64, Seq<u64>)>|
            #[trigger] start.has(before) && start.can_take(before + a + b);
        proof {
            start.takes_parts(first, a, b);
        }
        drive_source_to_sink(self.primary, self.sink, self.num_threads);
        let ghost first_done = *self.sink;
        drive_source_to_sink(self.secondary, self.sink, self.num_threads);
        let ghost both_done = *self.sink;
        self.sink.finalize();
        proof {
            both_done.continues_on(first_done, start);
            self.sink.continues_on(both_done, start);
        }
    }
}

/// The rows that come out of an operator for each of some batches.
pub open spec fn outputs<O: Operator>(op: O, batches: Seq<Seq<(i32, u64, Seq<u64>)>>) -> Seq<
    Seq<(i32, u64, Seq<u64>)>,
> {
    batches.map_values(|b: Seq<(i32, u64, Seq<u64>)>| op.output(b))
}

/// The batches that come out, for each of `n` workers, when the workers hand batches
/// over by turns and `outs` is made of them.
pub open spec fn out_hands(outs: Seq<Seq<Batch>>, n: nat) -> Seq<Seq<Batch>> {
    hands(outs, n).map_values(|h: Seq<Seq<Batch>>| h.flatten_alt())
}

/// The workers pull batches by turns until each has been told that nothing is left,
/// and hand what they pull to the operator. Gives the batches that come out for each
/// worker, which batches were pulled in all, and what came out for each.
fn pull_through<S: Source, O: Operator>(source: &mut S, op: &mut O, num_threads: usize) -> (out: (
    Vec<Vec<Batch>>,
    Ghost<Seq<Batch>>,
    Ghost<Seq<Seq<Batch>>>,
))
    requires
        num_threads > 0,
        old(source).ready(),
        old(op).ready(),
    ensures
        final(source).ready(),
        final(source).remaining().len() == 0,
        final(op).ready(),
        rows_of_batches(out.1@) == old(source).remaining(),
        drained(*old(source), *final(source), out.1@, num_threads as nat),
        put_through(*old(op), *final(op), out.1@, out.2@, num_threads as nat),
        hands_of(out.0@) == out_hands(out.2@, num_threads as nat),
        forall|w: int| 0 <= w < out.0@.len() ==> batches_wf((#[trigger] out.0@[w])@),
        parts_of(out.0@) == rows_of_hands(
            hands(outputs(*old(op), old(source).remaining()), num_threads as nat),
        ),
        forall|rows: Seq<(i32, u64, Seq<u64>)>|
            #[trigger] final(op).output(rows) == old(op).output(rows),
        forall|seen: Seq<(i32, u64, Seq<u64>)>|
            #[trigger] old(op).has_seen(seen) ==> final(op).has_seen(
                seen + all_rows(old(source).remaining()),
            ),
        final(op).continues(*old(op)),
{
    let ghost n = num_threads as nat;
    let ghost start = *source;
    let ghost op0 = *op;
    let ghost all = source.remaining();
    let mut locals: Vec<S::Local> = fresh_locals(num_threads);
    let mut op_locals: Vec<O::Local> = fresh_locals(num_threads);
    let mut given: Vec<Vec<Batch>> = empty_hands(num_threads);
    let ghost fresh = locals@;
    let ghost op_fresh = op_locals@;
    let ghost mut batches: Seq<Batch> = Seq::empty();
    let ghost mut outs: Seq<Seq<Batch>> = Seq::empty();
    let mut worker: usize = 0;
    let mut ended: usize = 0;
    proof {
        assert(rows_of_batches(batches) + source.remaining() =~= all);
        assert(replies(batches, 0) =~= Seq::empty());
        op.continues_itself();
        assert forall|seen: Seq<(i32, u64, Seq<u64>)>| #[trigger] op0.has_seen(
            seen,
        ) implies op.has_seen(seen + all_rows(rows_of_batches(batches))) by {
            assert(seen + all_rows(rows_of_batches(batches)) =~= seen);
        }
        assert forall|w: int| 0 <= w < n implies {
            &&& (#[trigger] given@[w])@ == hand(outs, n, w).flatten_alt()
            &&& batches_wf(given@[w]@)
            &&& all_rows(rows_of_batches(given@[w]@)) == all_rows(
                hand(outputs(op0, rows_of_batches(batches)), n, w),
            )
        } by {
            assert(rows_of_batches(given@[w]@) =~= Seq::empty());
            assert(outputs(op0, rows_of_batches(batches)) =~= Seq::empty());
        }
    }
    while ended < num_threads
        invariant
            n == num_threads,
            0 < num_threads,
            ended <= num_threads,
            worker < num_threads,
            worker == (batches.len() + ended) % n as int,
            source.ready(),
            op.ready(),
            rows_of_batches(batches) + source.remaining() == all,
            ended > 0 ==> source.remaining().len() == 0,
            locals@.len() == n,
            fresh.len() == n,
            pulled_by_turns(start, fresh, replies(batches, ended as nat), *source, locals@),
            op_locals@.len() == n,
            op_fresh.len() == n,
            outs.len() == batches.len(),
            made_by_turns(op0, op_fresh, batches, outs, *op, op_locals@),
            given@.len() == n,
            forall|w: int|
                0 <= w < n ==> {
                    &&& (#[trigger] given@[w])@ == hand(outs, n, w).flatten_alt()
                    &&& batches_wf(given@[w]@)
                    &&& all_rows(rows_of_batches(given@[w]@)) == all_rows(
                        hand(outputs(op0, rows_of_batches(batches)), n, w),
                    )
                },
            forall|rows: Seq<(i32, u64, Seq<u64>)>|
                #[trigger] op.output(rows) == op0.output(rows),
            forall|seen: Seq<(i32, u64, Seq<u64>)>|
                #[trigger] op0.has_seen(seen) ==> op.has_seen(
                    seen + all_rows(rows_of_batches(batches)),
                ),
            op.continues(op0),
        decreases source.remaining().len() + (num_threads - ended),
    {
        let ghost left = source.remaining();
        let ghost before = *source;
        let ghost locals0 = locals@;
        let ghost told = replies(batches, ended as nat);
        let ghost turns: int = batches.len() + ended;
        let reply: Option<Batch> = source.get_data(&mut locals[worker]);
        proof {
            let more = told.push(reply);
            assert(more.drop_last() =~= told);
            assert(locals@.update(worker as int, locals0[worker as int]) =~= locals0);
            assert(before.gives(
                locals0[worker as int],
                more.last(),
                *source,
                locals@[worker as int],
            ));
            assert(pulled_by_turns(start, fresh, more, *source, locals@));
        }
        match reply {
            Some(batch) => {
                let ghost pulled = batches;
                let ghost op1 = *op;
                let ghost op_locals0 = op_locals@;
                let ghost given0 = given@;
                let ghost outs0 = outs;
                let ghost rows = batch.rows();
                let mut made: Vec<Batch> = op.execute(batch, &mut op_locals[worker]);
                let ghost out = made@;
                given[worker].append(&mut made);
                proof {
                    batches = batches.push(batch);
                    outs = outs.push(out);
                    assert(replies(batches, 0) =~= told.push(Some(batch)));
                    assert(rows_of_batches(batches) =~= rows_of_batches(pulled).push(left[0]));
                    assert(rows_of_batches(batches) + source.remaining() =~= all);
                    assert(batches.drop_last() =~= pulled);
                    assert(outs.drop_last() =~= outs0);
                    assert(op_locals@.update(worker as int, op_locals0[worker as int])
                        =~= op_locals0);
                    assert(op1.makes(
                        op_locals0[worker as int],
                        batches.last(),
                        outs.last(),
                        *op,
                        op_locals@[worker as int],
                    ));
                    assert(made_by_turns(op0, op_fresh, batches, outs, *op, op_locals@));
                    op.continues_on(op1, op0);
                    lemma_all_rows_push(rows_of_batches(pulled), rows);
                    assert forall|seen: Seq<(i32, u64, Seq<u64>)>| #[trigger] op0.has_seen(
                        seen,
                    ) implies op.has_seen(seen + all_rows(rows_of_batches(batches))) by {
                        let had = all_rows(rows_of_batches(pulled));
                        assert(op1.has_seen(seen + had));
                        assert(seen + all_rows(rows_of_batches(batches)) =~= seen + had + rows);
                    }
                    assert forall|r: Seq<(i32, u64, Seq<u64>)>| #[trigger] op.output(r)
                        == op0.output(r) by {
                        assert(op1.output(r) == op0.output(r));
                    }
                    assert forall|w: int| 0 <= w < n implies {
                        &&& (#[trigger] given@[w])@ == hand(outs, n, w).flatten_alt()
                        &&& batches_wf(given@[w]@)
                        &&& all_rows(rows_of_batches(given@[w]@)) == all_rows(
                            hand(outputs(op0, rows_of_batches(batches)), n, w),
                        )
                    } by {
                        lemma_out_hand(op0, rows_of_batches(pulled), rows, outs0, out, n, w);
                        assert(given0[w]@ == hand(outs0, n, w).flatten_alt());
                        if w == worker {
                            assert(given@[w]@ =~= given0[w]@ + out);
                            lemma_out_rows(given0[w]@, out);
                        }
                    }
                }
            },
            None => {
                proof {
                    assert(replies(batches, (ended + 1) as nat) =~= told.push(None));
                    assert(source.remaining() =~= left);
                }
                ended += 1;
            },
        }
        worker = next_worker(worker, num_threads, Ghost(turns));
    }
    proof {
        assert(rows_of_batches(batches) =~= all);
        assert(hands_of(given@) =~= out_hands(outs, n));
        assert(parts_of(given@) =~= rows_of_hands(hands(outputs(op0, all), n)));
    }
    (given, Ghost(batches), Ghost(outs))
}

proof fn lemma_all_rows_push(
    batches: Seq<Seq<(i32, u64, Seq<u64>)>>,
    more: Seq<(i32, u64, Seq<u64>)>,
)
    ensures
        all_rows(batches.push(more)) == all_rows(batches) + more,
{
    assert(batches.push(more).drop_last() =~= batches);
}

/// The rows of the batches of a worker when more batches come out for it.
proof fn lemma_out_rows(had: Seq<Batch>, out: Seq<Batch>)
    ensures
        all_rows(rows_of_batches(had + out)) == all_rows(rows_of_batches(had)) + all_rows(
            rows_of_batches(out),
        ),
{
    assert(rows_of_batches(had + out) =~= rows_of_batches(had) + rows_of_batches(out));
    lemma_all_rows_concat(rows_of_batches(had), rows_of_batches(out));
}

/// What a worker has when one more batch is handed to an operator.
proof fn lemma_out_hand<O: Operator>(
    op: O,
    batches: Seq<Seq<(i32, u64, Seq<u64>)>>,
    rows: Seq<(i32, u64, Seq<u64>)>,
    outs: Seq<Seq<Batch>>,
    out: Seq<Batch>,
    n: nat,
    w: int,
)
    requires
        outs.len() == batches.len(),
    ensures
        hand(outs.push(out), n, w).flatten_alt() == (if batches.len() % n == w {
            hand(outs, n, w).flatten_alt() + out
        } else {
            hand(outs, n, w).flatten_alt()
        }),
        all_rows(hand(outputs(op, batches.push(rows)), n, w)) == (if batches.len() % n == w {
            all_rows(hand(outputs(op, batches), n, w)) + op.output(rows)
        } else {
            all_rows(hand(outputs(op, batches), n, w))
        }),
{
    lemma_hand_push(outs, n, out, w);
    let made = outputs(op, batches);
    assert(outputs(op, batches.push(rows)) =~= made.push(op.output(rows)));
    lemma_hand_push(made, n, op.output(rows), w);
    lemma_all_rows_push(hand(made, n, w), op.output(rows));
    let h = hand(outs, n, w);
    assert(h.push(out).drop_last() =~= h);
    assert(h.push(out).flatten_alt() =~= h.flatten_alt() + out);
}

/// Drains a source through an operator into a sink. `num_threads` workers pull
/// batches by turns, each hands what it pulls to the operator and sinks what comes
/// out into a local state of its own, and in the end the local states are combined
/// into the sink, one for each worker. Does not finalize the sink.
pub fn drive_source_op_sink<S: Source, O: Operator, K: Sink>(
    source: &mut S,
    op: &mut O,
    sink: &mut K,
    num_threads: usize,
)
    requires
        old(source).ready(),
        old(op).ready(),
        num_threads > 0 ==> exists|before: Seq<(i32, u64, Seq<u64>)>|
            #[trigger] old(sink).has(before) && old(sink).can_take(
                before + dealt(
                    outputs(*old(op), old(source).remaining()),
                    num_threads as nat,
                ),
            ),
    ensures
        num_threads == 0 ==> *final(source) == *old(source) && *final(op) == *old(op)
            && *final(sink) == *old(sink),
        num_threads > 0 ==> {
            &&& final(source).ready()
            &&& final(source).remaining().len() == 0
            &&& final(op).ready()
            &&& forall|rows: Seq<(i32, u64, Seq<u64>)>|
                #[trigger] final(op).output(rows) == old(op).output(rows)
            &&& forall|seen: Seq<(i32, u64, Seq<u64>)>|
                #[trigger] old(op).has_seen(seen) ==> final(op).has_seen(
                    seen + all_rows(old(source).remaining()),
                )
            &&& final(op).continues(*old(op))
            &&& forall|before: Seq<(i32, u64, Seq<u64>)>|
                #[trigger] old(sink).has(before) ==> final(sink).has(
                    before + dealt(
                        outputs(*old(op), old(source).remaining()),
                        num_threads as nat,
                    ),
                )
            &&& forall|r: Seq<(i32, u64, Seq<u64>)>|
                #[trigger] old(sink).can_take(r) ==> final(sink).can_take(r)
            &&& final(sink).continues(*old(sink))
            &&& exists|batches: Seq<Batch>, outs: Seq<Seq<Batch>>|
                {
                    &&& #[trigger] put_through(
                        *old(op),
                        *final(op),
                        batches,
                        outs,
                        num_threads as nat,
                    )
                    &&& drained(*old(source), *final(source), batches, num_threads as nat)
                    &&& rows_of_batches(batches) == old(source).remaining()
                    &&& workers_combined(
                        *old(sink),
                        *final(sink),
                        out_hands(outs, num_threads as nat),
                    )
                }
        },
{
    if num_threads == 0 {
        return ;
    }
    let (given, _, _) = pull_through(source, op, num_threads);
    sink_hands(sink, given);
}

/// Row `i` of a batch has the key, the hash and the addresses that stand at `i`.
pub proof fn law_batch_row(b: Batch, i: int)
    requires
        0 <= i < b.keys@.len(),
    ensures
        b.rows().len() == b.keys@.len(),
        b.rows()[i].0 == b.keys@[i],
        b.rows()[i].1 == b.hashes@[i],
        b.rows()[i].2 == b.ptrs@[i]@,
{
}

/// The rows of several batches are those of one after those of the other.
pub proof fn law_all_rows(
    batches: Seq<Seq<(i32, u64, Seq<u64>)>>,
    more: Seq<Seq<(i32, u64, Seq<u64>)>>,
    batch: Seq<(i32, u64, Seq<u64>)>,
)
    ensures
        all_rows(Seq::<Seq<(i32, u64, Seq<u64>)>>::empty()).len() == 0,
        all_rows(seq![batch]) == batch,
        all_rows(batches + more) == all_rows(batches) + all_rows(more),
{
    let none = Seq::<Seq<(i32, u64, Seq<u64>)>>::empty();
    lemma_all_rows_concat(batches, more);
    assert(seq![batch].drop_last() =~= none);
    assert(all_rows(none) =~= Seq::empty());
    assert(all_rows(seq![batch]) =~= batch);
}

/// The rows of batches, batch by batch; and what an operator makes of them.
pub proof fn law_batch_by_batch<O: Operator>(
    op: O,
    batches: Seq<Batch>,
    rows: Seq<Seq<(i32, u64, Seq<u64>)>>,
    i: int,
)
    ensures
        rows_of_batches(batches).len() == batches.len(),
        0 <= i < batches.len() ==> rows_of_batches(batches)[i] == batches[i].rows(),
        outputs(op, rows).len() == rows.len(),
        0 <= i < rows.len() ==> outputs(op, rows)[i] == op.output(rows[i]),
{
}

/// A source that is drained by `n` workers first gives every batch, in order, and then
/// tells each worker once that there is none left.
pub proof fn law_replies(batches: Seq<Batch>, n: nat, i: int)
    ensures
        replies(batches, n).len() == batches.len() + n,
        0 <= i < batches.len() ==> replies(batches, n)[i] == Some(batches[i]),
        batches.len() <= i < batches.len() + n ==> replies(batches, n)[i] is None,
{
}

/// Each of `n` workers has its hand.
pub proof fn law_hands<T>(items: Seq<T>, n: nat, w: int)
    requires
        0 <= w < n,
    ensures
        hands(items, n).len() == n,
        hands(items, n)[w] == hand(items, n, w),
{
}

/// A local state that has sunk batches began fresh and took them in one after the other.
pub proof fn law_sunk<K: Sink>(sink: K, batches: Seq<Batch>, batch: Batch, local: K::Local)
    ensures
        sunk(sink, Seq::<Batch>::empty(), local) <==> call_ensures(
            <K::Local as Default>::default,
            (),
            local,
        ),
        sunk(sink, batches.push(batch), local) <==> exists|before: K::Local|
            #[trigger] sink.takes(before, batch, local) && sunk(sink, batches, before),
{
    let all = batches.push(batch);
    assert(all.drop_last() =~= batches);
    if sunk(sink, all, local) {
        let before = choose|before: K::Local|
            #[trigger] sink.takes(before, all.last(), local) && sunk(sink, all.drop_last(), before);
        assert(sink.takes(before, batch, local));
    }
    if exists|before: K::Local|
        #[trigger] sink.takes(before, batch, local) && sunk(sink, batches, before) {
        let before = choose|before: K::Local|
            #[trigger] sink.takes(before, batch, local) && sunk(sink, batches, before);
        assert(sink.takes(before, all.last(), local) && sunk(sink, all.drop_last(), before));
    }
}

/// Workers are combined into a sink one after the other, each with a local state that has
/// sunk what was in its hand.
pub proof fn law_workers_combined<K: Sink>(
    before: K,
    after: K,
    hands: Seq<Seq<Batch>>,
    hand: Seq<Batch>,
)
    ensures
        workers_combined(before, after, Seq::<Seq<Batch>>::empty()) <==> after == before,
        workers_combined(before, after, hands.push(hand)) <==> exists|between: K, local: K::Local|
            #[trigger] after.combined(between, local) && sunk(before, hand, local)
                && workers_combined(before, between, hands),
{
    assert(hands.push(hand).drop_last() =~= hands);
}

} // verus!
