//! A chain of full outer joins run by the pipeline framework.
//!
//! The first table is scanned into the build side of the first join. Every further
//! table is scanned through the probe side of the join before it. What comes out,
//! and behind it the build rows that were not matched, goes into the build side of
//! the next join, and in the end into a checksum sink.

use crate::chain;
use crate::checksum;
use crate::hash;
use crate::hash_join;
use crate::hash_join::{build_side_fits, HashJoinOp, ProbeOperator, UnmatchedSource};
use crate::ht::JoinHashTable;
use crate::io::TableData;
use crate::permute;
use crate::pipeline;
use crate::pipeline::{drive_source_op_sink, drive_source_to_sink, Operator, Sink, Source};
use crate::probe;
use crate::row_chain;
use crate::row_chain::SLOTS;
use crate::scan;
use crate::scan::{ChecksumSinkOp, ParquetScanSource};
use crate::select;
use crate::sink;
use std::sync::Arc;
use vstd::prelude::*;

verus! {

/// What a probe row becomes when it meets the rows `build`: one row for each of
/// them that has its key, the last one first, with the addresses of both; or the
/// probe row itself if there is none.
pub open spec fn met(build: Seq<(i32, u64, Seq<u64>)>, p: (i32, u64, Seq<u64>)) -> Seq<
    (i32, u64, Seq<u64>),
> {
    let at = select::places(hash_join::keys_of(build), p.0).reverse();
    if at.len() == 0 {
        seq![p]
    } else {
        at.map_values(|r: int| (p.0, p.1, hash_join::merged(build[r].2, p.2)))
    }
}

/// What some probe rows become, one after the other.
pub open spec fn all_met(
    build: Seq<(i32, u64, Seq<u64>)>,
    probes: Seq<(i32, u64, Seq<u64>)>,
) -> Seq<(i32, u64, Seq<u64>)>
    decreases probes.len(),
{
    if probes.len() == 0 {
        Seq::empty()
    } else {
        all_met(build, probes.drop_last()) + met(build, probes.last())
    }
}

/// The rows of `build` whose key no probe row has.
pub open spec fn left_over(
    build: Seq<(i32, u64, Seq<u64>)>,
    probes: Seq<(i32, u64, Seq<u64>)>,
) -> Seq<(i32, u64, Seq<u64>)> {
    select::select(
        0,
        build.len() as int,
        probe::not_in(hash_join::keys_of(build), hash_join::keys_of(probes)),
    ).map_values(|r: int| build[r])
}

/// The full outer join of `build` and the probe rows.
pub open spec fn full_outer(
    build: Seq<(i32, u64, Seq<u64>)>,
    probes: Seq<(i32, u64, Seq<u64>)>,
) -> Seq<(i32, u64, Seq<u64>)> {
    all_met(build, probes) + left_over(build, probes)
}

/// The rows that come out of the chain over the first `n` tables.
pub open spec fn operator_rows(tables: Seq<TableData>, n: nat) -> Seq<(i32, u64, Seq<u64>)>
    decreases n,
{
    if n <= 1 {
        scan::table_scan(&tables[0], 0)
    } else {
        full_outer(
            operator_rows(tables, (n - 1) as nat),
            scan::table_scan(&tables[n - 1], n - 1),
        )
    }
}

/// Among rows that hold the hashes of their keys, a hash join finds the rows with
/// the key of a probe.
proof fn lemma_join_output(
    j: HashJoinOp,
    probes: Seq<(i32, u64, Seq<u64>)>,
)
    requires
        j.joinable(),
        hash_join::rows_hashed(j.rows()),
        hash_join::rows_hashed(probes),
    ensures
        j.all_joined(probes) == all_met(j.rows(), probes),
    decreases probes.len(),
{
    if probes.len() > 0 {
        let prev = probes.drop_last();
        let p = probes.last();
        assert(probes[probes.len() - 1] == p);
        assert forall|i: int| 0 <= i < prev.len() implies (#[trigger] prev[i]).1 == hash::key_hash(
            prev[i].0,
        ) by {
            assert(probes[i].1 == hash::key_hash(probes[i].0));
        }
        lemma_join_output(j, prev);
        hash_join::law_join_lookup(j, p.0);
        assert(j.joined(p) =~= met(j.rows(), p));
    }
}

/// The build rows that a hash join has not marked are those whose key no probe row
/// has.
proof fn lemma_join_rest(j: HashJoinOp, probes: Seq<(i32, u64, Seq<u64>)>)
    requires
        j.joinable(),
        hash_join::rows_hashed(j.rows()),
        hash_join::rows_hashed(probes),
        j.has_marked(probes),
    ensures
        j.unmatched(0, j.rows().len() as int) == left_over(j.rows(), probes),
{
    let n = j.rows().len() as int;
    hash_join::lemma_unmarked_keys(j, probes);
    let rest = j.unmatched(0, n);
    assert(rest =~= left_over(j.rows(), probes));
}

proof fn lemma_joined_concat(
    j: HashJoinOp,
    a: Seq<(i32, u64, Seq<u64>)>,
    b: Seq<(i32, u64, Seq<u64>)>,
)
    ensures
        j.all_joined(a + b) == j.all_joined(a) + j.all_joined(b),
    decreases b.len(),
{
    if b.len() == 0 {
        assert(a + b =~= a);
        assert(j.all_joined(a) + j.all_joined(b) =~= j.all_joined(a));
    } else {
        lemma_joined_concat(j, a, b.drop_last());
        assert((a + b).drop_last() =~= a + b.drop_last());
        assert(j.all_joined(a + b) =~= j.all_joined(a) + j.all_joined(b));
    }
}

/// What a probe operator puts out for some batches is what comes out for all their
/// rows.
proof fn lemma_batched_output(op: ProbeOperator, batches: Seq<Seq<(i32, u64, Seq<u64>)>>)
    ensures
        pipeline::all_rows(pipeline::outputs(op, batches)) == op.hj.all_joined(
            pipeline::all_rows(batches),
        ),
    decreases batches.len(),
{
    if batches.len() > 0 {
        let prev = batches.drop_last();
        lemma_batched_output(op, prev);
        assert(pipeline::outputs(op, batches).drop_last() =~= pipeline::outputs(op, prev));
        lemma_joined_concat(op.hj, pipeline::all_rows(prev), batches.last());
    }
}

/// The keys and the hashes of what probe rows become are those of the probe rows.
proof fn lemma_met_hashed(build: Seq<(i32, u64, Seq<u64>)>, probes: Seq<(i32, u64, Seq<u64>)>)
    requires
        hash_join::rows_hashed(probes),
    ensures
        hash_join::rows_hashed(all_met(build, probes)),
    decreases probes.len(),
{
    if probes.len() > 0 {
        let prev = probes.drop_last();
        let p = probes.last();
        assert(probes[probes.len() - 1] == p);
        assert forall|i: int| 0 <= i < prev.len() implies (#[trigger] prev[i]).1 == hash::key_hash(
            prev[i].0,
        ) by {
            assert(probes[i].1 == hash::key_hash(probes[i].0));
        }
        lemma_met_hashed(build, prev);
        let out = all_met(build, probes);
        let before = all_met(build, prev);
        assert forall|i: int| 0 <= i < out.len() implies (#[trigger] out[i]).1 == hash::key_hash(
            out[i].0,
        ) by {
            if i < before.len() {
                assert(before[i].1 == hash::key_hash(before[i].0));
            } else {
                assert(met(build, p)[i - before.len()] == out[i]);
            }
        }
    }
}

/// A full outer join of rows that hold the hashes of their keys gives such rows.
proof fn lemma_full_outer_hashed(
    build: Seq<(i32, u64, Seq<u64>)>,
    probes: Seq<(i32, u64, Seq<u64>)>,
)
    requires
        hash_join::rows_hashed(build),
        hash_join::rows_hashed(probes),
    ensures
        hash_join::rows_hashed(full_outer(build, probes)),
{
    lemma_met_hashed(build, probes);
    let at = select::select(
        0,
        build.len() as int,
        probe::not_in(hash_join::keys_of(build), hash_join::keys_of(probes)),
    );
    select::lemma_select(
        0,
        build.len() as int,
        probe::not_in(hash_join::keys_of(build), hash_join::keys_of(probes)),
    );
    let joined = all_met(build, probes);
    let out = full_outer(build, probes);
    assert forall|i: int| 0 <= i < out.len() implies (#[trigger] out[i]).1 == hash::key_hash(
        out[i].0,
    ) by {
        if i < joined.len() {
            assert(joined[i].1 == hash::key_hash(joined[i].0));
        } else {
            let r = at[i - joined.len()];
            assert(build[r].1 == hash::key_hash(build[r].0));
        }
    }
}

/// The rows of a scan hold the hashes of their keys.
proof fn lemma_scan_hashed(t: &TableData, slot: int)
    requires
        t.wf(),
    ensures
        hash_join::rows_hashed(scan::table_scan(t, slot)),
{
    let rows = scan::table_scan(t, slot);
    assert forall|i: int| 0 <= i < rows.len() implies (#[trigger] rows[i]).1 == hash::key_hash(
        rows[i].0,
    ) by {}
}

proof fn lemma_chain_hashed(tables: Seq<TableData>, n: nat)
    requires
        1 <= n <= tables.len(),
        forall|t: int| 0 <= t < n ==> (#[trigger] tables[t]).wf(),
    ensures
        hash_join::rows_hashed(operator_rows(tables, n)),
    decreases n,
{
    assert(tables[n - 1].wf());
    lemma_scan_hashed(&tables[n - 1], n - 1);
    if n > 1 {
        lemma_chain_hashed(tables, (n - 1) as nat);
        lemma_full_outer_hashed(
            operator_rows(tables, (n - 1) as nat),
            scan::table_scan(&tables[n - 1], n - 1),
        );
    }
}

/// The rows that a probe row becomes do not depend on the order of the build rows,
/// but for their own order.
proof fn lemma_met_permuted(
    a: Seq<(i32, u64, Seq<u64>)>,
    b: Seq<(i32, u64, Seq<u64>)>,
    p: (i32, u64, Seq<u64>),
)
    requires
        permute::permuted(a, b),
    ensures
        permute::permuted(met(a, p), met(b, p)),
{
    let ka = hash_join::keys_of(a);
    let kb = hash_join::keys_of(b);
    let pick = |x: (i32, u64, Seq<u64>)| x.0 == p.0;
    let image = |x: (i32, u64, Seq<u64>)| (p.0, p.1, hash_join::merged(x.2, p.2));
    permute::lemma_permuted_picks(
        a,
        b,
        select::holds(ka, p.0),
        select::holds(kb, p.0),
        pick,
        image,
    );
    let at_a = select::places(ka, p.0);
    let at_b = select::places(kb, p.0);
    let got_a = at_a.map_values(|i: int| image(a[i]));
    let got_b = at_b.map_values(|i: int| image(b[i]));
    permute::lemma_permuted(got_a, got_b);
    if at_a.len() > 0 {
        got_a.lemma_reverse_to_multiset();
        got_b.lemma_reverse_to_multiset();
        assert(met(a, p) =~= got_a.reverse());
        assert(met(b, p) =~= got_b.reverse());
    }
}

proof fn lemma_all_met_permuted(
    a: Seq<(i32, u64, Seq<u64>)>,
    b: Seq<(i32, u64, Seq<u64>)>,
    probes: Seq<(i32, u64, Seq<u64>)>,
)
    requires
        permute::permuted(a, b),
    ensures
        permute::permuted(all_met(a, probes), all_met(b, probes)),
    decreases probes.len(),
{
    if probes.len() > 0 {
        let prev = probes.drop_last();
        let p = probes.last();
        lemma_all_met_permuted(a, b, prev);
        lemma_met_permuted(a, b, p);
        permute::lemma_permuted_concat(
            all_met(a, prev),
            all_met(b, prev),
            met(a, p),
            met(b, p),
        );
    }
}

/// The rows of a full outer join do not depend on the order of the build rows, but
/// for their own order.
pub proof fn law_full_outer_permuted(
    a: Seq<(i32, u64, Seq<u64>)>,
    b: Seq<(i32, u64, Seq<u64>)>,
    probes: Seq<(i32, u64, Seq<u64>)>,
)
    requires
        permute::permuted(a, b),
    ensures
        permute::permuted(full_outer(a, probes), full_outer(b, probes)),
{
    let pk = hash_join::keys_of(probes);
    let pick = |x: (i32, u64, Seq<u64>)| !pk.contains(x.0);
    let image = |x: (i32, u64, Seq<u64>)| x;
    let in_a = probe::not_in(hash_join::keys_of(a), pk);
    let in_b = probe::not_in(hash_join::keys_of(b), pk);
    lemma_all_met_permuted(a, b, probes);
    permute::lemma_permuted_picks(a, b, in_a, in_b, pick, image);
    assert(left_over(a, probes) =~= select::select(0, a.len() as int, in_a).map_values(
        |i: int| image(a[i]),
    ));
    assert(left_over(b, probes) =~= select::select(0, b.len() as int, in_b).map_values(
        |i: int| image(b[i]),
    ));
    permute::lemma_permuted_concat(
        all_met(a, probes),
        all_met(b, probes),
        left_over(a, probes),
        left_over(b, probes),
    );
}

/// Rows that hold the hashes of their keys do so in any order.
proof fn lemma_permuted_hashed(
    a: Seq<(i32, u64, Seq<u64>)>,
    b: Seq<(i32, u64, Seq<u64>)>,
)
    requires
        permute::permuted(a, b),
        hash_join::rows_hashed(b),
    ensures
        hash_join::rows_hashed(a),
{
    permute::lemma_permuted(a, b);
    assert forall|i: int| 0 <= i < a.len() implies (#[trigger] a[i]).1 == hash::key_hash(
        a[i].0,
    ) by {
        let j = choose|j: int| 0 <= j < b.len() && b[j] == a[i];
        assert(b[j].1 == hash::key_hash(b[j].0));
    }
}

/// A sink can read rows in any order.
proof fn lemma_permuted_readable(
    tables: Seq<TableData>,
    a: Seq<(i32, u64, Seq<u64>)>,
    b: Seq<(i32, u64, Seq<u64>)>,
)
    requires
        permute::permuted(a, b),
        readable(tables, b),
    ensures
        readable(tables, a),
{
    permute::lemma_permuted(a, b);
    assert forall|i: int| 0 <= i < a.len() implies sink::table_slots_ok(
        tables,
        (#[trigger] a[i]).2,
    ) by {
        let j = choose|j: int| 0 <= j < b.len() && b[j] == a[i];
        assert(sink::table_slots_ok(tables, b[j].2));
    }
}

/// Whether the addresses of the rows lead to rows of the tables.
spec fn readable(tables: Seq<TableData>, rows: Seq<(i32, u64, Seq<u64>)>) -> bool {
    forall|i: int| 0 <= i < rows.len() ==> sink::table_slots_ok(tables, (#[trigger] rows[i]).2)
}

/// Whether a sink that has taken in some rows can take in `more` behind them, in any
/// order.
spec fn can_take_more<K: Sink>(sink: K, more: Seq<(i32, u64, Seq<u64>)>) -> bool {
    exists|before: Seq<(i32, u64, Seq<u64>)>|
        #[trigger] sink.has(before) && forall|given: Seq<(i32, u64, Seq<u64>)>|
            permute::permuted(given, more) ==> sink.can_take(#[trigger] (before + given))
}

/// Whether a sink has taken in `more`, in some order, and is `before` otherwise.
spec fn has_more<K: Sink>(
    sink: K,
    before: K,
    more: Seq<(i32, u64, Seq<u64>)>,
    given: Seq<(i32, u64, Seq<u64>)>,
) -> bool {
    &&& permute::permuted(given, more)
    &&& forall|had: Seq<(i32, u64, Seq<u64>)>|
        #[trigger] before.has(had) ==> sink.has(had + given)
    &&& forall|r: Seq<(i32, u64, Seq<u64>)>|
        #[trigger] before.can_take(r) ==> sink.can_take(r)
    &&& sink.continues(before)
}

/// How many rows come out when a table is scanned through the probe side of a join;
/// `None` if they are more than can be counted.
fn count_joined(join: &HashJoinOp, table: &TableData, Ghost(slot): Ghost<int>) -> (n: Option<usize>)
    requires
        join.joinable(),
        table.wf(),
    ensures
        match n {
            Some(c) => c == join.all_joined(scan::table_scan(table, slot)).len(),
            None => join.all_joined(scan::table_scan(table, slot)).len() > usize::MAX,
        },
{
    let ghost probes = scan::table_scan(table, slot);
    let hashes: &[u64] = table.ht.hashes_base_addr_const();
    let rows: usize = table.ht.n_rows();
    let mut n: usize = 0;
    let mut r: usize = 0;
    assert(probes.take(0) =~= Seq::empty());
    while r < rows
        invariant
            join.joinable(),
            table.wf(),
            r <= rows,
            rows == table.ht.rows(),
            hashes@ == table.ht.hashes(),
            probes == scan::table_scan(table, slot),
            n == join.all_joined(probes.take(r as int)).len(),
        decreases rows - r,
    {
        let found: usize = join.count_matches(hashes[r], table.ht.key_at(r));
        let more: usize = if found == 0 {
            1
        } else {
            found
        };
        proof {
            assert(probes.take(r + 1).drop_last() =~= probes.take(r as int));
            assert(join.joined(probes[r as int]).len() == more);
        }
        match n.checked_add(more) {
            Some(sum) => {
                n = sum;
            },
            None => {
                proof {
                    lemma_joined_concat(*join, probes.take(r + 1), probes.skip(r + 1));
                    assert(probes.take(r + 1) + probes.skip(r + 1) =~= probes);
                }
                return None;
            },
        }
        r += 1;
    }
    assert(probes.take(rows as int) =~= probes);
    Some(n)
}

/// Scans a table through the probe side of a join into a sink. Gives the rows that
/// the sink has taken in, in their order.
fn probe_table<K: Sink>(
    op: &mut ProbeOperator,
    table: Arc<TableData>,
    slot: usize,
    sink: &mut K,
    num_threads: usize,
) -> (given: Ghost<Seq<(i32, u64, Seq<u64>)>>)
    requires
        num_threads > 0,
        slot < SLOTS,
        table.wf(),
        old(op).hj.joinable(),
        old(op).hj.has_marked(Seq::<(i32, u64, Seq<u64>)>::empty()),
        hash_join::rows_hashed(old(op).hj.rows()),
        can_take_more(
            *old(sink),
            all_met(old(op).hj.rows(), scan::table_scan(&*table, slot as int)),
        ),
    ensures
        final(op).hj.joinable(),
        final(op).hj.rows() == old(op).hj.rows(),
        final(op).hj.has_marked(scan::table_scan(&*table, slot as int)),
        has_more(
            *final(sink),
            *old(sink),
            all_met(old(op).hj.rows(), scan::table_scan(&*table, slot as int)),
            given@,
        ),
{
    let ghost probes = scan::table_scan(&*table, slot as int);
    let mut source: ParquetScanSource = ParquetScanSource::new(table, slot);
    let ghost outs = pipeline::outputs(*op, source.remaining());
    let ghost given = pipeline::dealt(outs, num_threads as nat);
    proof {
        lemma_scan_hashed(&*table, slot as int);
        scan::law_scan_complete(source);
        lemma_batched_output(*op, source.remaining());
        lemma_join_output(op.hj, probes);
        pipeline::law_dealt_complete(outs, num_threads as nat);
        assert(permute::permuted(given, all_met(op.hj.rows(), probes)));
        assert(op.has_seen(Seq::<(i32, u64, Seq<u64>)>::empty()));
        assert(Seq::<(i32, u64, Seq<u64>)>::empty() + probes =~= probes);
    }
    drive_source_op_sink(&mut source, op, sink, num_threads);
    assert(op.has_seen(probes));
    Ghost(given)
}

/// Lets the build rows that were not matched follow into a sink. Gives the rows that
/// the sink has taken in, in their order.
fn drain_rest<K: Sink>(
    join: &HashJoinOp,
    Ghost(probes): Ghost<Seq<(i32, u64, Seq<u64>)>>,
    sink: &mut K,
    num_threads: usize,
) -> (given: Ghost<Seq<(i32, u64, Seq<u64>)>>)
    requires
        num_threads > 0,
        join.joinable(),
        hash_join::rows_hashed(join.rows()),
        hash_join::rows_hashed(probes),
        join.has_marked(probes),
        can_take_more(*old(sink), left_over(join.rows(), probes)),
    ensures
        has_more(*final(sink), *old(sink), left_over(join.rows(), probes), given@),
{
    let mut rest: UnmatchedSource = UnmatchedSource::new(join);
    let ghost batches = rest.remaining();
    let ghost given = pipeline::dealt(batches, num_threads as nat);
    proof {
        lemma_join_rest(*join, probes);
        hash_join::law_unmatched_once(*join, 0, hash_join::UNMATCHED_CHUNK as int);
        pipeline::law_dealt_complete(batches, num_threads as nat);
        assert(permute::permuted(given, left_over(join.rows(), probes)));
    }
    drive_source_to_sink(&mut rest, sink, num_threads);
    Ghost(given)
}

/// One step of the chain: the next join, whose build side is the full outer join of
/// the build side of `join` and a table, in some order; `None` if that does not fit a
/// build side.
fn next_join(join: HashJoinOp, table: Arc<TableData>, slot: usize, num_threads: usize) -> (next:
    Option<HashJoinOp>)
    requires
        num_threads > 0,
        slot < SLOTS,
        table.wf(),
        join.joinable(),
        join.has_marked(Seq::<(i32, u64, Seq<u64>)>::empty()),
        hash_join::rows_hashed(join.rows()),
    ensures
        ({
            let out = full_outer(join.rows(), scan::table_scan(&*table, slot as int));
            match next {
                Some(j) => {
                    &&& hash_join::build_fits(out.len() as int)
                    &&& permute::permuted(j.rows(), out)
                    &&& j.finished(j.rows())
                },
                None => !hash_join::build_fits(out.len() as int),
            }
        }),
{
    let ghost none = Seq::<(i32, u64, Seq<u64>)>::empty();
    let ghost probes = scan::table_scan(&*table, slot as int);
    let ghost a = all_met(join.rows(), probes);
    let ghost b = left_over(join.rows(), probes);
    proof {
        lemma_scan_hashed(&*table, slot as int);
        lemma_join_output(join, probes);
        assert(a + b =~= full_outer(join.rows(), probes));
    }
    let joined: usize = match count_joined(&join, &table, Ghost(slot as int)) {
        Some(n) => n,
        None => {
            return None;
        },
    };
    if !build_side_fits(joined) {
        return None;
    }
    let mut next: HashJoinOp = HashJoinOp::new(join.n_rows(), slot);
    let mut op: ProbeOperator = ProbeOperator::new(join);
    proof {
        assert forall|given: Seq<(i32, u64, Seq<u64>)>| permute::permuted(
            given,
            a,
        ) implies next.can_take(#[trigger] (none + given)) by {
            permute::lemma_permuted(given, a);
        }
        assert(next.has(none));
        assert(can_take_more(next, a));
    }
    let met_rows: Ghost<Seq<(i32, u64, Seq<u64>)>> = probe_table(
        &mut op,
        table,
        slot,
        &mut next,
        num_threads,
    );
    let ghost first = none + met_rows@;
    let rest: usize = op.hj.count_unmatched();
    proof {
        lemma_join_rest(op.hj, probes);
        permute::lemma_permuted(met_rows@, a);
        assert(next.has(first));
    }
    match joined.checked_add(rest) {
        Some(total) => {
            if !build_side_fits(total) {
                return None;
            }
        },
        None => {
            return None;
        },
    }
    proof {
        assert forall|given: Seq<(i32, u64, Seq<u64>)>| permute::permuted(
            given,
            b,
        ) implies next.can_take(#[trigger] (first + given)) by {
            permute::lemma_permuted(given, b);
        }
        assert(can_take_more(next, b));
    }
    let rest_rows: Ghost<Seq<(i32, u64, Seq<u64>)>> = drain_rest(
        &op.hj,
        Ghost(probes),
        &mut next,
        num_threads,
    );
    proof {
        assert(next.has(first + rest_rows@));
        permute::lemma_permuted(rest_rows@, b);
        permute::lemma_permuted_concat(met_rows@, a, rest_rows@, b);
        assert(first + rest_rows@ =~= met_rows@ + rest_rows@);
        assert(next.can_take(first + rest_rows@));
    }
    next.finalize();
    Some(next)
}

/// The last step of the chain: the full outer join of the build side of `join` and a
/// table goes into the sink. Returns whether its rows can be counted; only then the
/// sink has taken them all in.
fn last_join(
    join: HashJoinOp,
    table: Arc<TableData>,
    slot: usize,
    sink: &mut ChecksumSinkOp,
    num_threads: usize,
) -> (counted: bool)
    requires
        num_threads > 0,
        slot < SLOTS,
        table.wf(),
        join.joinable(),
        join.has_marked(Seq::<(i32, u64, Seq<u64>)>::empty()),
        hash_join::rows_hashed(join.rows()),
        old(sink).has(Seq::<(i32, u64, Seq<u64>)>::empty()),
        readable(
            old(sink).all_tables(),
            full_outer(join.rows(), scan::table_scan(&*table, slot as int)),
        ),
    ensures
        ({
            let out = full_outer(join.rows(), scan::table_scan(&*table, slot as int));
            &&& counted == (out.len() <= usize::MAX)
            &&& counted ==> final(sink).has(out) && final(sink).tables == old(sink).tables
        }),
{
    let ghost none = Seq::<(i32, u64, Seq<u64>)>::empty();
    let ghost probes = scan::table_scan(&*table, slot as int);
    let ghost a = all_met(join.rows(), probes);
    let ghost b = left_over(join.rows(), probes);
    let ghost out = full_outer(join.rows(), probes);
    let ghost all = sink.all_tables();
    proof {
        lemma_scan_hashed(&*table, slot as int);
        lemma_join_output(join, probes);
        assert(a + b =~= out);
        lemma_readable_parts(all, a, b);
    }
    let joined: usize = match count_joined(&join, &table, Ghost(slot as int)) {
        Some(n) => n,
        None => {
            return false;
        },
    };
    let mut op: ProbeOperator = ProbeOperator::new(join);
    proof {
        assert forall|given: Seq<(i32, u64, Seq<u64>)>| permute::permuted(
            given,
            a,
        ) implies sink.can_take(#[trigger] (none + given)) by {
            permute::lemma_permuted(given, a);
            lemma_permuted_readable(all, given, a);
            assert(none + given =~= given);
        }
        assert(can_take_more(*sink, a));
    }
    let met_rows: Ghost<Seq<(i32, u64, Seq<u64>)>> = probe_table(
        &mut op,
        table,
        slot,
        sink,
        num_threads,
    );
    let ghost first = none + met_rows@;
    let rest: usize = op.hj.count_unmatched();
    proof {
        lemma_join_rest(op.hj, probes);
        permute::lemma_permuted(met_rows@, a);
        assert(first =~= met_rows@);
        assert(sink.has(first));
    }
    if joined.checked_add(rest).is_none() {
        return false;
    }
    proof {
        assert forall|given: Seq<(i32, u64, Seq<u64>)>| permute::permuted(
            given,
            b,
        ) implies sink.can_take(#[trigger] (first + given)) by {
            permute::lemma_permuted(given, b);
            permute::lemma_permuted_concat(met_rows@, a, given, b);
            lemma_permuted_readable(all, first + given, out);
        }
        assert(can_take_more(*sink, b));
    }
    let rest_rows: Ghost<Seq<(i32, u64, Seq<u64>)>> = drain_rest(
        &op.hj,
        Ghost(probes),
        sink,
        num_threads,
    );
    proof {
        assert(sink.has(first + rest_rows@));
        permute::lemma_permuted_concat(met_rows@, a, rest_rows@, b);
        lemma_sunk_permuted(all, first + rest_rows@, out);
    }
    true
}

/// What can be read of some rows can be read of each of two stretches of them.
proof fn lemma_readable_parts(
    tables: Seq<TableData>,
    a: Seq<(i32, u64, Seq<u64>)>,
    b: Seq<(i32, u64, Seq<u64>)>,
)
    requires
        readable(tables, a + b),
    ensures
        readable(tables, a),
{
    assert forall|i: int| 0 <= i < a.len() implies sink::table_slots_ok(
        tables,
        (#[trigger] a[i]).2,
    ) by {
        assert((a + b)[i] == a[i]);
    }
}

/// The hash tables of some tables.
pub open spec fn hash_tables(tables: Seq<TableData>) -> Seq<JoinHashTable> {
    tables.map_values(|t: TableData| t.ht)
}

/// Whether every row has all slots, and those that are set hold addresses of rows
/// of the first `n` tables.
spec fn slots_right(rows: Seq<(i32, u64, Seq<u64>)>, tables: Seq<TableData>, n: int) -> bool {
    &&& forall|i: int| 0 <= i < rows.len() ==> (#[trigger] rows[i]).2.len() == SLOTS
    &&& row_chain::addresses_ok(rows, hash_tables(tables), n)
}

proof fn lemma_scan_slots(tables: Seq<TableData>, t: int)
    requires
        0 <= t < tables.len(),
        t < SLOTS,
        tables[t].wf(),
    ensures
        slots_right(scan::table_scan(&tables[t], t), tables, t + 1),
{
    let rows = scan::table_scan(&tables[t], t);
    assert forall|i: int, s: int|
        0 <= i < rows.len() && 0 <= s < SLOTS && #[trigger] rows[i].2[s] != 0 implies s < t + 1
        && hash_tables(tables)[s].is_row_addr(rows[i].2[s] as int) by {
        row_chain::lemma_slot_addr_ok(tables[t].ht, i);
    }
}

proof fn lemma_met_slots(
    build: Seq<(i32, u64, Seq<u64>)>,
    probes: Seq<(i32, u64, Seq<u64>)>,
    tables: Seq<TableData>,
    n: int,
)
    requires
        slots_right(build, tables, n),
        slots_right(probes, tables, n),
    ensures
        slots_right(all_met(build, probes), tables, n),
    decreases probes.len(),
{
    if probes.len() > 0 {
        let prev = probes.drop_last();
        let p = probes.last();
        let hts = hash_tables(tables);
        let keys = hash_join::keys_of(build);
        assert(probes[probes.len() - 1] == p);
        assert(slots_right(prev, tables, n)) by {
            assert forall|i: int| 0 <= i < prev.len() implies (#[trigger] prev[i]).2.len()
                == SLOTS by {
                assert(probes[i] == prev[i]);
            }
            assert forall|i: int, s: int|
                0 <= i < prev.len() && 0 <= s < SLOTS && #[trigger] prev[i].2[s] != 0 implies s < n
                && hts[s].is_row_addr(prev[i].2[s] as int) by {
                assert(probes[i].2[s] == prev[i].2[s]);
            }
        }
        lemma_met_slots(build, prev, tables, n);
        let before = all_met(build, prev);
        let out = all_met(build, probes);
        let more = met(build, p);
        let at = select::places(keys, p.0);
        select::lemma_select(0, keys.len() as int, select::holds(keys, p.0));
        assert forall|i: int| 0 <= i < out.len() implies (#[trigger] out[i]).2.len() == SLOTS by {
            if i < before.len() {
                assert(before[i] == out[i]);
            } else {
                assert(more[i - before.len()] == out[i]);
            }
        }
        assert forall|i: int, s: int|
            0 <= i < out.len() && 0 <= s < SLOTS && #[trigger] out[i].2[s] != 0 implies s < n
            && hts[s].is_row_addr(out[i].2[s] as int) by {
            if i < before.len() {
                assert(before[i].2[s] == out[i].2[s]);
            } else {
                let e = i - before.len();
                assert(more[e] == out[i]);
                if at.len() > 0 {
                    let r = at.reverse()[e];
                    assert(r == at[at.len() - 1 - e]);
                    if build[r].2[s] == 0 {
                        assert(probes[probes.len() - 1].2[s] == out[i].2[s]);
                    } else {
                        assert(build[r].2[s] == out[i].2[s]);
                    }
                } else {
                    assert(probes[probes.len() - 1].2[s] == out[i].2[s]);
                }
            }
        }
    }
}

/// The addresses that come out of the chain are those of rows of its tables.
proof fn lemma_chain_slots(tables: Seq<TableData>, n: nat)
    requires
        1 <= n <= tables.len(),
        n <= SLOTS,
        forall|t: int| 0 <= t < n ==> (#[trigger] tables[t]).wf(),
    ensures
        slots_right(operator_rows(tables, n), tables, n as int),
    decreases n,
{
    assert(tables[n - 1].wf());
    lemma_scan_slots(tables, n - 1);
    if n > 1 {
        let build = operator_rows(tables, (n - 1) as nat);
        let probes = scan::table_scan(&tables[n - 1], n - 1);
        let hts = hash_tables(tables);
        lemma_chain_slots(tables, (n - 1) as nat);
        assert(slots_right(build, tables, n as int)) by {
            assert forall|i: int, s: int|
                0 <= i < build.len() && 0 <= s < SLOTS && #[trigger] build[i].2[s] != 0 implies s
                < n && hts[s].is_row_addr(build[i].2[s] as int) by {}
        }
        lemma_met_slots(build, probes, tables, n as int);
        let absent = probe::not_in(hash_join::keys_of(build), hash_join::keys_of(probes));
        let at = select::select(0, build.len() as int, absent);
        select::lemma_select(0, build.len() as int, absent);
        let joined = all_met(build, probes);
        let out = full_outer(build, probes);
        assert forall|i: int| 0 <= i < out.len() implies (#[trigger] out[i]).2.len() == SLOTS by {
            if i < joined.len() {
                assert(joined[i] == out[i]);
            } else {
                assert(build[at[i - joined.len()]] == out[i]);
            }
        }
        assert forall|i: int, s: int|
            0 <= i < out.len() && 0 <= s < SLOTS && #[trigger] out[i].2[s] != 0 implies s < n
            && hts[s].is_row_addr(out[i].2[s] as int) by {
            if i < joined.len() {
                assert(joined[i].2[s] == out[i].2[s]);
            } else {
                assert(build[at[i - joined.len()]].2[s] == out[i].2[s]);
            }
        }
    }
}

/// Another handle to a shared value, from `Arc::clone`: it leads to the same
/// value.
#[verifier::external_body]
fn share<T>(shared: &Arc<T>) -> (another: Arc<T>)
    ensures
        another == *shared,
{
    Arc::clone(shared)
}

/// Handles to the tables.
fn share_all(tables: &[Arc<TableData>]) -> (handles: Vec<Arc<TableData>>)
    ensures
        handles@ == tables@,
{
    let n: usize = tables.len();
    let mut handles: Vec<Arc<TableData>> = Vec::with_capacity(n);
    let mut i: usize = 0;
    while i < n
        invariant
            i <= n,
            n == tables@.len(),
            handles@ == tables@.take(i as int),
        decreases n - i,
    {
        handles.push(share(&tables[i]));
        assert(handles@ =~= tables@.take(i + 1));
        i += 1;
    }
    assert(tables@.take(n as int) =~= tables@);
    handles
}

/// A sink can read what the addresses that come out of the chain lead to.
proof fn lemma_chain_readable(tables: Seq<TableData>, n: nat)
    requires
        1 <= n <= tables.len(),
        n <= SLOTS,
        forall|t: int| 0 <= t < n ==> (#[trigger] tables[t]).wf(),
    ensures
        readable(tables, operator_rows(tables, n)),
{
    let out = operator_rows(tables, n);
    lemma_chain_slots(tables, n);
    assert forall|i: int| 0 <= i < out.len() implies sink::table_slots_ok(
        tables,
        (#[trigger] out[i]).2,
    ) by {
        assert forall|t: int| 0 <= t < SLOTS && #[trigger] out[i].2[t] != 0 implies t
            < tables.len() && tables[t].ht.is_row_addr(out[i].2[t] as int) by {
            assert(hash_tables(tables)[t] == tables[t].ht);
        }
    }
}

/// Scans the first table of the chain into the build side of a join, in some order.
fn scan_into_join(table: Arc<TableData>, num_threads: usize) -> (join: HashJoinOp)
    requires
        num_threads > 0,
        table.wf(),
        hash_join::build_fits(scan::table_scan(&*table, 0).len() as int),
    ensures
        permute::permuted(join.rows(), scan::table_scan(&*table, 0)),
        join.finished(join.rows()),
{
    let ghost none = Seq::<(i32, u64, Seq<u64>)>::empty();
    let ghost rows = scan::table_scan(&*table, 0);
    let mut join: HashJoinOp = HashJoinOp::new(table.n_rows(), 0);
    let mut source: ParquetScanSource = ParquetScanSource::new(table, 0);
    let ghost given = pipeline::dealt(source.remaining(), num_threads as nat);
    proof {
        scan::law_scan_complete(source);
        pipeline::law_dealt_complete(source.remaining(), num_threads as nat);
        permute::lemma_permuted(given, rows);
        assert(none + given =~= given);
        assert(join.can_take(none + given));
    }
    drive_source_to_sink(&mut source, &mut join, num_threads);
    assert(join.has(given));
    join.finalize();
    join
}

/// Whether the build side of every join of the chain fits, and the rows that come
/// out can be counted.
pub open spec fn operator_fits(tables: Seq<TableData>, k: nat) -> bool {
    &&& forall|n: nat|
        1 <= n < k ==> hash_join::build_fits((#[trigger] operator_rows(tables, n)).len() as int)
    &&& operator_rows(tables, k).len() <= usize::MAX
}

/// Runs the chain over all tables with `num_threads` workers: the checksum over
/// the rows that come out, and their number; or `None` if a build side does not fit
/// or the rows cannot be counted.
pub fn run_chain_operator(tables: &[Arc<TableData>], num_threads: usize) -> (r: Option<
    (u64, usize),
>)
    requires
        num_threads > 0,
        1 <= tables@.len() <= SLOTS,
        forall|t: int|
            0 <= t < tables@.len() ==> (#[trigger] scan::shared_tables(tables@)[t]).wf(),
    ensures
        r is Some <==> operator_fits(scan::shared_tables(tables@), tables@.len()),
        r matches Some(o) ==> {
            &&& o.0 == checksum::wrapping_sum(
                scan::sunk_words(
                    scan::shared_tables(tables@),
                    operator_rows(scan::shared_tables(tables@), tables@.len()),
                ),
            )
            &&& o.1 == operator_rows(scan::shared_tables(tables@), tables@.len()).len()
        },
{
    let ghost all = scan::shared_tables(tables@);
    let ghost none = Seq::<(i32, u64, Seq<u64>)>::empty();
    let k: usize = tables.len();
    let ghost out = operator_rows(all, k as nat);
    let mut sink: ChecksumSinkOp = ChecksumSinkOp::new(share_all(tables));
    proof {
        lemma_chain_readable(all, k as nat);
        assert(all[0].wf());
    }
    let first: usize = tables[0].n_rows();
    if k == 1 {
        let mut scan0: ParquetScanSource = ParquetScanSource::new(share(&tables[0]), 0);
        let ghost given = pipeline::dealt(scan0.remaining(), num_threads as nat);
        proof {
            scan::law_scan_complete(scan0);
            pipeline::law_dealt_complete(scan0.remaining(), num_threads as nat);
            permute::lemma_permuted(given, out);
            lemma_permuted_readable(all, given, out);
            assert(none + given =~= given);
            assert(sink.can_take(none + given));
        }
        drive_source_to_sink(&mut scan0, &mut sink, num_threads);
        proof {
            assert(sink.has(given));
            lemma_sunk_permuted(all, given, out);
        }
    } else {
        if !build_side_fits(first) {
            assert(!hash_join::build_fits(operator_rows(all, 1).len() as int));
            return None;
        }
        let mut join: HashJoinOp = scan_into_join(share(&tables[0]), num_threads);
        let mut i: usize = 1;
        while i + 1 < k
            invariant
                1 <= i < k,
                k == tables@.len(),
                k <= SLOTS,
                num_threads > 0,
                all == scan::shared_tables(tables@),
                forall|t: int| 0 <= t < tables@.len() ==> (#[trigger] all[t]).wf(),
                forall|n: nat|
                    1 <= n <= i ==> hash_join::build_fits(
                        (#[trigger] operator_rows(all, n)).len() as int,
                    ),
                permute::permuted(join.rows(), operator_rows(all, i as nat)),
                join.finished(join.rows()),
            decreases k - i,
        {
            let ghost had = join.rows();
            proof {
                assert(all[i as int].wf());
                lemma_chain_hashed(all, i as nat);
                lemma_permuted_hashed(had, operator_rows(all, i as nat));
                let probes = scan::table_scan(&all[i as int], i as int);
                let here = full_outer(had, probes);
                law_full_outer_permuted(had, operator_rows(all, i as nat), probes);
                permute::lemma_permuted(here, operator_rows(all, (i + 1) as nat));
            }
            match next_join(join, share(&tables[i]), i, num_threads) {
                Some(next) => {
                    join = next;
                },
                None => {
                    assert(!hash_join::build_fits(
                        operator_rows(all, (i + 1) as nat).len() as int,
                    ));
                    return None;
                },
            }
            i += 1;
        }
        proof {
            assert(all[k - 1].wf());
            lemma_chain_hashed(all, (k - 1) as nat);
            let before = operator_rows(all, (k - 1) as nat);
            lemma_permuted_hashed(join.rows(), before);
            let probes = scan::table_scan(&all[k - 1], k - 1);
            let here = full_outer(join.rows(), probes);
            law_full_outer_permuted(join.rows(), before, probes);
            permute::lemma_permuted(here, out);
            lemma_permuted_readable(all, here, out);
            lemma_sunk_permuted(all, here, out);
        }
        if !last_join(join, share(&tables[k - 1]), k - 1, &mut sink, num_threads) {
            return None;
        }
    }
    sink.finalize();
    Some(sink.finish())
}

/// Among rows with distinct keys a probe row meets at most one, so that it becomes
/// one row.
proof fn lemma_met_once(build: Seq<(i32, u64, Seq<u64>)>, probes: Seq<(i32, u64, Seq<u64>)>)
    requires
        hash_join::keys_of(build).no_duplicates(),
    ensures
        all_met(build, probes).len() == probes.len(),
        forall|i: int|
            0 <= i < probes.len() ==> {
                let p = probes[i];
                let at = select::places(hash_join::keys_of(build), p.0);
                #[trigger] all_met(build, probes)[i] == (if at.len() > 0 {
                    (p.0, p.1, hash_join::merged(build[at[0]].2, p.2))
                } else {
                    p
                })
            },
    decreases probes.len(),
{
    if probes.len() > 0 {
        let prev = probes.drop_last();
        lemma_met_once(build, prev);
        chain::lemma_places(hash_join::keys_of(build), probes.last().0);
        let before = all_met(build, prev);
        let out = all_met(build, probes);
        assert forall|i: int| 0 <= i < probes.len() implies {
            let p = probes[i];
            let at = select::places(hash_join::keys_of(build), p.0);
            #[trigger] out[i] == (if at.len() > 0 {
                (p.0, p.1, hash_join::merged(build[at[0]].2, p.2))
            } else {
                p
            })
        } by {
            if i < prev.len() {
                assert(prev[i] == probes[i]);
                assert(out[i] == before[i]);
            }
        }
    }
}

/// Where the keys are distinct, a key stands at one place.
proof fn lemma_only_place(keys: Seq<i32>, r: int)
    requires
        keys.no_duplicates(),
        0 <= r < keys.len(),
    ensures
        select::places(keys, keys[r]) == seq![r],
{
    let at = select::places(keys, keys[r]);
    select::lemma_select(0, keys.len() as int, select::holds(keys, keys[r]));
    chain::lemma_places(keys, keys[r]);
    assert(select::holds(keys, keys[r])(r));
    assert(at.contains(r));
    assert(at =~= seq![r]);
}

/// One step of the chain, over tables with distinct keys.
proof fn lemma_outer_step(
    build: Seq<(i32, u64, Seq<u64>)>,
    tables: Seq<TableData>,
    n: int,
)
    requires
        1 <= n < tables.len(),
        n < SLOTS,
        tables[n].wf(),
        tables[n].ht.keys().no_duplicates(),
        row_chain::chain_ok(build, hash_tables(tables), n),
    ensures
        row_chain::chain_ok(
            full_outer(build, scan::table_scan(&tables[n], n)),
            hash_tables(tables),
            n + 1,
        ),
{
    let hts = hash_tables(tables);
    let t = hts[n];
    let probes = scan::table_scan(&tables[n], n);
    let keys = hash_join::keys_of(build);
    let pk = hash_join::keys_of(probes);
    let absent = probe::not_in(keys, pk);
    let at = select::select(0, build.len() as int, absent);
    let joined = all_met(build, probes);
    let out = full_outer(build, probes);
    assert(keys =~= row_chain::chain_keys(build));
    assert(pk =~= t.keys());
    select::lemma_select(0, build.len() as int, absent);
    lemma_met_once(build, probes);
    lemma_scan_hashed(&tables[n], n);
    lemma_full_outer_hashed(build, probes);
    assert(row_chain::chain_keys(out) =~= chain::outer_step(pk, keys)) by {
        assert forall|i: int| 0 <= i < out.len() implies row_chain::chain_keys(out)[i]
            == #[trigger] chain::outer_step(pk, keys)[i] by {
            if i < joined.len() {
                assert(joined[i].0 == probes[i].0);
            }
        }
    }
    chain::law_outer_step(pk, keys);
    assert forall|i: int| 0 <= i < out.len() implies {
        &&& (#[trigger] out[i]).2.len() == SLOTS
        &&& forall|s: int|
            0 <= s < n + 1 ==> #[trigger] out[i].2[s] == row_chain::slot_for(hts[s], out[i].0)
        &&& forall|s: int| n + 1 <= s < SLOTS ==> #[trigger] out[i].2[s] == 0
    } by {
        if i < joined.len() {
            lemma_joined_slots(build, tables, n, i);
            assert(out[i] == joined[i]);
        } else {
            let r = at[i - joined.len()];
            assert(out[i] == build[r]);
            assert(absent(r));
            chain::lemma_places(t.keys(), out[i].0);
            assert forall|s: int| 0 <= s < n + 1 implies #[trigger] out[i].2[s]
                == row_chain::slot_for(hts[s], out[i].0) by {
                if s < n {
                    assert(build[r].2[s] == row_chain::slot_for(hts[s], build[r].0));
                } else {
                    assert(build[r].2[s] == 0);
                }
            }
            assert forall|s: int| n + 1 <= s < SLOTS implies #[trigger] out[i].2[s] == 0 by {
                assert(build[r].2[s] == 0);
            }
        }
    }
    assert forall|k: i32| #[trigger] row_chain::chain_keys(out).contains(k) <==> exists|s: int|
        0 <= s < n + 1 && #[trigger] hts[s].keys().contains(k) by {
        assert(chain::outer_step(pk, keys).contains(k) <==> pk.contains(k) || keys.contains(k));
        if keys.contains(k) {
            assert(row_chain::chain_keys(build).contains(k));
        }
        if pk.contains(k) {
            assert(hts[n].keys().contains(k));
        }
        if exists|s: int| 0 <= s < n + 1 && #[trigger] hts[s].keys().contains(k) {
            let s = choose|s: int| 0 <= s < n + 1 && #[trigger] hts[s].keys().contains(k);
            if s < n {
                assert(row_chain::chain_keys(build).contains(k));
            }
        }
    }
    assert forall|i: int, s: int| 0 <= i < out.len() && 0 <= s < n + 1 implies #[trigger] out[i].2[s]
        == row_chain::slot_for(hts[s], out[i].0) by {
        assert(out[i].2.len() == SLOTS);
    }
    assert forall|i: int, s: int|
        0 <= i < out.len() && n + 1 <= s < SLOTS implies #[trigger] out[i].2[s] == 0 by {
        assert(out[i].2.len() == SLOTS);
    }
}

/// The slots of what row `i` of a table becomes in a step of the chain.
proof fn lemma_joined_slots(
    build: Seq<(i32, u64, Seq<u64>)>,
    tables: Seq<TableData>,
    n: int,
    i: int,
)
    requires
        1 <= n < tables.len(),
        n < SLOTS,
        tables[n].wf(),
        tables[n].ht.keys().no_duplicates(),
        row_chain::chain_ok(build, hash_tables(tables), n),
        0 <= i < tables[n].ht.rows(),
    ensures
        ({
            let row = all_met(build, scan::table_scan(&tables[n], n))[i];
            &&& row.0 == tables[n].ht.keys()[i]
            &&& row.2.len() == SLOTS
            &&& forall|s: int|
                0 <= s < n + 1 ==> #[trigger] row.2[s] == row_chain::slot_for(
                    hash_tables(tables)[s],
                    row.0,
                )
            &&& forall|s: int| n + 1 <= s < SLOTS ==> #[trigger] row.2[s] == 0
        }),
{
    let hts = hash_tables(tables);
    let t = hts[n];
    let probes = scan::table_scan(&tables[n], n);
    let p = probes[i];
    let keys = hash_join::keys_of(build);
    let found = select::places(keys, p.0);
    let row = all_met(build, probes)[i];
    assert(keys =~= row_chain::chain_keys(build));
    lemma_met_once(build, probes);
    lemma_only_place(t.keys(), i);
    chain::lemma_places(keys, p.0);
    select::lemma_select(0, keys.len() as int, select::holds(keys, p.0));
    assert(row_chain::slot_for(t, p.0) == row_chain::slot_addr(t, i));
    if found.len() > 0 {
        let r = found[0];
        assert(select::holds(keys, p.0)(r));
        assert(build[r].0 == p.0);
        assert forall|s: int| 0 <= s < n + 1 implies #[trigger] row.2[s] == row_chain::slot_for(
            hts[s],
            row.0,
        ) by {
            if s < n {
                assert(build[r].2[s] == row_chain::slot_for(hts[s], build[r].0));
            } else {
                assert(build[r].2[s] == 0);
            }
        }
        assert forall|s: int| n + 1 <= s < SLOTS implies #[trigger] row.2[s] == 0 by {
            assert(build[r].2[s] == 0);
        }
    } else {
        assert forall|s: int| 0 <= s < n implies row_chain::slot_for(
            #[trigger] hts[s],
            p.0,
        ) == 0 by {
            chain::lemma_places(hts[s].keys(), p.0);
            if hts[s].keys().contains(p.0) {
                assert(row_chain::chain_keys(build).contains(p.0));
            }
        }
    }
}

/// Over tables with distinct keys the chain holds, for every key that is in any of
/// them, one row with the addresses of its rows.
pub proof fn law_operator_chain(tables: Seq<TableData>, n: nat)
    requires
        1 <= n <= tables.len(),
        n <= SLOTS,
        forall|t: int|
            0 <= t < n ==> (#[trigger] tables[t]).wf() && tables[t].ht.keys().no_duplicates(),
    ensures
        row_chain::chain_ok(operator_rows(tables, n), hash_tables(tables), n as int),
    decreases n,
{
    assert(tables[n - 1].wf() && tables[n - 1].ht.keys().no_duplicates());
    if n == 1 {
        lemma_cached(tables[0]);
        let hts = hash_tables(tables);
        assert(hts[0] == tables[0].ht);
        assert(operator_rows(tables, 1) =~= row_chain::chained(hts, 1));
        row_chain::law_row_chain(hts, 1);
    } else {
        law_operator_chain(tables, (n - 1) as nat);
        lemma_outer_step(operator_rows(tables, (n - 1) as nat), tables, n - 1);
    }
}

/// The number of rows of the first `n` tables.
pub open spec fn scanned(tables: Seq<TableData>, n: nat) -> nat
    decreases n,
{
    if n == 0 {
        0
    } else {
        scanned(tables, (n - 1) as nat) + tables[n - 1].ht.rows()
    }
}

/// Over tables with distinct keys no more rows come out of the chain than go in.
pub proof fn law_operator_rows(tables: Seq<TableData>, n: nat)
    requires
        1 <= n <= tables.len(),
        n <= SLOTS,
        forall|t: int|
            0 <= t < n ==> (#[trigger] tables[t]).wf() && tables[t].ht.keys().no_duplicates(),
    ensures
        operator_rows(tables, n).len() <= scanned(tables, n),
    decreases n,
{
    let n1 = (n - 1) as nat;
    if n == 1 {
        assert(scanned(tables, 0) == 0);
    } else {
        let build = operator_rows(tables, n1);
        let probes = scan::table_scan(&tables[n - 1], n - 1);
        law_operator_rows(tables, n1);
        law_operator_chain(tables, n1);
        assert(hash_join::keys_of(build) =~= row_chain::chain_keys(build));
        lemma_met_once(build, probes);
        select::lemma_select(
            0,
            build.len() as int,
            probe::not_in(hash_join::keys_of(build), hash_join::keys_of(probes)),
        );
    }
}

/// The hash table of a table holds the hashes of its keys.
proof fn lemma_cached(t: TableData)
    requires
        t.wf(),
    ensures
        t.ht.wf(),
        t.ht.cached(),
{
}

/// What is added to a checksum for a row.
spec fn row_added(tables: Seq<TableData>) -> spec_fn((i32, u64, Seq<u64>), u64) -> u64 {
    |row: (i32, u64, Seq<u64>), acc: u64|
        checksum::wrapping_sum(sink::ptrs_words(tables, row.2)).wrapping_add(acc)
}

/// A checksum over rows adds up what is added for each row.
proof fn lemma_sunk_folded(tables: Seq<TableData>, rows: Seq<(i32, u64, Seq<u64>)>, acc: u64)
    ensures
        checksum::wrapping_sum(scan::sunk_words(tables, rows)).wrapping_add(acc)
            == rows.fold_right(row_added(tables), acc),
    decreases rows.len(),
{
    if rows.len() > 0 {
        let prev = rows.drop_last();
        let words = sink::ptrs_words(tables, rows.last().2);
        lemma_sunk_folded(tables, prev, row_added(tables)(rows.last(), acc));
        checksum::lemma_wrapping_sum_concat(scan::sunk_words(tables, prev), words);
    }
}

/// The order of the rows does not matter for the checksum.
proof fn lemma_sunk_permuted(
    tables: Seq<TableData>,
    a: Seq<(i32, u64, Seq<u64>)>,
    b: Seq<(i32, u64, Seq<u64>)>,
)
    requires
        permute::permuted(a, b),
    ensures
        a.len() == b.len(),
        checksum::wrapping_sum(scan::sunk_words(tables, a)) == checksum::wrapping_sum(
            scan::sunk_words(tables, b),
        ),
{
    let f = row_added(tables);
    permute::lemma_permuted(a, b);
    assert forall|x: (i32, u64, Seq<u64>), y: (i32, u64, Seq<u64>), v: u64| #[trigger]
        f(x, f(y, v)) == f(y, f(x, v)) by {}
    vstd::seq_lib::lemma_fold_right_permutation(a, b, f, 0);
    lemma_sunk_folded(tables, a, 0);
    lemma_sunk_folded(tables, b, 0);
}

/// Two chains over the same tables have the same rows.
proof fn lemma_chains_same(
    a: Seq<(i32, u64, Seq<u64>)>,
    b: Seq<(i32, u64, Seq<u64>)>,
    tables: Seq<JoinHashTable>,
    n: int,
    x: (i32, u64, Seq<u64>),
)
    requires
        0 <= n <= SLOTS,
        row_chain::chain_ok(a, tables, n),
        row_chain::chain_ok(b, tables, n),
        a.contains(x),
    ensures
        b.contains(x),
{
    let i = choose|i: int| 0 <= i < a.len() && a[i] == x;
    assert(row_chain::chain_keys(a)[i] == x.0);
    assert(row_chain::chain_keys(a).contains(x.0));
    assert(row_chain::chain_keys(b).contains(x.0));
    let j = choose|j: int|
        0 <= j < row_chain::chain_keys(b).len() && row_chain::chain_keys(b)[j] == x.0;
    let y = b[j];
    assert(y.0 == x.0);
    assert(a[i].1 == hash::key_hash(a[i].0));
    assert(b[j].1 == hash::key_hash(b[j].0));
    assert(a[i].2.len() == SLOTS && b[j].2.len() == SLOTS);
    assert forall|s: int| 0 <= s < SLOTS implies #[trigger] x.2[s] == y.2[s] by {
        assert(a[i].2[s] == x.2[s]);
        assert(b[j].2[s] == y.2[s]);
    }
    assert(x.2 =~= y.2);
    assert(b[j] == x);
}

/// Over tables with distinct keys, the chain of operators and the chain that
/// carries row addresses give the same number of rows and the same checksum.
pub proof fn law_operator_checksum(tables: Seq<TableData>, n: nat)
    requires
        1 <= n <= tables.len(),
        n <= SLOTS,
        forall|t: int|
            0 <= t < n ==> (#[trigger] tables[t]).wf() && tables[t].ht.keys().no_duplicates(),
    ensures
        operator_rows(tables, n).len() == row_chain::chained(hash_tables(tables), n).len(),
        checksum::wrapping_sum(scan::sunk_words(tables, operator_rows(tables, n)))
            == checksum::wrapping_sum(
            scan::sunk_words(tables, row_chain::chained(hash_tables(tables), n)),
        ),
{
    let hts = hash_tables(tables);
    let a = operator_rows(tables, n);
    let b = row_chain::chained(hts, n);
    assert forall|t: int| 0 <= t < n implies (#[trigger] hts[t]).wf() && hts[t].cached()
        && hts[t].keys().no_duplicates() by {
        assert(tables[t].wf() && tables[t].ht.keys().no_duplicates());
        lemma_cached(tables[t]);
    }
    law_operator_chain(tables, n);
    row_chain::law_row_chain(hts, n);
    assert forall|x: (i32, u64, Seq<u64>)| #[trigger] a.contains(x) <==> b.contains(x) by {
        if a.contains(x) {
            lemma_chains_same(a, b, hts, n as int, x);
        }
        if b.contains(x) {
            lemma_chains_same(b, a, hts, n as int, x);
        }
    }
    lemma_rows_distinct(a);
    lemma_rows_distinct(b);
    permute::lemma_same_items(a, b);
    lemma_sunk_permuted(tables, a, b);
}

/// Rows with distinct keys are distinct.
proof fn lemma_rows_distinct(rows: Seq<(i32, u64, Seq<u64>)>)
    requires
        row_chain::chain_keys(rows).no_duplicates(),
    ensures
        rows.no_duplicates(),
{
    assert forall|i: int, j: int|
        0 <= i < rows.len() && 0 <= j < rows.len() && i != j implies rows[i] != rows[j] by {
        assert(row_chain::chain_keys(rows)[i] != row_chain::chain_keys(rows)[j]);
    }
}

/// What comes out for a probe row that meets the rows `build`: the row itself if none of
/// them has its key; and else a row for each that has, the last one first, with the key
/// and the hash of the probe, and in each slot the address of the build row or, where that
/// has none, the one of the probe row.
pub proof fn law_met(build: Seq<(i32, u64, Seq<u64>)>, p: (i32, u64, Seq<u64>))
    ensures
        exists|at: Seq<int>|
            {
                let out = met(build, p);
                &&& forall|r: int| #[trigger]
                    at.contains(r) <==> 0 <= r < build.len() && build[r].0 == p.0
                &&& forall|e: int, f: int| 0 <= e < f < at.len() ==> at[e] > at[f]
                &&& #[trigger] at.len() == 0 ==> out.len() == 1 && out[0] == p
                &&& at.len() > 0 ==> out.len() == at.len()
                &&& forall|e: int|
                    0 <= e < at.len() ==> {
                        let row = #[trigger] out[e];
                        &&& row.0 == p.0
                        &&& row.1 == p.1
                        &&& row.2.len() == 5
                        &&& forall|s: int|
                            0 <= s < 5 ==> #[trigger] row.2[s] == (if build[at[e]].2[s] != 0 {
                                build[at[e]].2[s]
                            } else {
                                p.2[s]
                            })
                    }
            },
{
    let keys = hash_join::keys_of(build);
    let up = select::places(keys, p.0);
    let at = up.reverse();
    select::law_places(keys, p.0);
    assert forall|r: int| #[trigger] at.contains(r) <==> 0 <= r < build.len() && build[r].0
        == p.0 by {
        if at.contains(r) {
            let e = choose|e: int| 0 <= e < at.len() && at[e] == r;
            assert(up[up.len() - 1 - e] == r);
            assert(up.contains(r));
        }
        if 0 <= r < build.len() && build[r].0 == p.0 {
            assert(up.contains(r));
            let e = choose|e: int| 0 <= e < up.len() && up[e] == r;
            assert(at[up.len() - 1 - e] == r);
        }
    }
    assert(at.len() == up.len());
}

/// Probe rows are joined one after the other.
pub proof fn law_all_met(
    build: Seq<(i32, u64, Seq<u64>)>,
    a: Seq<(i32, u64, Seq<u64>)>,
    b: Seq<(i32, u64, Seq<u64>)>,
    p: (i32, u64, Seq<u64>),
)
    ensures
        all_met(build, Seq::<(i32, u64, Seq<u64>)>::empty()).len() == 0,
        all_met(build, seq![p]) == met(build, p),
        all_met(build, a + b) == all_met(build, a) + all_met(build, b),
    decreases b.len(),
{
    let none = Seq::<(i32, u64, Seq<u64>)>::empty();
    assert(seq![p].drop_last() =~= none);
    assert(all_met(build, none) =~= Seq::empty());
    assert(all_met(build, seq![p]) =~= met(build, p));
    if b.len() == 0 {
        assert(a + b =~= a);
        assert(all_met(build, a) + all_met(build, b) =~= all_met(build, a));
    } else {
        law_all_met(build, a, b.drop_last(), p);
        assert((a + b).drop_last() =~= a + b.drop_last());
        assert(all_met(build, a + b) =~= all_met(build, a) + all_met(build, b));
    }
}

/// What is left over of the rows `build`: those whose key no probe row has, all of them
/// and no others, as they are and in their order.
pub proof fn law_left_over(
    build: Seq<(i32, u64, Seq<u64>)>,
    probes: Seq<(i32, u64, Seq<u64>)>,
)
    ensures
        exists|at: Seq<int>|
            {
                let out = left_over(build, probes);
                &&& out.len() == #[trigger] at.len()
                &&& forall|r: int| #[trigger]
                    at.contains(r) <==> 0 <= r < build.len() && forall|i: int|
                        0 <= i < probes.len() ==> (#[trigger] probes[i]).0 != build[r].0
                &&& forall|e: int, f: int| 0 <= e < f < at.len() ==> at[e] < at[f]
                &&& forall|e: int| 0 <= e < at.len() ==> #[trigger] out[e] == build[at[e]]
            },
{
    let n = build.len() as int;
    let keys = hash_join::keys_of(build);
    let pk = hash_join::keys_of(probes);
    let at = select::select(0, n, probe::not_in(keys, pk));
    select::law_select(0, n, probe::not_in(keys, pk));
    assert forall|r: int| #[trigger] at.contains(r) <==> 0 <= r < build.len() && forall|i: int|
        0 <= i < probes.len() ==> (#[trigger] probes[i]).0 != build[r].0 by {
        if 0 <= r < n {
            if pk.contains(keys[r]) {
                let i = choose|i: int| 0 <= i < pk.len() && pk[i] == keys[r];
                assert(probes[i].0 == build[r].0);
            } else {
                assert forall|i: int| 0 <= i < probes.len() implies (#[trigger] probes[i]).0
                    != build[r].0 by {
                    assert(pk[i] == probes[i].0);
                }
            }
        }
    }
    assert(left_over(build, probes).len() == at.len());
}

/// The operators begin with a scan of the first table, and join every further table, with
/// its addresses in its own slot, to what has come out before: what the probes become, and
/// behind it what is left over.
pub proof fn law_operator_step(tables: Seq<TableData>, n: nat)
    requires
        1 <= n,
    ensures
        operator_rows(tables, 1) == scan::table_scan(&tables[0], 0),
        operator_rows(tables, n + 1) == all_met(
            operator_rows(tables, n),
            scan::table_scan(&tables[n as int], n as int),
        ) + left_over(
            operator_rows(tables, n),
            scan::table_scan(&tables[n as int], n as int),
        ),
        scanned(tables, 0) == 0,
        scanned(tables, n + 1) == scanned(tables, n) + tables[n as int].ht.rows(),
{
}

/// The hash tables of several tables are those of each, in their order.
pub proof fn law_hash_tables(tables: Seq<TableData>, t: int)
    requires
        0 <= t < tables.len(),
    ensures
        hash_tables(tables).len() == tables.len(),
        hash_tables(tables)[t] == tables[t].ht,
{
}

/// The operators fit if what is there before each join fits a build side, and what comes
/// out in the end can be counted.
pub proof fn law_operator_fits(tables: Seq<TableData>, k: nat)
    ensures
        operator_fits(tables, k) <==> operator_rows(tables, k).len() <= usize::MAX && forall|n: nat|
            1 <= n < k ==> 64 * (#[trigger] operator_rows(tables, n)).len() <= isize::MAX && 64
                + 64 * operator_rows(tables, n).len() <= 0x1_0000_0000_0000 && 64 + 64
                * operator_rows(tables, n).len() <= usize::MAX,
{
    if operator_fits(tables, k) {
        assert forall|n: nat| 1 <= n < k implies 64 * (#[trigger] operator_rows(tables, n)).len()
            <= isize::MAX && 64 + 64 * operator_rows(tables, n).len() <= 0x1_0000_0000_0000 && 64
            + 64 * operator_rows(tables, n).len() <= usize::MAX by {
            assert(hash_join::build_fits(operator_rows(tables, n).len() as int));
        }
    }
}

} // verus!
