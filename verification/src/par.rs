//! Work handed out to the threads of the current rayon pool.

use rayon::iter::{IntoParallelIterator, ParallelIterator};
use vstd::prelude::*;

verus! {

/// Calls `ParallelIterator::map` on the items of a vector and collects the
/// results into a vector. The claim: every item is passed to `f` once, and the
/// results stand in the order of the items, whichever thread computed them.
#[verifier::external_body]
pub(crate) fn par_map<T: Send, U: Send, F: Fn(T) -> U + Send + Sync>(
    items: Vec<T>,
    f: F,
) -> (out: Vec<U>)
    requires
        forall|i: int| 0 <= i < items@.len() ==> call_requires(f, (#[trigger] items@[i],)),
    ensures
        out@.len() == items@.len(),
        forall|i: int|
            0 <= i < out@.len() ==> call_ensures(f, (items@[i],), #[trigger] out@[i]),
{
    items.into_par_iter().map(f).collect()
}

/// Whether `out` can come from combining `items` pairwise with `op`, neighbours
/// with neighbours and in order, in at most `depth` rounds. Values of `identity`
/// may be put in between the items anywhere.
pub open spec fn combines<T, I: Fn() -> T, R: Fn(T, T) -> T>(
    items: Seq<T>,
    identity: I,
    op: R,
    depth: nat,
    out: T,
) -> bool
    decreases depth,
{
    ||| items.len() == 0 && call_ensures(identity, (), out)
    ||| items.len() == 1 && out == items[0]
    ||| depth > 0 && exists|k: int, left: T, right: T|
        0 <= k <= items.len() && combines(
            #[trigger] items.take(k),
            identity,
            op,
            (depth - 1) as nat,
            left,
        ) && combines(items.skip(k), identity, op, (depth - 1) as nat, right)
            && #[trigger] call_ensures(op, (left, right), out)
}

/// Whether `op` can be called on whatever two adjoining stretches of `items` can
/// be combined to.
pub open spec fn combinable<T, I: Fn() -> T, R: Fn(T, T) -> T>(
    items: Seq<T>,
    identity: I,
    op: R,
) -> bool {
    &&& call_requires(identity, ())
    &&& forall|i: int, j: int, k: int, d: nat, left: T, right: T|
        0 <= i <= j <= k <= items.len() && #[trigger] combines(
            items.subrange(i, j),
            identity,
            op,
            d,
            left,
        ) && #[trigger] combines(items.subrange(j, k), identity, op, d, right) ==> call_requires(
            op,
            (left, right),
        )
}

/// Calls `ParallelIterator::reduce` on the items of a vector. The claim: the
/// result comes from the items, in their order, by combining neighbours with
/// `op`; `identity` stands in for no items. Which neighbours are combined first
/// is left open.
#[verifier::external_body]
pub(crate) fn par_reduce<T: Send, I: Fn() -> T + Send + Sync, R: Fn(T, T) -> T + Send + Sync>(
    items: Vec<T>,
    identity: I,
    op: R,
) -> (out: T)
    requires
        combinable(items@, identity, op),
    ensures
        exists|d: nat| #[trigger] combines(items@, identity, op, d, out),
{
    items.into_par_iter().reduce(identity, op)
}

/// Calls `rayon::current_num_threads`. The claim: the pool has at least one
/// thread and no more than its counters can count. How many there are in between
/// depends on the machine and on the pool.
#[verifier::external_body]
pub(crate) fn current_num_threads() -> (n: usize)
    ensures
        1 <= n <= 65535,
{
    rayon::current_num_threads()
}

} // verus!
