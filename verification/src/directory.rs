//! The pointer table of a hash join: a power-of-two directory of entries, each
//! the head of a chain of rows.
//!
//! A row is filed under its hash. Its home bucket is the hash modulo the
//! capacity. From there on, linear probing stops at the first bucket that is
//! empty or that carries the salt of the hash, and the row becomes the new head
//! of the chain of that bucket. A probe walks the same path and so ends at the
//! chain that holds every row filed under the same hash.

use crate::bytes;
use crate::bytes::{read_i32, read_u64, write_u64};
use crate::ht_entry;
use crate::ht_entry::{increment_and_wrap, HtEntry};
use crate::row;
use crate::row::ARENA_BASE;
use crate::select;
use vstd::arithmetic::power2::*;
use vstd::prelude::*;

verus! {

/// The bucket that is `d` steps past the home bucket of `h`.
pub open spec fn bucket_at(h: u64, capacity: nat, d: int) -> int {
    (h as int + d) % (capacity as int)
}

/// Whether linear probing for `h` stops at bucket `s`: the bucket is empty, or
/// its chain carries the salt of `h`.
pub open spec fn stops_at(chains: Seq<Seq<int>>, hashes: Seq<u64>, h: u64, s: int) -> bool {
    chains[s].len() == 0 || ht_entry::same_salt(hashes[chains[s][0]], h)
}

/// Whether linear probing for `h` stops after exactly `d` steps.
pub open spec fn first_stop(chains: Seq<Seq<int>>, hashes: Seq<u64>, h: u64, d: int) -> bool {
    &&& 0 <= d < chains.len()
    &&& stops_at(chains, hashes, h, bucket_at(h, chains.len(), d))
    &&& forall|e: int|
        0 <= e < d ==> !stops_at(chains, hashes, h, #[trigger] bucket_at(h, chains.len(), e))
}

/// The bucket at which linear probing for `h` stops.
pub open spec fn stop_bucket(chains: Seq<Seq<int>>, hashes: Seq<u64>, h: u64) -> int {
    bucket_at(h, chains.len(), choose|d: int| first_stop(chains, hashes, h, d))
}

/// The chain that a probe with hash `h` walks.
pub open spec fn chain_of(chains: Seq<Seq<int>>, hashes: Seq<u64>, h: u64) -> Seq<int> {
    chains[stop_bucket(chains, hashes, h)]
}

/// The chains after `row` was filed under `hashes[row]`: it heads the chain at
/// which probing for its hash stops.
pub open spec fn link(chains: Seq<Seq<int>>, hashes: Seq<u64>, row: int) -> Seq<Seq<int>> {
    let s = stop_bucket(chains, hashes, hashes[row]);
    chains.update(s, seq![row] + chains[s])
}

/// The chains of a directory of `capacity` buckets into which the rows of
/// `order` were filed one after the other.
pub open spec fn link_all(hashes: Seq<u64>, capacity: nat, order: Seq<int>) -> Seq<Seq<int>>
    decreases order.len(),
{
    if order.len() == 0 {
        Seq::new(capacity, |s: int| Seq::<int>::empty())
    } else {
        link(link_all(hashes, capacity, order.drop_last()), hashes, order.last())
    }
}

/// Whether `order` lists some rows out of `n`, none of them twice.
pub open spec fn distinct_rows(order: Seq<int>, n: nat) -> bool {
    &&& order.no_duplicates()
    &&& forall|i: int| 0 <= i < order.len() ==> 0 <= #[trigger] order[i] < n
}

/// Whether `order` lists each of the rows `0..n` exactly once.
pub open spec fn lists_all(order: Seq<int>, n: nat) -> bool {
    &&& distinct_rows(order, n)
    &&& order.len() == n
    &&& forall|r: int| 0 <= r < n ==> #[trigger] order.contains(r)
}

/// A list of distinct rows is no longer than there are rows, and as long if it
/// lists them all.
pub proof fn lemma_distinct_len(order: Seq<int>, n: nat)
    requires
        distinct_rows(order, n),
    ensures
        order.len() <= n,
        (forall|r: int| 0 <= r < n ==> #[trigger] order.contains(r)) ==> order.len() == n,
{
    let all = vstd::set_lib::set_int_range(0, n as int);
    vstd::set_lib::lemma_int_range(0, n as int);
    order.unique_seq_to_set();
    assert(order.to_set().subset_of(all)) by {
        assert forall|r: int| order.to_set().contains(r) implies all.contains(r) by {
            let i = choose|i: int| 0 <= i < order.len() && order[i] == r;
            assert(0 <= order[i] < n);
        }
    }
    vstd::set_lib::lemma_len_subset(order.to_set(), all);
    if forall|r: int| 0 <= r < n ==> #[trigger] order.contains(r) {
        assert forall|r: int| all.contains(r) implies order.to_set().contains(r) by {
            assert(order.contains(r));
        }
        assert(all =~= order.to_set());
    }
}

/// Whether rows with equal hashes stand in `order` by increasing row number.
pub open spec fn stable(order: Seq<int>, hashes: Seq<u64>) -> bool {
    forall|i: int, j: int|
        0 <= i < j < order.len() && hashes[#[trigger] order[i]] == hashes[#[trigger] order[j]]
            ==> order[i] < order[j]
}

/// What linking keeps true: the rows of `order` are each on exactly one chain,
/// the one at which probing for the row's own hash stops, and nothing else is
/// on a chain.
pub open spec fn sound(chains: Seq<Seq<int>>, hashes: Seq<u64>, order: Seq<int>) -> bool {
    &&& forall|s: int, j: int|
        0 <= s < chains.len() && 0 <= j < chains[s].len() ==> {
            &&& order.contains(#[trigger] chains[s][j])
            &&& exists|d: int|
                first_stop(chains, hashes, hashes[chains[s][j]], d) && bucket_at(
                    hashes[chains[s][j]],
                    chains.len(),
                    d,
                ) == s
        }
    &&& forall|s: int| 0 <= s < chains.len() ==> (#[trigger] chains[s]).no_duplicates()
    &&& forall|r: int| #[trigger]
        order.contains(r) ==> exists|s: int, j: int|
            0 <= s < chains.len() && 0 <= j < chains[s].len() && #[trigger] chains[s][j] == r
}

/// Whether, on every chain, rows with equal hashes stand newest first.
pub open spec fn newest_first(chains: Seq<Seq<int>>, hashes: Seq<u64>) -> bool {
    forall|s: int, j: int, k: int|
        0 <= s < chains.len() && 0 <= j < k < chains[s].len() && hashes[#[trigger] chains[s][j]]
            == hashes[#[trigger] chains[s][k]] ==> chains[s][j] > chains[s][k]
}

pub proof fn lemma_first_stop_unique(
    chains: Seq<Seq<int>>,
    hashes: Seq<u64>,
    h: u64,
    d: int,
)
    requires
        first_stop(chains, hashes, h, d),
    ensures
        stop_bucket(chains, hashes, h) == bucket_at(h, chains.len(), d),
        0 <= stop_bucket(chains, hashes, h) < chains.len(),
        stops_at(chains, hashes, h, stop_bucket(chains, hashes, h)),
        forall|e: int| first_stop(chains, hashes, h, e) ==> e == d,
{
    assert forall|e: int| first_stop(chains, hashes, h, e) implies e == d by {
        if e < d {
            assert(!stops_at(chains, hashes, h, bucket_at(h, chains.len(), e)));
        }
        if d < e {
            assert(!stops_at(chains, hashes, h, bucket_at(h, chains.len(), d)));
        }
    }
    let e = choose|e: int| first_stop(chains, hashes, h, e);
    assert(first_stop(chains, hashes, h, e));
    vstd::arithmetic::div_mod::lemma_mod_bound(h as int + d, chains.len() as int);
}

/// Probing stops no later than at an empty bucket.
proof fn lemma_stop_before(
    chains: Seq<Seq<int>>,
    hashes: Seq<u64>,
    h: u64,
    from: int,
    d: int,
)
    requires
        0 <= from <= d < chains.len(),
        stops_at(chains, hashes, h, bucket_at(h, chains.len(), d)),
        forall|e: int|
            0 <= e < from ==> !stops_at(chains, hashes, h, #[trigger] bucket_at(h, chains.len(), e)),
    ensures
        exists|e: int| first_stop(chains, hashes, h, e),
    decreases d - from,
{
    if stops_at(chains, hashes, h, bucket_at(h, chains.len(), from)) {
        assert(first_stop(chains, hashes, h, from));
    } else {
        assert(from < d);
        lemma_stop_before(chains, hashes, h, from + 1, d);
    }
}

/// Every bucket is some number of steps past the home bucket.
pub proof fn lemma_distance(h: u64, capacity: nat, s: int) -> (d: int)
    requires
        0 <= s < capacity,
    ensures
        0 <= d < capacity,
        bucket_at(h, capacity, d) == s,
{
    let c = capacity as int;
    let d = (s - h as int) % c;
    vstd::arithmetic::div_mod::lemma_mod_bound(s - h as int, c);
    vstd::arithmetic::div_mod::lemma_add_mod_noop_right(h as int, s - h as int, c);
    vstd::arithmetic::div_mod::lemma_small_mod(s as nat, capacity);
    d
}

/// A directory with more buckets than rows has an empty bucket.
proof fn lemma_empty_bucket(chains: Seq<Seq<int>>, hashes: Seq<u64>, order: Seq<int>) -> (s: int)
    requires
        sound(chains, hashes, order),
        order.len() < chains.len(),
    ensures
        0 <= s < chains.len(),
        chains[s].len() == 0,
{
    if forall|s: int| 0 <= s < chains.len() ==> (#[trigger] chains[s]).len() > 0 {
        let heads = Seq::new(chains.len(), |s: int| chains[s][0]);
        assert(heads.no_duplicates()) by {
            assert forall|a: int, b: int|
                0 <= a < heads.len() && 0 <= b < heads.len() && a != b implies heads[a]
                != heads[b] by {
                assert(chains[a].len() > 0 && chains[b].len() > 0);
                let h = hashes[chains[a][0]];
                let da = choose|d: int|
                    first_stop(chains, hashes, h, d) && bucket_at(h, chains.len(), d) == a;
                lemma_first_stop_unique(chains, hashes, h, da);
                if heads[a] == heads[b] {
                    assert(chains[b][0] == chains[a][0]);
                    let db = choose|d: int|
                        first_stop(chains, hashes, h, d) && bucket_at(h, chains.len(), d) == b;
                    assert(first_stop(chains, hashes, h, db));
                }
            }
        }
        heads.unique_seq_to_set();
        order.lemma_cardinality_of_set();
        assert(heads.to_set().subset_of(order.to_set())) by {
            assert forall|r: int| heads.to_set().contains(r) implies order.to_set().contains(r) by {
                let s = choose|s: int| 0 <= s < heads.len() && heads[s] == r;
                assert(chains[s].len() > 0);
                assert(order.contains(chains[s][0]));
            }
        }
        vstd::set_lib::lemma_len_subset(heads.to_set(), order.to_set());
        assert(false);
    }
    choose|s: int| 0 <= s < chains.len() && chains[s].len() == 0
}

/// Which buckets have a chain.
pub open spec fn used(chains: Seq<Seq<int>>) -> spec_fn(int) -> bool {
    |s: int| chains[s].len() > 0
}

/// No more buckets have a chain than rows are filed.
pub proof fn lemma_used(chains: Seq<Seq<int>>, hashes: Seq<u64>, order: Seq<int>)
    requires
        sound(chains, hashes, order),
    ensures
        select::select(0, chains.len() as int, used(chains)).len() <= order.len(),
{
    let at = select::select(0, chains.len() as int, used(chains));
    select::lemma_select(0, chains.len() as int, used(chains));
    let heads = Seq::new(at.len(), |i: int| chains[at[i]][0]);
    assert forall|i: int, j: int|
        0 <= i < heads.len() && 0 <= j < heads.len() && i != j implies heads[i] != heads[j] by {
        let a = at[i];
        let b = at[j];
        assert(used(chains)(a) && used(chains)(b));
        assert(a != b);
        let h = hashes[chains[a][0]];
        let da = choose|d: int|
            first_stop(chains, hashes, h, d) && bucket_at(h, chains.len(), d) == a;
        lemma_first_stop_unique(chains, hashes, h, da);
        if heads[i] == heads[j] {
            assert(chains[b][0] == chains[a][0]);
            let db = choose|d: int|
                first_stop(chains, hashes, h, d) && bucket_at(h, chains.len(), d) == b;
            assert(first_stop(chains, hashes, h, db));
        }
    }
    heads.unique_seq_to_set();
    order.lemma_cardinality_of_set();
    assert(heads.to_set().subset_of(order.to_set())) by {
        assert forall|r: int| heads.to_set().contains(r) implies order.to_set().contains(r) by {
            let i = choose|i: int| 0 <= i < heads.len() && heads[i] == r;
            assert(used(chains)(at[i]));
            assert(order.contains(chains[at[i]][0]));
        }
    }
    vstd::set_lib::lemma_len_subset(heads.to_set(), order.to_set());
}

/// As long as there are more buckets than rows, probing stops.
pub proof fn lemma_probe_stops(
    chains: Seq<Seq<int>>,
    hashes: Seq<u64>,
    order: Seq<int>,
    h: u64,
) -> (d: int)
    requires
        sound(chains, hashes, order),
        order.len() < chains.len(),
    ensures
        first_stop(chains, hashes, h, d),
        stop_bucket(chains, hashes, h) == bucket_at(h, chains.len(), d),
        0 <= stop_bucket(chains, hashes, h) < chains.len(),
{
    let s = lemma_empty_bucket(chains, hashes, order);
    let d0 = lemma_distance(h, chains.len(), s);
    lemma_stop_before(chains, hashes, h, 0, d0);
    let d = choose|d: int| first_stop(chains, hashes, h, d);
    lemma_first_stop_unique(chains, hashes, h, d);
    d
}

/// A probe with hash `h` reaches every row filed under `h`, once, and only rows
/// that carry its salt.
pub proof fn lemma_chain_complete(
    chains: Seq<Seq<int>>,
    hashes: Seq<u64>,
    order: Seq<int>,
    h: u64,
)
    requires
        sound(chains, hashes, order),
        order.len() < chains.len(),
    ensures
        chain_of(chains, hashes, h).no_duplicates(),
        forall|r: int|
            order.contains(r) && hashes[r] == h ==> #[trigger] chain_of(
                chains,
                hashes,
                h,
            ).contains(r),
        forall|j: int|
            0 <= j < chain_of(chains, hashes, h).len() ==> order.contains(
                #[trigger] chain_of(chains, hashes, h)[j],
            ) && ht_entry::same_salt(hashes[chain_of(chains, hashes, h)[j]], h),
{
    lemma_probe_stops(chains, hashes, order, h);
    let s = stop_bucket(chains, hashes, h);
    let c = chains[s];
    assert forall|r: int| order.contains(r) && hashes[r] == h implies #[trigger] c.contains(r) by {
        let (s2, j) = choose|s2: int, j: int|
            0 <= s2 < chains.len() && 0 <= j < chains[s2].len() && #[trigger] chains[s2][j] == r;
        let d2 = choose|d2: int|
            first_stop(chains, hashes, hashes[chains[s2][j]], d2) && bucket_at(
                hashes[chains[s2][j]],
                chains.len(),
                d2,
            ) == s2;
        lemma_first_stop_unique(chains, hashes, h, d2);
        assert(c[j] == r);
    }
    assert forall|j: int| 0 <= j < c.len() implies order.contains(#[trigger] c[j])
        && ht_entry::same_salt(hashes[c[j]], h) by {
        let r = chains[s][j];
        let d2 = choose|d2: int|
            first_stop(chains, hashes, hashes[r], d2) && bucket_at(hashes[r], chains.len(), d2)
                == s;
        assert(stops_at(chains, hashes, hashes[r], s));
        assert(stops_at(chains, hashes, h, s));
    }
}

/// Filing one more row keeps the chains sound, and keeps rows with equal hashes
/// newest first if the new row comes after them.
proof fn lemma_link_sound(chains: Seq<Seq<int>>, hashes: Seq<u64>, order: Seq<int>, row: int)
    requires
        sound(chains, hashes, order),
        order.len() < chains.len(),
        !order.contains(row),
    ensures
        link(chains, hashes, row).len() == chains.len(),
        sound(link(chains, hashes, row), hashes, order.push(row)),
        newest_first(chains, hashes) && (forall|r: int|
            #[trigger] order.contains(r) && hashes[r] == hashes[row] ==> r < row) ==> newest_first(
            link(chains, hashes, row),
            hashes,
        ),
{
    let h = hashes[row];
    let d0 = lemma_probe_stops(chains, hashes, order, h);
    let s = stop_bucket(chains, hashes, h);
    let new = link(chains, hashes, row);
    let order2 = order.push(row);
    let cap = chains.len();
    assert(new[s] =~= seq![row] + chains[s]);
    assert(stops_at(chains, hashes, h, s));
    assert forall|r: int| #[trigger] order.contains(r) implies order2.contains(r) by {
        let i = choose|i: int| 0 <= i < order.len() && order[i] == r;
        assert(order2[i] == r);
    }
    assert(order2[order.len() as int] == row);
    assert(order2.contains(row));
    assert forall|t: int, j: int| 0 <= t < new.len() && 0 <= j < new[t].len() implies {
        &&& order2.contains(#[trigger] new[t][j])
        &&& exists|d: int|
            first_stop(new, hashes, hashes[new[t][j]], d) && bucket_at(
                hashes[new[t][j]],
                new.len(),
                d,
            ) == t
    } by {
        let r = new[t][j];
        let hr = hashes[r];
        if t == s && j == 0 {
            assert(first_stop(new, hashes, h, d0)) by {
                assert forall|e: int| 0 <= e < d0 implies !stops_at(
                    new,
                    hashes,
                    h,
                    #[trigger] bucket_at(h, new.len(), e),
                ) by {
                    let x = bucket_at(h, cap, e);
                    assert(!stops_at(chains, hashes, h, x));
                    vstd::arithmetic::div_mod::lemma_mod_bound(h as int + e, cap as int);
                    assert(x != s);
                }
            }
        } else {
            let j1 = if t == s {
                j - 1
            } else {
                j
            };
            assert(chains[t][j1] == r);
            let d = choose|d: int| first_stop(chains, hashes, hr, d) && bucket_at(hr, cap, d) == t;
            assert(first_stop(new, hashes, hr, d)) by {
                assert(stops_at(chains, hashes, hr, t));
                assert(stops_at(new, hashes, hr, t));
                assert forall|e: int| 0 <= e < d implies !stops_at(
                    new,
                    hashes,
                    hr,
                    #[trigger] bucket_at(hr, new.len(), e),
                ) by {
                    let x = bucket_at(hr, cap, e);
                    assert(!stops_at(chains, hashes, hr, x));
                    vstd::arithmetic::div_mod::lemma_mod_bound(hr as int + e, cap as int);
                }
            }
        }
    }
    assert forall|t: int| 0 <= t < new.len() implies (#[trigger] new[t]).no_duplicates() by {
        if t == s {
            assert(chains[s].no_duplicates());
            assert forall|j: int, k: int|
                0 <= j < new[s].len() && 0 <= k < new[s].len() && j != k implies new[s][j]
                != new[s][k] by {
                if j > 0 {
                    assert(order.contains(chains[s][j - 1]));
                }
                if k > 0 {
                    assert(order.contains(chains[s][k - 1]));
                }
            }
        } else {
            assert(new[t] == chains[t]);
        }
    }
    assert forall|r: int| #[trigger] order2.contains(r) implies exists|t: int, j: int|
        0 <= t < new.len() && 0 <= j < new[t].len() && #[trigger] new[t][j] == r by {
        if r == row {
            assert(new[s][0] == r);
        } else {
            let i = choose|i: int| 0 <= i < order2.len() && order2[i] == r;
            assert(order[i] == r);
            assert(order.contains(r));
            let (t, j) = choose|t: int, j: int|
                0 <= t < chains.len() && 0 <= j < chains[t].len() && #[trigger] chains[t][j] == r;
            if t == s {
                assert(new[s][j + 1] == r);
            } else {
                assert(new[t][j] == r);
            }
        }
    }
    if newest_first(chains, hashes) && (forall|r: int|
        #[trigger] order.contains(r) && hashes[r] == hashes[row] ==> r < row) {
        assert forall|t: int, j: int, k: int|
            0 <= t < new.len() && 0 <= j < k < new[t].len() && hashes[#[trigger] new[t][j]]
                == hashes[#[trigger] new[t][k]] implies new[t][j] > new[t][k] by {
            if t == s {
                assert(new[t][k] == chains[t][k - 1]);
                if j == 0 {
                    assert(order.contains(chains[t][k - 1]));
                } else {
                    assert(new[t][j] == chains[t][j - 1]);
                }
            } else {
                assert(new[t] == chains[t]);
            }
        }
    }
}

/// The chains that result from filing the rows of `order` are sound; if rows
/// with equal hashes come by increasing row number, they are newest first.
pub proof fn lemma_link_all_sound(hashes: Seq<u64>, capacity: nat, order: Seq<int>)
    requires
        distinct_rows(order, hashes.len()),
        order.len() < capacity,
    ensures
        link_all(hashes, capacity, order).len() == capacity,
        sound(link_all(hashes, capacity, order), hashes, order),
        stable(order, hashes) ==> newest_first(link_all(hashes, capacity, order), hashes),
    decreases order.len(),
{
    if order.len() > 0 {
        let prev = order.drop_last();
        let row = order.last();
        assert(order =~= prev.push(row));
        lemma_link_all_sound(hashes, capacity, prev);
        assert(!prev.contains(row));
        if stable(order, hashes) {
            assert(stable(prev, hashes)) by {
                assert forall|i: int, j: int|
                    0 <= i < j < prev.len() && hashes[#[trigger] prev[i]]
                        == hashes[#[trigger] prev[j]] implies prev[i] < prev[j] by {
                    assert(order[i] < order[j]);
                }
            }
            assert forall|r: int| #[trigger] prev.contains(r) && hashes[r] == hashes[row] implies r
                < row by {
                let i = choose|i: int| 0 <= i < prev.len() && prev[i] == r;
                assert(order[i] < order[order.len() - 1]);
            }
        }
        lemma_link_sound(link_all(hashes, capacity, prev), hashes, prev, row);
    }
}

/// The link that row number `j` of `chain` holds: the address of the next row,
/// or 0 at the end.
pub open spec fn next_link(chain: Seq<int>, j: int, row_size: int) -> int {
    if j + 1 < chain.len() {
        row::row_address(chain[j + 1], row_size)
    } else {
        0
    }
}

/// Whether the entries and the links in the rows of `data` spell out `chains`.
pub open spec fn represents(
    entries: Seq<HtEntry>,
    data: Seq<u8>,
    row_size: int,
    chains: Seq<Seq<int>>,
    hashes: Seq<u64>,
) -> bool {
    &&& entries.len() == chains.len()
    &&& forall|s: int|
        0 <= s < chains.len() ==> (#[trigger] entries[s]).0 == (if chains[s].len() == 0 {
            0
        } else {
            ht_entry::packed(hashes[chains[s][0]], row::row_address(chains[s][0], row_size))
        })
    &&& forall|s: int, j: int|
        0 <= s < chains.len() && 0 <= j < chains[s].len() ==> bytes::u64_at(
            data,
            chains[s][j] * row_size,
        ) == #[trigger] next_link(chains[s], j, row_size)
}

/// Whether `n` rows of `row_size` bytes fit `data` and have addresses that fit
/// an entry.
pub open spec fn addressable(data: Seq<u8>, n: nat, row_size: int) -> bool {
    &&& row_size >= row::HEADER_SIZE
    &&& n * row_size <= data.len()
    &&& ARENA_BASE + data.len() <= ht_entry::ADDRESS_SPACE
    &&& ARENA_BASE + data.len() <= usize::MAX
}

/// The rows of `chain` whose `i32` field at `key_off` is `key`, in chain order.
pub open spec fn with_key(
    chain: Seq<int>,
    data: Seq<u8>,
    row_size: int,
    key_off: int,
    key: i32,
) -> Seq<int> {
    chain.filter(|r: int| bytes::i32_at(data, r * row_size + key_off) == key)
}

/// The pointer table over the rows of an arena.
pub struct Directory {
    entries: Vec<HtEntry>,
    capacity_mask: usize,
    filed: Ghost<Seq<u64>>,
    order: Ghost<Seq<int>>,
}

impl Directory {
    /// The entry of each bucket.
    pub closed spec fn words(self) -> Seq<HtEntry> {
        self.entries@
    }

    /// Number of buckets.
    pub open spec fn capacity(self) -> nat {
        self.words().len()
    }

    /// What bucket numbers are masked with.
    pub closed spec fn index_mask(self) -> int {
        self.capacity_mask as int
    }

    /// The hash under which each row is filed, or is to be filed.
    pub closed spec fn filed(self) -> Seq<u64> {
        self.filed@
    }

    /// The rows filed so far, in the order in which they were filed.
    pub closed spec fn order(self) -> Seq<int> {
        self.order@
    }

    /// The chain of each bucket.
    pub open spec fn chains(self) -> Seq<Seq<int>> {
        link_all(self.filed(), self.capacity(), self.order())
    }

    /// The chain that a probe with hash `h` walks.
    pub open spec fn chain(self, h: u64) -> Seq<int> {
        chain_of(self.chains(), self.filed(), h)
    }

    /// The directory is well formed over the rows of `data`.
    pub open spec fn wf(self, data: Seq<u8>, row_size: int) -> bool {
        &&& self.index_mask() + 1 == self.capacity()
        &&& row::is_power_of_two(self.capacity() as int)
        &&& distinct_rows(self.order(), self.filed().len())
        &&& self.order().len() < self.capacity()
        &&& represents(self.words(), data, row_size, self.chains(), self.filed())
        &&& addressable(data, self.filed().len(), row_size)
    }

    /// A directory without buckets.
    pub fn unbuilt() -> (r: Self)
        ensures
            r.capacity() == 0,
            r.index_mask() == 0,
            r.filed() == Seq::<u64>::empty(),
            r.order() == Seq::<int>::empty(),
    {
        Directory {
            entries: Vec::new(),
            capacity_mask: 0,
            filed: Ghost(Seq::empty()),
            order: Ghost(Seq::empty()),
        }
    }

    /// A directory of `capacity` empty buckets, into which the rows of `data`
    /// are to be filed under `hashes`.
    pub(crate) fn with_capacity(
        capacity: usize,
        Ghost(data): Ghost<Seq<u8>>,
        Ghost(row_size): Ghost<int>,
        Ghost(hashes): Ghost<Seq<u64>>,
    ) -> (r: Self)
        requires
            row::is_power_of_two(capacity as int),
            addressable(data, hashes.len(), row_size),
        ensures
            r.wf(data, row_size),
            r.capacity() == capacity,
            r.filed() == hashes,
            r.order() == Seq::<int>::empty(),
    {
        proof {
            let k = choose|k: nat| #[trigger] pow2(k) == capacity;
            lemma_pow2_pos(k);
        }
        let entries: Vec<HtEntry> = vec![HtEntry::empty(); capacity];
        Directory {
            entries,
            capacity_mask: capacity - 1,
            filed: Ghost(hashes),
            order: Ghost(Seq::empty()),
        }
    }

    /// The capacity mask: one less than the number of buckets, 0 for an unbuilt
    /// directory.
    pub fn mask(&self) -> (m: usize)
        ensures
            m == self.index_mask(),
    {
        self.capacity_mask
    }

    /// The entry of each bucket.
    pub fn entries(&self) -> (e: &[HtEntry])
        ensures
            e@ == self.words(),
    {
        self.entries.as_slice()
    }

    /// Number of buckets.
    pub fn len(&self) -> (n: usize)
        ensures
            n == self.capacity(),
    {
        self.entries.len()
    }
}

pub(crate) proof fn lemma_mask_is_mod(h: u64, capacity: usize)
    requires
        row::is_power_of_two(capacity as int),
    ensures
        capacity > 0,
        h & ((capacity - 1) as usize) as u64 == h as int % capacity as int,
        h & ((capacity - 1) as usize) as u64 <= usize::MAX,
{
    let k = choose|k: nat| #[trigger] pow2(k) == capacity;
    row::lemma_exponent_in_usize(capacity, k);
    lemma_pow2_pos(k);
    vstd::bits::lemma_u64_low_bits_mask_is_mod(h, k);
    vstd::bits::lemma_u64_pow2_no_overflow(k);
}

pub(crate) proof fn lemma_wrap_is_mod(b: usize, capacity: usize)
    requires
        row::is_power_of_two(capacity as int),
    ensures
        b & ((capacity - 1) as usize) == b as int % capacity as int,
{
    let k = choose|k: nat| #[trigger] pow2(k) == capacity;
    row::lemma_exponent_in_usize(capacity, k);
    lemma_pow2_pos(k);
    vstd::bits::lemma_usize_low_bits_mask_is_mod(b, k);
}

/// One step further along the probe path.
proof fn lemma_next_bucket(h: u64, capacity: nat, d: int)
    requires
        capacity > 0,
    ensures
        (bucket_at(h, capacity, d) + 1) % (capacity as int) == bucket_at(h, capacity, d + 1),
        0 <= bucket_at(h, capacity, d) < capacity,
{
    vstd::arithmetic::div_mod::lemma_mod_bound(h as int + d, capacity as int);
    vstd::arithmetic::div_mod::lemma_add_mod_noop(h as int + d, 1, capacity as int);
    vstd::arithmetic::div_mod::lemma_add_mod_noop(bucket_at(h, capacity, d), 1, capacity as int);
    vstd::arithmetic::div_mod::lemma_small_mod(bucket_at(h, capacity, d) as nat, capacity);
}

impl Directory {
    /// What a well-formed directory says about the entry of bucket `s`.
    proof fn lemma_entry(self, data: Seq<u8>, row_size: int, s: int)
        requires
            self.wf(data, row_size),
            0 <= s < self.capacity(),
        ensures
            self.chains().len() == self.capacity(),
            sound(self.chains(), self.filed(), self.order()),
            self.chains()[s].len() == 0 <==> self.entries@[s].0 == 0,
            self.chains()[s].len() > 0 ==> {
                let r = self.chains()[s][0];
                let w = self.entries@[s].0;
                &&& 0 <= r < self.filed().len()
                &&& row::row_address(r, row_size) + row_size <= ARENA_BASE + data.len()
                &&& w % ht_entry::ADDRESS_SPACE == row::row_address(r, row_size)
                &&& forall|h: u64|
                    (#[trigger] (h | ht_entry::POINTER_MASK) == w | ht_entry::POINTER_MASK)
                        <==> ht_entry::same_salt(self.filed()[r], h)
            },
    {
        lemma_link_all_sound(self.filed(), self.capacity(), self.order());
        let chains = self.chains();
        if chains[s].len() > 0 {
            let r = chains[s][0];
            assert(self.order().contains(r));
            row::lemma_row_in_arena(r, self.filed().len(), row_size);
            let addr = row::row_address(r, row_size);
            let w = self.entries@[s].0;
            assert forall|h: u64|
                (#[trigger] (h | ht_entry::POINTER_MASK) == w | ht_entry::POINTER_MASK)
                    <==> ht_entry::same_salt(self.filed()[r], h) by {
                ht_entry::law_entry_round_trip(self.filed()[r], addr, h);
            }
            ht_entry::law_entry_round_trip(self.filed()[r], addr, 0);
        }
    }

    /// What the word of bucket `s` of a well-formed directory holds: 0 for an empty
    /// chain, else the address of the first row of the chain and the salt of its
    /// hash.
    pub(crate) proof fn lemma_word(self, data: Seq<u8>, row_size: int, s: int)
        requires
            self.wf(data, row_size),
            0 <= s < self.capacity(),
        ensures
            self.chains().len() == self.capacity(),
            sound(self.chains(), self.filed(), self.order()),
            self.chains()[s].len() == 0 <==> self.words()[s].0 == 0,
            self.chains()[s].len() > 0 ==> {
                &&& self.words()[s].0 % ht_entry::ADDRESS_SPACE == row::row_address(
                    self.chains()[s][0],
                    row_size,
                )
                &&& forall|h: u64|
                    (#[trigger] (h | ht_entry::POINTER_MASK) == self.words()[s].0
                        | ht_entry::POINTER_MASK) <==> ht_entry::same_salt(
                        self.filed()[self.chains()[s][0]],
                        h,
                    )
            },
    {
        self.lemma_entry(data, row_size, s);
    }

    /// Where the entry of bucket `s` of a well-formed directory leads.
    proof fn lemma_head(self, data: Seq<u8>, row_size: int, s: int)
        requires
            self.wf(data, row_size),
            0 <= s < self.capacity(),
        ensures
            self.chains().len() == self.capacity(),
            sound(self.chains(), self.filed(), self.order()),
            self.entries@[s].0 % ht_entry::ADDRESS_SPACE == (if self.chains()[s].len() == 0 {
                0
            } else {
                row::row_address(self.chains()[s][0], row_size)
            }),
            self.entries@[s].0 % ht_entry::ADDRESS_SPACE <= usize::MAX,
    {
        self.lemma_entry(data, row_size, s);
    }

    /// What a well-formed directory says about row number `j` on the chain of
    /// bucket `s`: where it lies and what its link holds.
    proof fn lemma_node(self, data: Seq<u8>, row_size: int, s: int, j: int)
        requires
            self.wf(data, row_size),
            0 <= s < self.capacity(),
            0 <= j < self.chains()[s].len(),
        ensures
            ({
                let r = self.chains()[s][j];
                &&& 0 <= r < self.filed().len()
                &&& 0 <= r * row_size
                &&& r * row_size + row_size <= data.len()
                &&& (r * row_size) / row_size == r
                &&& bytes::u64_at(data, r * row_size) == next_link(
                    self.chains()[s],
                    j,
                    row_size,
                )
                &&& 0 <= next_link(self.chains()[s], j, row_size) <= usize::MAX
                &&& next_link(self.chains()[s], j, row_size) == 0 <==> j + 1
                    == self.chains()[s].len()
            }),
    {
        self.lemma_entry(data, row_size, s);
        let chain = self.chains()[s];
        assert(self.order().contains(self.chains()[s][j]));
        row::lemma_row_in_arena(chain[j], self.filed().len(), row_size);
        lemma_offset_is_row(chain[j], row_size);
        if j + 1 < chain.len() {
            assert(self.order().contains(self.chains()[s][j + 1]));
            row::lemma_row_in_arena(chain[j + 1], self.filed().len(), row_size);
        }
    }

    /// The directory stays well formed over rows that change anywhere but in
    /// their links.
    pub(crate) proof fn lemma_links_kept(self, before: Seq<u8>, after: Seq<u8>, row_size: int)
        requires
            self.wf(before, row_size),
            after.len() == before.len(),
            forall|r: int|
                0 <= r < self.filed().len() ==> #[trigger] bytes::u64_at(after, r * row_size)
                    == bytes::u64_at(before, r * row_size),
        ensures
            self.wf(after, row_size),
    {
        let chains = self.chains();
        lemma_link_all_sound(self.filed(), self.capacity(), self.order());
        assert forall|s: int, j: int|
            0 <= s < chains.len() && 0 <= j < chains[s].len() implies bytes::u64_at(
            after,
            chains[s][j] * row_size,
        ) == #[trigger] next_link(chains[s], j, row_size) by {
            assert(self.order().contains(chains[s][j]));
        }
    }

    /// Linear probing: the bucket at which a probe for `h` stops.
    fn find_bucket(&self, h: u64, Ghost(data): Ghost<Seq<u8>>, Ghost(row_size): Ghost<int>) -> (b:
        usize)
        requires
            self.wf(data, row_size),
        ensures
            b < self.capacity(),
            b == stop_bucket(self.chains(), self.filed(), h),
    {
        let salt: u64 = HtEntry::extract_salt(h);
        let ghost chains = self.chains();
        let ghost cap = self.capacity();
        proof {
            lemma_link_all_sound(self.filed(), cap, self.order());
            lemma_mask_is_mod(h, self.entries.len());
        }
        let ghost stop = lemma_probe_stops(chains, self.filed(), self.order(), h);
        let ghost mut d: int = 0;
        let mut bucket: usize = (h & (self.capacity_mask as u64)) as usize;
        loop
            invariant
                self.wf(data, row_size),
                chains == self.chains(),
                cap == self.capacity(),
                cap == chains.len(),
                salt == h | ht_entry::POINTER_MASK,
                first_stop(chains, self.filed(), h, stop),
                0 <= d <= stop,
                bucket == bucket_at(h, cap, d),
                bucket < cap,
            decreases stop - d,
        {
            let entry: HtEntry = self.entries[bucket];
            proof {
                self.lemma_entry(data, row_size, bucket as int);
                lemma_first_stop_unique(chains, self.filed(), h, stop);
                lemma_next_bucket(h, cap, d);
                lemma_wrap_is_mod((bucket + 1) as usize, self.entries.len());
            }
            if !entry.is_occupied() {
                assert(d == stop);
                return bucket;
            }
            if entry.salt() == salt {
                assert(d == stop);
                return bucket;
            }
            assert(d < stop);
            increment_and_wrap(&mut bucket, self.capacity_mask);
            proof {
                d = d + 1;
            }
        }
    }

    /// Files `row` under `h`: the row becomes the head of the chain at which
    /// probing for `h` stops, and its link leads to the former head.
    pub(crate) fn insert_row_serial(
        &mut self,
        data: &mut [u8],
        row_size: usize,
        row: usize,
        h: u64,
    )
        requires
            old(self).wf(old(data)@, row_size as int),
            row < old(self).filed().len(),
            h == old(self).filed()[row as int],
            !old(self).order().contains(row as int),
            old(self).order().len() + 1 < old(self).capacity(),
        ensures
            final(self).wf(final(data)@, row_size as int),
            final(self).capacity() == old(self).capacity(),
            final(self).filed() == old(self).filed(),
            final(self).order() == old(self).order().push(row as int),
            only_link_changed(old(data)@, final(data)@, row_size as int, row as int),
    {
        let ghost data0 = data@;
        let ghost chains = self.chains();
        let ghost hashes = self.filed();
        let ghost order = self.order();
        let ghost rs = row_size as int;
        let ghost entries0 = self.entries@;
        let bucket: usize = self.find_bucket(h, Ghost(data@), Ghost(row_size as int));
        let entry: HtEntry = self.entries[bucket];
        proof {
            self.lemma_head(data0, rs, bucket as int);
            row::lemma_row_in_arena(row as int, hashes.len(), rs);
        }
        let old_ptr: usize = entry.pointer();
        let start: usize = row * row_size;
        let row_ptr: usize = ARENA_BASE + start;
        write_u64(data, start + row::HEADER_NEXT_PTR, old_ptr as u64);
        self.entries.set(bucket, HtEntry::new(h, row_ptr));
        proof {
            let order2 = order.push(row as int);
            self.order@ = order2;
            assert(order2.drop_last() =~= order);
            assert(distinct_rows(order2, hashes.len()));
            lemma_insert_represents(
                entries0,
                data0,
                rs,
                chains,
                hashes,
                order,
                row as int,
                bucket as int,
                old_ptr as u64,
            );
            assert(self.chains() == link(chains, hashes, row as int));
        }
    }

    /// Files the rows listed in `rows`, one after the other.
    pub(crate) fn insert_rows(
        &mut self,
        data: &mut [u8],
        row_size: usize,
        hashes: &[u64],
        rows: &[usize],
    )
        requires
            old(self).wf(old(data)@, row_size as int),
            old(self).filed() == hashes@,
            distinct_rows(
                old(self).order() + rows@.map_values(|r: usize| r as int),
                hashes@.len(),
            ),
            old(self).order().len() + rows@.len() < old(self).capacity(),
        ensures
            final(self).wf(final(data)@, row_size as int),
            final(self).capacity() == old(self).capacity(),
            final(self).filed() == old(self).filed(),
            final(self).order() == old(self).order() + rows@.map_values(|r: usize| r as int),
            only_links_changed(old(data)@, final(data)@, row_size as int),
    {
        let ghost order = self.order();
        let ghost more = rows@.map_values(|r: usize| r as int);
        let ghost before = data@;
        let n: usize = rows.len();
        let mut i: usize = 0;
        assert(order + more.take(0) =~= order);
        while i < n
            invariant
                n == rows@.len(),
                i <= n,
                more == rows@.map_values(|r: usize| r as int),
                self.wf(data@, row_size as int),
                self.filed() == hashes@,
                self.capacity() == old(self).capacity(),
                distinct_rows(order + more, hashes@.len()),
                order.len() + n < self.capacity(),
                self.order() == order + more.take(i as int),
                only_links_changed(before, data@, row_size as int),
            decreases n - i,
        {
            let row: usize = rows[i];
            proof {
                let done = order + more.take(i as int);
                assert((order + more)[order.len() + i] == row);
                assert(!done.contains(row as int)) by {
                    if done.contains(row as int) {
                        let k = choose|k: int| 0 <= k < done.len() && done[k] == row;
                        assert((order + more)[k] == row);
                    }
                }
                assert(done.push(row as int) =~= order + more.take(i + 1));
            }
            let ghost mid = data@;
            self.insert_row_serial(data, row_size, row, hashes[row]);
            proof {
                lemma_one_link_changed(before, mid, data@, row_size as int, row as int);
            }
            i += 1;
        }
        assert(more.take(n as int) =~= more);
    }

    /// Whether a probe with hash `h` and key `key` has a match: the first row
    /// on the chain of `h` whose key, at offset `key_off` in the row, is `key`.
    pub(crate) fn first_match(
        &self,
        data: &[u8],
        row_size: usize,
        key_off: usize,
        h: u64,
        key: i32,
    ) -> (r: Option<usize>)
        requires
            self.wf(data@, row_size as int),
            key_off + 4 <= row_size,
        ensures
            ({
                let found = with_key(
                    self.chain(h),
                    data@,
                    row_size as int,
                    key_off as int,
                    key,
                );
                match r {
                    Some(row) => found.len() > 0 && row == found[0],
                    None => found.len() == 0,
                }
            }),
    {
        let ghost chain = self.chain(h);
        let ghost rs = row_size as int;
        let ghost is_match = |r: int| bytes::i32_at(data@, r * rs + key_off) == key;
        let bucket: usize = self.find_bucket(h, Ghost(data@), Ghost(row_size as int));
        proof {
            self.lemma_entry(data@, rs, bucket as int);
        }
        let mut p: usize = self.entries[bucket].pointer();
        let ghost mut j: int = 0;
        assert(chain.take(0) =~= Seq::empty());
        assert(chain.take(0).filter(is_match) =~= Seq::empty());
        while p != 0
            invariant
                self.wf(data@, row_size as int),
                key_off + 4 <= row_size,
                rs == row_size,
                bucket == stop_bucket(self.chains(), self.filed(), h),
                bucket < self.capacity(),
                chain == self.chain(h),
                is_match == (|r: int| bytes::i32_at(data@, r * rs + key_off) == key),
                0 <= j <= chain.len(),
                p == (if j < chain.len() {
                    row::row_address(chain[j], rs)
                } else {
                    0
                }),
                chain.take(j).filter(is_match).len() == 0,
            decreases chain.len() - j,
        {
            proof {
                self.lemma_node(data@, rs, bucket as int, j);
                lemma_filter_step(chain, is_match, j);
            }
            let off: usize = p - ARENA_BASE;
            let row_key: i32 = read_i32(data, off + key_off);
            if row_key == key {
                proof {
                    lemma_filter_first(chain, is_match, j, chain.len() as int);
                    assert(chain.take(chain.len() as int) =~= chain);
                }
                return Some(off / row_size);
            }
            p = read_u64(data, off + row::HEADER_NEXT_PTR) as usize;
            proof {
                j = j + 1;
            }
        }
        assert(chain.take(j) =~= chain);
        None
    }

    /// The rows on the chain of `h` whose key, at offset `key_off` in the row,
    /// is `key`, in chain order.
    pub(crate) fn matching_rows(
        &self,
        data: &[u8],
        row_size: usize,
        key_off: usize,
        h: u64,
        key: i32,
    ) -> (found: Vec<usize>)
        requires
            self.wf(data@, row_size as int),
            key_off + 4 <= row_size,
        ensures
            found@.map_values(|x: usize| x as int) == with_key(
                self.chain(h),
                data@,
                row_size as int,
                key_off as int,
                key,
            ),
    {
        let ghost chain = self.chain(h);
        let ghost rs = row_size as int;
        let ghost is_match = |r: int| bytes::i32_at(data@, r * rs + key_off) == key;
        let bucket: usize = self.find_bucket(h, Ghost(data@), Ghost(row_size as int));
        proof {
            self.lemma_entry(data@, rs, bucket as int);
        }
        let mut found: Vec<usize> = Vec::new();
        let mut p: usize = self.entries[bucket].pointer();
        let ghost mut j: int = 0;
        assert(chain.take(0) =~= Seq::empty());
        assert(found@.map_values(|x: usize| x as int) =~= chain.take(0).filter(is_match));
        while p != 0
            invariant
                self.wf(data@, row_size as int),
                key_off + 4 <= row_size,
                rs == row_size,
                bucket == stop_bucket(self.chains(), self.filed(), h),
                bucket < self.capacity(),
                chain == self.chain(h),
                is_match == (|r: int| bytes::i32_at(data@, r * rs + key_off) == key),
                0 <= j <= chain.len(),
                p == (if j < chain.len() {
                    row::row_address(chain[j], rs)
                } else {
                    0
                }),
                found@.map_values(|x: usize| x as int) == chain.take(j).filter(is_match),
            decreases chain.len() - j,
        {
            proof {
                self.lemma_node(data@, rs, bucket as int, j);
                lemma_filter_step(chain, is_match, j);
            }
            let off: usize = p - ARENA_BASE;
            let row_key: i32 = read_i32(data, off + key_off);
            let ghost before = found@.map_values(|x: usize| x as int);
            if row_key == key {
                let r: usize = off / row_size;
                found.push(r);
                assert(found@.map_values(|x: usize| x as int) =~= before.push(r as int));
            }
            p = read_u64(data, off + row::HEADER_NEXT_PTR) as usize;
            proof {
                j = j + 1;
            }
        }
        assert(chain.take(j) =~= chain);
        found
    }
}

/// Linking `row` in front of the chain of `bucket`, in the entries and in the
/// rows, spells out the chains with the row filed.
proof fn lemma_insert_represents(
    entries: Seq<HtEntry>,
    data: Seq<u8>,
    row_size: int,
    chains: Seq<Seq<int>>,
    hashes: Seq<u64>,
    order: Seq<int>,
    row: int,
    bucket: int,
    old_head: u64,
)
    requires
        represents(entries, data, row_size, chains, hashes),
        sound(chains, hashes, order),
        distinct_rows(order, hashes.len()),
        addressable(data, hashes.len(), row_size),
        order.len() < chains.len(),
        0 <= row < hashes.len(),
        !order.contains(row),
        bucket == stop_bucket(chains, hashes, hashes[row]),
        0 <= bucket < chains.len(),
        old_head == (if chains[bucket].len() == 0 {
            0
        } else {
            row::row_address(chains[bucket][0], row_size)
        }),
    ensures
        ({
            let word = ht_entry::packed(hashes[row], row::row_address(row, row_size)) as u64;
            represents(
                entries.update(bucket, HtEntry(word)),
                bytes::splice(data, row * row_size, bytes::u64_bytes(old_head)),
                row_size,
                link(chains, hashes, row),
                hashes,
            )
        }),
{
    let chains2 = link(chains, hashes, row);
    let link_bytes = bytes::u64_bytes(old_head);
    let data2 = bytes::splice(data, row * row_size, link_bytes);
    let addr = row::row_address(row, row_size);
    let word = ht_entry::packed(hashes[row], addr) as u64;
    let entries2 = entries.update(bucket, HtEntry(word));
    row::lemma_row_in_arena(row, hashes.len(), row_size);
    ht_entry::law_entry_round_trip(hashes[row], addr, 0);
    bytes::law_u64_round_trip(old_head);
    bytes::lemma_splice_read(data, row * row_size, old_head, 0);
    assert(chains2[bucket] =~= seq![row] + chains[bucket]);
    assert forall|s: int| 0 <= s < chains2.len() implies (#[trigger] entries2[s]).0 == (
    if chains2[s].len() == 0 {
        0
    } else {
        ht_entry::packed(hashes[chains2[s][0]], row::row_address(chains2[s][0], row_size))
    }) by {
        if s != bucket {
            assert(entries2[s] == entries[s]);
        }
    }
    assert forall|s: int, j: int|
        0 <= s < chains2.len() && 0 <= j < chains2[s].len() implies bytes::u64_at(
        data2,
        chains2[s][j] * row_size,
    ) == #[trigger] next_link(chains2[s], j, row_size) by {
        if s == bucket && j == 0 {
            assert(chains2[s][0] == row);
            if chains[s].len() > 0 {
                assert(chains2[s][1] == chains[s][0]);
            }
        } else {
            let j1 = if s == bucket {
                j - 1
            } else {
                j
            };
            let r = chains[s][j1];
            assert(chains2[s][j] == r);
            assert(order.contains(r));
            row::lemma_row_in_arena(r, hashes.len(), row_size);
            lemma_rows_disjoint(r, row, hashes.len(), row_size);
            bytes::lemma_splice_frame(data, row * row_size, link_bytes, r * row_size);
            assert(bytes::u64_at(data, r * row_size) == next_link(chains[s], j1, row_size));
            assert(next_link(chains2[s], j, row_size) == next_link(chains[s], j1, row_size));
        }
    }
}

/// Whether `after` differs from `before` at most in the links of its rows.
pub open spec fn only_links_changed(before: Seq<u8>, after: Seq<u8>, row_size: int) -> bool {
    &&& after.len() == before.len()
    &&& forall|i: int|
        0 <= i < before.len() && i % row_size >= 8 ==> after[i] == #[trigger] before[i]
}

pub(crate) proof fn lemma_links_changed_trans(
    before: Seq<u8>,
    mid: Seq<u8>,
    after: Seq<u8>,
    row_size: int,
)
    requires
        only_links_changed(before, mid, row_size),
        only_links_changed(mid, after, row_size),
    ensures
        only_links_changed(before, after, row_size),
{
    assert forall|i: int| 0 <= i < before.len() && i % row_size >= 8 implies after[i]
        == #[trigger] before[i] by {
        assert(mid[i] == before[i]);
    }
}

pub(crate) proof fn lemma_one_link_changed(
    before: Seq<u8>,
    mid: Seq<u8>,
    after: Seq<u8>,
    row_size: int,
    row: int,
)
    requires
        only_links_changed(before, mid, row_size),
        only_link_changed(mid, after, row_size, row),
        row_size >= row::HEADER_SIZE,
        row >= 0,
    ensures
        only_links_changed(before, after, row_size),
{
    assert forall|i: int| 0 <= i < before.len() && i % row_size >= 8 implies after[i]
        == #[trigger] before[i] by {
        if row * row_size <= i < row * row_size + 8 {
            assert(i == row_size * row + (i - row * row_size)) by (nonlinear_arith);
            vstd::arithmetic::div_mod::lemma_fundamental_div_mod_converse(
                i,
                row_size,
                row,
                i - row * row_size,
            );
        }
        assert(mid[i] == before[i]);
    }
}

/// A field of a row that lies past the link is as before if only links changed.
pub proof fn lemma_field_kept(
    before: Seq<u8>,
    after: Seq<u8>,
    row_size: int,
    row: int,
    off: int,
    len: int,
)
    requires
        only_links_changed(before, after, row_size),
        row >= 0,
        8 <= off,
        0 <= len,
        off + len <= row_size,
        (row + 1) * row_size <= before.len(),
    ensures
        after.subrange(row * row_size + off, row * row_size + off + len) == before.subrange(
            row * row_size + off,
            row * row_size + off + len,
        ),
{
    let start = row * row_size + off;
    row::lemma_row_in_arena(row, (row + 1) as nat, row_size);
    assert forall|k: int| 0 <= k < len implies after[start + k] == #[trigger] before[start + k] by {
        assert(start + k == row_size * row + (off + k)) by (nonlinear_arith)
            requires
                start == row * row_size + off,
        ;
        vstd::arithmetic::div_mod::lemma_fundamental_div_mod_converse(
            start + k,
            row_size,
            row,
            off + k,
        );
    }
    assert forall|k: int| 0 <= k < len implies #[trigger] after.subrange(
        start,
        start + len,
    )[k] == before.subrange(start, start + len)[k] by {
        assert(after[start + k] == before[start + k]);
    }
    assert(after.subrange(start, start + len) =~= before.subrange(start, start + len));
}

/// Filtering one element more of a sequence.
pub(crate) proof fn lemma_filter_step<A>(s: Seq<A>, pred: spec_fn(A) -> bool, j: int)
    requires
        0 <= j < s.len(),
    ensures
        s.take(j + 1).filter(pred) == (if pred(s[j]) {
            s.take(j).filter(pred).push(s[j])
        } else {
            s.take(j).filter(pred)
        }),
{
    reveal(Seq::filter);
    assert(s.take(j + 1).drop_last() =~= s.take(j));
}

/// The first element that passes a filter is the first of what passes.
proof fn lemma_filter_first<A>(s: Seq<A>, pred: spec_fn(A) -> bool, j: int, m: int)
    requires
        0 <= j < m <= s.len(),
        s.take(j).filter(pred).len() == 0,
        pred(s[j]),
    ensures
        s.take(m).filter(pred).len() > 0,
        s.take(m).filter(pred)[0] == s[j],
    decreases m,
{
    lemma_filter_step(s, pred, m - 1);
    if j < m - 1 {
        lemma_filter_first(s, pred, j, m - 1);
    }
}

/// What passes a filter comes from the sequence and passes, all that passes is
/// there, and a relation between earlier and later elements carries over.
pub proof fn lemma_filter<A>(
    s: Seq<A>,
    pred: spec_fn(A) -> bool,
    earlier: spec_fn(A, A) -> bool,
)
    requires
        forall|a: int, b: int| 0 <= a < b < s.len() ==> #[trigger] earlier(s[a], s[b]),
    ensures
        forall|i: int|
            0 <= i < s.filter(pred).len() ==> s.contains(#[trigger] s.filter(pred)[i]) && pred(
                s.filter(pred)[i],
            ),
        forall|x: A| s.contains(x) && pred(x) ==> #[trigger] s.filter(pred).contains(x),
        forall|i: int, k: int|
            0 <= i < k < s.filter(pred).len() ==> #[trigger] earlier(
                s.filter(pred)[i],
                s.filter(pred)[k],
            ),
    decreases s.len(),
{
    reveal(Seq::filter);
    if s.len() > 0 {
        let t = s.drop_last();
        let x = s.last();
        assert forall|a: int, b: int| 0 <= a < b < t.len() implies #[trigger] earlier(t[a], t[b]) by {
            assert(earlier(s[a], s[b]));
        }
        lemma_filter(t, pred, earlier);
        let f = s.filter(pred);
        let g = t.filter(pred);
        assert forall|i: int| 0 <= i < f.len() implies s.contains(#[trigger] f[i]) && pred(f[i]) by {
            if i < g.len() {
                assert(t.contains(g[i]));
                let a = choose|a: int| 0 <= a < t.len() && t[a] == g[i];
                assert(s[a] == f[i]);
            } else {
                assert(s[s.len() - 1] == x);
            }
        }
        assert forall|y: A| s.contains(y) && pred(y) implies #[trigger] f.contains(y) by {
            let a = choose|a: int| 0 <= a < s.len() && s[a] == y;
            if a < t.len() {
                assert(t[a] == y);
                assert(g.contains(y));
                let i = choose|i: int| 0 <= i < g.len() && g[i] == y;
                assert(f[i] == y);
            } else {
                assert(f[f.len() - 1] == y);
            }
        }
        assert forall|i: int, k: int| 0 <= i < k < f.len() implies #[trigger] earlier(f[i], f[k]) by {
            if k < g.len() {
                assert(earlier(g[i], g[k]));
            } else {
                assert(t.contains(g[i]));
                let a = choose|a: int| 0 <= a < t.len() && t[a] == g[i];
                assert(earlier(s[a], s[s.len() - 1]));
            }
        }
    }
}

/// Whether `after` differs from `before` at most in the link of row `row`.
pub open spec fn only_link_changed(
    before: Seq<u8>,
    after: Seq<u8>,
    row_size: int,
    row: int,
) -> bool {
    &&& after.len() == before.len()
    &&& forall|i: int|
        0 <= i < before.len() && !(row * row_size <= i < row * row_size + 8) ==> after[i]
            == #[trigger] before[i]
}

/// The headers of two rows of an arena do not overlap.
pub(crate) proof fn lemma_rows_disjoint(a: int, b: int, n: nat, row_size: int)
    requires
        0 <= a < n,
        0 <= b < n,
        a != b,
        row_size >= 0,
    ensures
        a * row_size + row_size <= b * row_size || b * row_size + row_size <= a * row_size,
{
    assert(a * row_size + row_size <= b * row_size || b * row_size + row_size <= a * row_size)
        by (nonlinear_arith)
        requires
            a != b,
            row_size >= 0,
    ;
}

pub(crate) proof fn lemma_offset_is_row(r: int, row_size: int)
    requires
        row_size > 0,
        r >= 0,
    ensures
        (r * row_size) / row_size == r,
{
    vstd::arithmetic::div_mod::lemma_div_multiples_vanish(r, row_size);
    assert(r * row_size == row_size * r) by (nonlinear_arith);
}

/// Of the rows on the chain of `h` that hold `key`: each holds the key and is filed
/// under the salt of `h`, none is there twice, every row that holds the key and is
/// filed under `h` is there, and of two filed under the same hash the later row
/// comes first.
pub proof fn lemma_with_key(
    dir: Directory,
    data: Seq<u8>,
    row_size: int,
    key_off: int,
    h: u64,
    key: i32,
)
    requires
        dir.wf(data, row_size),
        lists_all(dir.order(), dir.filed().len()),
        stable(dir.order(), dir.filed()),
    ensures
        ({
            let found = with_key(dir.chain(h), data, row_size, key_off, key);
            &&& forall|j: int|
                0 <= j < found.len() ==> {
                    let r = #[trigger] found[j];
                    &&& 0 <= r < dir.filed().len()
                    &&& bytes::i32_at(data, r * row_size + key_off) == key
                    &&& ht_entry::same_salt(dir.filed()[r], h)
                }
            &&& found.no_duplicates()
            &&& forall|r: int|
                0 <= r < dir.filed().len() && bytes::i32_at(data, r * row_size + key_off) == key
                    && dir.filed()[r] == h ==> #[trigger] found.contains(r)
            &&& forall|a: int, b: int|
                0 <= a < b < found.len() && dir.filed()[#[trigger] found[a]]
                    == dir.filed()[#[trigger] found[b]] ==> found[a] > found[b]
        }),
{
    let chain = dir.chain(h);
    lemma_link_all_sound(dir.filed(), dir.capacity(), dir.order());
    lemma_chain_complete(dir.chains(), dir.filed(), dir.order(), h);
    lemma_probe_stops(dir.chains(), dir.filed(), dir.order(), h);
    let is_match = |r: int| bytes::i32_at(data, r * row_size + key_off) == key;
    let found = with_key(chain, data, row_size, key_off, key);
    assert(found == chain.filter(is_match));
    let ne = |x: int, y: int| x != y;
    assert forall|a: int, b: int| 0 <= a < b < chain.len() implies #[trigger] ne(
        chain[a],
        chain[b],
    ) by {}
    lemma_filter(chain, is_match, ne);
    assert forall|j: int| 0 <= j < found.len() implies {
        let r = #[trigger] found[j];
        &&& 0 <= r < dir.filed().len()
        &&& bytes::i32_at(data, r * row_size + key_off) == key
        &&& ht_entry::same_salt(dir.filed()[r], h)
    } by {
        assert(chain.contains(found[j]));
        let i = choose|i: int| 0 <= i < chain.len() && chain[i] == found[j];
        assert(dir.order().contains(chain[i]));
        assert(is_match(chain.filter(is_match)[j]));
    }
    assert forall|i: int, j: int|
        0 <= i < found.len() && 0 <= j < found.len() && i != j implies found[i] != found[j] by {
        if i < j {
            assert(ne(chain.filter(is_match)[i], chain.filter(is_match)[j]));
        } else {
            assert(ne(chain.filter(is_match)[j], chain.filter(is_match)[i]));
        }
    }
    assert forall|r: int|
        0 <= r < dir.filed().len() && bytes::i32_at(data, r * row_size + key_off) == key
            && dir.filed()[r] == h implies #[trigger] found.contains(r) by {
        assert(dir.order().contains(r));
        assert(chain.contains(r));
        assert(is_match(r));
    }
    lemma_with_key_newest_first(dir, data, row_size, key_off, h, key);
}

proof fn lemma_with_key_newest_first(
    dir: Directory,
    data: Seq<u8>,
    row_size: int,
    key_off: int,
    h: u64,
    key: i32,
)
    requires
        dir.wf(data, row_size),
        stable(dir.order(), dir.filed()),
    ensures
        ({
            let found = with_key(dir.chain(h), data, row_size, key_off, key);
            forall|a: int, b: int|
                0 <= a < b < found.len() && dir.filed()[#[trigger] found[a]]
                    == dir.filed()[#[trigger] found[b]] ==> found[a] > found[b]
        }),
{
    let chain = dir.chain(h);
    let s = stop_bucket(dir.chains(), dir.filed(), h);
    lemma_link_all_sound(dir.filed(), dir.capacity(), dir.order());
    lemma_probe_stops(dir.chains(), dir.filed(), dir.order(), h);
    let is_match = |r: int| bytes::i32_at(data, r * row_size + key_off) == key;
    let found = with_key(chain, data, row_size, key_off, key);
    assert(found == chain.filter(is_match));
    let newer = |x: int, y: int| dir.filed()[x] == dir.filed()[y] ==> x > y;
    assert forall|a: int, b: int| 0 <= a < b < chain.len() implies #[trigger] newer(
        chain[a],
        chain[b],
    ) by {
        assert(dir.chains()[s][a] == chain[a] && dir.chains()[s][b] == chain[b]);
    }
    lemma_filter(chain, is_match, newer);
    assert forall|a: int, b: int|
        0 <= a < b < found.len() && dir.filed()[#[trigger] found[a]]
            == dir.filed()[#[trigger] found[b]] implies found[a] > found[b] by {
        assert(newer(chain.filter(is_match)[a], chain.filter(is_match)[b]));
    }
}

/// Which rows hold `key` and are filed under `h`.
pub open spec fn filed_as(keys: Seq<i32>, filed: Seq<u64>, h: u64, key: i32) -> spec_fn(
    int,
) -> bool {
    |r: int| keys[r] == key && filed[r] == h
}

/// When the rows with a key that are not filed under `h` are filed under other
/// salts, the chain of `h` holds exactly the rows with the key that are filed under
/// `h`, the last one first.
pub proof fn lemma_lookup_as(
    dir: Directory,
    data: Seq<u8>,
    row_size: int,
    key_off: int,
    keys: Seq<i32>,
    h: u64,
    key: i32,
)
    requires
        dir.wf(data, row_size),
        lists_all(dir.order(), dir.filed().len()),
        stable(dir.order(), dir.filed()),
        keys.len() == dir.filed().len(),
        forall|r: int|
            0 <= r < keys.len() ==> #[trigger] keys[r] == bytes::i32_at(
                data,
                r * row_size + key_off,
            ),
        forall|r: int|
            0 <= r < keys.len() && #[trigger] keys[r] == key ==> dir.filed()[r] == h
                || !ht_entry::same_salt(dir.filed()[r], h),
    ensures
        with_key(dir.chain(h), data, row_size, key_off, key) == select::select(
            0,
            keys.len() as int,
            filed_as(keys, dir.filed(), h, key),
        ).reverse(),
{
    let found = with_key(dir.chain(h), data, row_size, key_off, key);
    let pred = filed_as(keys, dir.filed(), h, key);
    let wanted = select::select(0, keys.len() as int, pred);
    let back = found.reverse();
    lemma_with_key(dir, data, row_size, key_off, h, key);
    select::lemma_select(0, keys.len() as int, pred);
    assert forall|i: int, j: int| 0 <= i < j < back.len() implies #[trigger] back[i]
        < #[trigger] back[j] by {
        let a = found.len() - 1 - j;
        let b = found.len() - 1 - i;
        assert(keys[found[a]] == key && keys[found[b]] == key);
        assert(dir.filed()[found[a]] == h && dir.filed()[found[b]] == h);
    }
    assert forall|x: int| #[trigger] back.contains(x) <==> wanted.contains(x) by {
        if back.contains(x) {
            let i = choose|i: int| 0 <= i < back.len() && back[i] == x;
            assert(found[found.len() - 1 - i] == x);
            assert(keys[x] == key);
            assert(pred(x));
            assert(wanted.contains(x));
        }
        if wanted.contains(x) {
            let i = choose|i: int| 0 <= i < wanted.len() && wanted[i] == x;
            assert(pred(x));
            assert(keys[x] == key);
            assert(found.contains(x));
            let j = choose|j: int| 0 <= j < found.len() && found[j] == x;
            assert(back[found.len() - 1 - j] == x);
        }
    }
    select::lemma_increasing_unique(back, wanted);
    assert(found =~= wanted.reverse());
}

/// When every row with a key is filed under `h`, the chain of `h` holds all rows
/// with the key, the last one first.
pub proof fn lemma_lookup(
    dir: Directory,
    data: Seq<u8>,
    row_size: int,
    key_off: int,
    keys: Seq<i32>,
    h: u64,
    key: i32,
)
    requires
        dir.wf(data, row_size),
        lists_all(dir.order(), dir.filed().len()),
        stable(dir.order(), dir.filed()),
        keys.len() == dir.filed().len(),
        forall|r: int|
            0 <= r < keys.len() ==> #[trigger] keys[r] == bytes::i32_at(
                data,
                r * row_size + key_off,
            ),
        forall|r: int| 0 <= r < keys.len() && #[trigger] keys[r] == key ==> dir.filed()[r] == h,
    ensures
        with_key(dir.chain(h), data, row_size, key_off, key) == select::places(keys, key).reverse(),
{
    lemma_lookup_as(dir, data, row_size, key_off, keys, h, key);
    let p = filed_as(keys, dir.filed(), h, key);
    let q = select::holds(keys, key);
    assert forall|r: int| 0 <= r < keys.len() implies #[trigger] p(r) == q(r) by {
        assert(keys[r] == key ==> dir.filed()[r] == h);
    }
    select::lemma_select_same(0, keys.len() as int, p, q);
}

/// The search for a hash begins at the bucket that is the hash modulo the capacity, goes on
/// by one bucket at a time, and after the last one at the first.
pub proof fn law_search_path(h: u64, capacity: nat, d: int)
    requires
        capacity > 0,
        d >= 0,
    ensures
        bucket_at(h, capacity, 0) == h as int % capacity as int,
        0 <= bucket_at(h, capacity, d) < capacity,
        bucket_at(h, capacity, d + 1) == (if bucket_at(h, capacity, d) == capacity - 1 {
            0
        } else {
            bucket_at(h, capacity, d) + 1
        }),
{
    let c = capacity as int;
    let x = h as int + d;
    vstd::arithmetic::div_mod::lemma_fundamental_div_mod(x, c);
    let q = x / c;
    let r = x % c;
    vstd::arithmetic::div_mod::lemma_mod_bound(x, c);
    if r == c - 1 {
        assert(x + 1 == (q + 1) * c + 0) by (nonlinear_arith)
            requires
                x == c * q + r,
                r == c - 1,
        ;
        vstd::arithmetic::div_mod::lemma_fundamental_div_mod_converse(x + 1, c, q + 1, 0);
    } else {
        assert(x + 1 == q * c + (r + 1)) by (nonlinear_arith)
            requires
                x == c * q + r,
        ;
        vstd::arithmetic::div_mod::lemma_fundamental_div_mod_converse(x + 1, c, q, r + 1);
    }
}

/// A row is filed at the front of the chain at which the search for its hash stops, and
/// every other chain stays; before any row is filed all chains are empty.
pub proof fn law_filed(hashes: Seq<u64>, capacity: nat, order: Seq<int>, row: int, s: int)
    requires
        0 <= s < capacity,
    ensures
        link_all(hashes, capacity, Seq::<int>::empty())[s].len() == 0,
        link_all(hashes, capacity, order).len() == capacity,
        ({
            let before = link_all(hashes, capacity, order);
            let after = link_all(hashes, capacity, order.push(row));
            &&& s != stop_bucket(before, hashes, hashes[row]) ==> after[s] == before[s]
            &&& s == stop_bucket(before, hashes, hashes[row]) ==> after[s].len()
                == before[s].len() + 1 && after[s][0] == row && after[s].skip(1) == before[s]
        }),
    decreases order.len(),
{
    if order.len() > 0 {
        law_filed(hashes, capacity, order.drop_last(), order.last(), s);
    }
    assert(order.push(row).drop_last() =~= order);
    let before = link_all(hashes, capacity, order);
    let after = link_all(hashes, capacity, order.push(row));
    if s == stop_bucket(before, hashes, hashes[row]) {
        assert(after[s].skip(1) =~= before[s]);
    }
}

/// A search stops at the first bucket on its path that is empty, or whose first row has a
/// hash with the same top 16 bits; every bucket before it on the path holds a row with
/// other top bits.
pub proof fn law_search_stops(chains: Seq<Seq<int>>, hashes: Seq<u64>, h: u64, d: int, e: int)
    requires
        first_stop(chains, hashes, h, d),
        0 <= e < d,
    ensures
        ({
            let s = bucket_at(h, chains.len(), d);
            chains[s].len() == 0 || hashes[chains[s][0]] / 0x1_0000_0000_0000 == h
                / 0x1_0000_0000_0000
        }),
        ({
            let s = bucket_at(h, chains.len(), e);
            chains[s].len() > 0 && hashes[chains[s][0]] / 0x1_0000_0000_0000 != h
                / 0x1_0000_0000_0000
        }),
{
    assert(!stops_at(chains, hashes, h, bucket_at(h, chains.len(), e)));
}

/// Filing rows changes the links alone: byte `b` of row `r` stays from the ninth byte on.
pub proof fn law_links_alone(before: Seq<u8>, after: Seq<u8>, row_size: int, r: int, b: int)
    requires
        only_links_changed(before, after, row_size),
        0 <= r,
        8 <= b < row_size,
        r * row_size + b < before.len(),
    ensures
        after.len() == before.len(),
        after[r * row_size + b] == before[r * row_size + b],
{
    vstd::arithmetic::div_mod::lemma_fundamental_div_mod_converse(
        r * row_size + b,
        row_size,
        r,
        b,
    );
    assert(0 <= r * row_size) by (nonlinear_arith)
        requires
            0 <= r,
            0 < row_size,
    ;
}

/// Filing one row changes its link alone: any byte that is not one of its first eight
/// stays.
pub proof fn law_link_alone(before: Seq<u8>, after: Seq<u8>, row_size: int, row: int, i: int)
    requires
        only_link_changed(before, after, row_size, row),
        0 <= i < before.len(),
        i < row * row_size || i >= row * row_size + 8,
    ensures
        after.len() == before.len(),
        after[i] == before[i],
{
}

} // verus!
