//! Rows grouped by the partition of their hash, chunk by chunk.
//!
//! Equal hashes share a partition. So when the rows of each partition are filed
//! in increasing order, rows with equal hashes are, whatever the order of the
//! partitions.

use crate::directory;
use crate::directory::Directory;
use crate::par::{current_num_threads, par_map};
use crate::pow2s;
use crate::row;
use crate::select;
use crate::select::chunk_bounds;
use vstd::arithmetic::power2::*;
use vstd::prelude::*;

verus! {

/// The partition of a hash: the bits from `shift` on, modulo the number of
/// partitions.
pub open spec fn part(h: u64, shift: nat, parts: int) -> int {
    (h as int / pow2(shift) as int) % parts
}

/// Which rows are in partition `p`.
pub open spec fn in_part(hashes: Seq<u64>, shift: nat, parts: int, p: int) -> spec_fn(int) -> bool {
    |i: int| part(hashes[i], shift, parts) == p
}

/// Row numbers as integers.
pub open spec fn ints(rows: Seq<usize>) -> Seq<int> {
    rows.map_values(|r: usize| r as int)
}

/// Whether `out` holds the rows `lo..hi` grouped by partition, in increasing
/// order within each.
pub open spec fn scattered(
    out: Seq<Vec<usize>>,
    hashes: Seq<u64>,
    lo: int,
    hi: int,
    shift: nat,
    parts: int,
) -> bool {
    &&& out.len() == parts
    &&& forall|p: int|
        0 <= p < parts ==> ints((#[trigger] out[p])@) == select::select(
            lo,
            hi,
            in_part(hashes, shift, parts, p),
        )
}

/// The partition of a hash.
pub(crate) fn part_of(h: u64, shift: u32, parts: usize) -> (p: usize)
    requires
        shift < 64,
        row::is_power_of_two(parts as int),
    ensures
        p == part(h, shift as nat, parts as int),
        p < parts,
{
    let high: u64 = h >> shift;
    proof {
        vstd::bits::lemma_u64_shr_is_div(h, shift as u64);
        directory::lemma_mask_is_mod(high, parts);
        vstd::arithmetic::div_mod::lemma_mod_bound(high as int, parts as int);
    }
    (high & ((parts - 1) as u64)) as usize
}

/// The rows `lo..hi`, grouped by partition and in increasing order within each.
pub(crate) fn scatter(
    hashes: &[u64],
    lo: usize,
    hi: usize,
    shift: u32,
    parts: usize,
) -> (out: Vec<Vec<usize>>)
    requires
        lo <= hi <= hashes@.len(),
        shift < 64,
        row::is_power_of_two(parts as int),
    ensures
        scattered(out@, hashes@, lo as int, hi as int, shift as nat, parts as int),
{
    let mut out: Vec<Vec<usize>> = Vec::new();
    let mut p: usize = 0;
    while p < parts
        invariant
            p <= parts,
            out@.len() == p,
            forall|q: int| 0 <= q < p ==> (#[trigger] out@[q])@ == Seq::<usize>::empty(),
        decreases parts - p,
    {
        out.push(Vec::new());
        p += 1;
    }
    let mut i: usize = lo;
    assert forall|q: int| 0 <= q < parts implies ints((#[trigger] out@[q])@) == select::select(
        lo as int,
        i as int,
        in_part(hashes@, shift as nat, parts as int, q),
    ) by {
        assert(ints(out@[q]@) =~= Seq::empty());
    }
    while i < hi
        invariant
            lo <= i <= hi <= hashes@.len(),
            shift < 64,
            row::is_power_of_two(parts as int),
            out@.len() == parts,
            forall|q: int|
                0 <= q < parts ==> ints((#[trigger] out@[q])@) == select::select(
                    lo as int,
                    i as int,
                    in_part(hashes@, shift as nat, parts as int, q),
                ),
        decreases hi - i,
    {
        let ghost before = out@;
        let p: usize = part_of(hashes[i], shift, parts);
        out[p].push(i);
        assert forall|q: int| 0 <= q < parts implies ints((#[trigger] out@[q])@) == select::select(
            lo as int,
            i + 1,
            in_part(hashes@, shift as nat, parts as int, q),
        ) by {
            assert(ints(before[q]@) == select::select(
                lo as int,
                i as int,
                in_part(hashes@, shift as nat, parts as int, q),
            ));
            if q == p {
                assert(ints(out@[q]@) =~= ints(before[q]@).push(i as int));
            }
        }
        i += 1;
    }
    out
}

/// Whether `order` lists exactly the rows of the partitions before `p`, and of
/// partition `p` those before `b`, with equal hashes in increasing order.
pub open spec fn filed_up_to(
    order: Seq<int>,
    hashes: Seq<u64>,
    shift: nat,
    parts: int,
    p: int,
    b: int,
) -> bool {
    &&& directory::distinct_rows(order, hashes.len())
    &&& directory::stable(order, hashes)
    &&& forall|r: int| #[trigger]
        order.contains(r) <==> 0 <= r < hashes.len() && (part(hashes[r], shift, parts) < p || (part(
            hashes[r],
            shift,
            parts,
        ) == p && r < b))
}

/// Filing the rows of partition `p` from `b` up to `hi` as well.
pub proof fn lemma_file_chunk(
    order: Seq<int>,
    hashes: Seq<u64>,
    shift: nat,
    parts: int,
    p: int,
    b: int,
    hi: int,
)
    requires
        filed_up_to(order, hashes, shift, parts, p, b),
        0 <= b <= hi <= hashes.len(),
    ensures
        filed_up_to(
            order + select::select(b, hi, in_part(hashes, shift, parts, p)),
            hashes,
            shift,
            parts,
            p,
            hi,
        ),
        forall|i: int|
            0 <= i < select::select(b, hi, in_part(hashes, shift, parts, p)).len()
                ==> !order.contains(
                #[trigger] select::select(b, hi, in_part(hashes, shift, parts, p))[i],
            ),
{
    let pred = in_part(hashes, shift, parts, p);
    let more = select::select(b, hi, pred);
    let all = order + more;
    select::lemma_select(b, hi, pred);
    assert forall|i: int| 0 <= i < more.len() implies !order.contains(#[trigger] more[i]) by {}
    assert forall|r: int| #[trigger] all.contains(r) <==> order.contains(r) || more.contains(r) by {
        if order.contains(r) {
            let i = choose|i: int| 0 <= i < order.len() && order[i] == r;
            assert(all[i] == r);
        }
        if more.contains(r) {
            let i = choose|i: int| 0 <= i < more.len() && more[i] == r;
            assert(all[order.len() + i] == r);
        }
    }
    assert forall|r: int| #[trigger] all.contains(r) <==> 0 <= r < hashes.len() && (part(
        hashes[r],
        shift,
        parts,
    ) < p || (part(hashes[r], shift, parts) == p && r < hi)) by {
        assert(all.contains(r) <==> order.contains(r) || more.contains(r));
        if b <= r < hi && pred(r) {
            assert(more.contains(r));
        }
    }
    assert(all.no_duplicates()) by {
        assert forall|i: int, j: int|
            0 <= i < all.len() && 0 <= j < all.len() && i != j implies all[i] != all[j] by {
            if i < order.len() && j >= order.len() {
                assert(order.contains(all[i]));
                assert(!order.contains(more[j - order.len()]));
            } else if i >= order.len() && j < order.len() {
                assert(order.contains(all[j]));
                assert(!order.contains(more[i - order.len()]));
            } else if i >= order.len() && j >= order.len() {
                assert(more[i - order.len()] != more[j - order.len()]);
            }
        }
    }
    assert forall|i: int, j: int|
        0 <= i < j < all.len() && hashes[#[trigger] all[i]] == hashes[#[trigger] all[j]] implies all[i]
        < all[j] by {
        if j >= order.len() {
            let y = more[j - order.len()];
            if i < order.len() {
                assert(order.contains(all[i]));
            } else {
                assert(more[i - order.len()] < y);
            }
        }
    }
    assert forall|i: int| 0 <= i < all.len() implies 0 <= #[trigger] all[i] < hashes.len() by {
        assert(all.contains(all[i]));
    }
}

/// After the last row of partition `p` comes the first of the next.
pub proof fn lemma_next_partition(order: Seq<int>, hashes: Seq<u64>, shift: nat, parts: int, p: int)
    requires
        filed_up_to(order, hashes, shift, parts, p, hashes.len() as int),
    ensures
        filed_up_to(order, hashes, shift, parts, p + 1, 0),
{
    assert forall|r: int| #[trigger]
        order.contains(r) <==> 0 <= r < hashes.len() && (part(hashes[r], shift, parts) < p + 1 || (
        part(hashes[r], shift, parts) == p + 1 && r < 0)) by {}
}

/// When all partitions are done, every row is listed.
pub proof fn lemma_all_filed(order: Seq<int>, hashes: Seq<u64>, shift: nat, parts: int)
    requires
        filed_up_to(order, hashes, shift, parts, parts, 0),
        parts > 0,
    ensures
        directory::lists_all(order, hashes.len()),
        directory::stable(order, hashes),
{
    assert forall|r: int| 0 <= r < hashes.len() implies #[trigger] order.contains(r) by {
        vstd::arithmetic::div_mod::lemma_mod_bound(
            hashes[r] as int / pow2(shift) as int,
            parts,
        );
    }
    directory::lemma_distinct_len(order, hashes.len());
}

/// How many bits of the bucket number name the partition, for `2^log_capacity`
/// buckets and `2^wanted` partitions wanted: no partition has fewer than 1024
/// buckets.
pub open spec fn partition_bits(wanted: nat, log_capacity: int) -> nat {
    let most = if log_capacity > 10 {
        log_capacity - 10
    } else {
        0
    };
    if wanted < most {
        wanted
    } else {
        most as nat
    }
}

/// What the partitions of a parallel `finalize` are made of: the shift and the
/// number of partitions, for `threads` threads and `2^log_capacity` buckets. Four
/// partitions per thread are wanted, rounded up to a power of two.
fn partitioning(threads: usize, log_capacity: u32) -> (r: (u32, usize))
    requires
        1 <= threads <= 65535,
        log_capacity < usize::BITS,
    ensures
        r.0 <= log_capacity,
        row::is_power_of_two(r.1 as int),
        r.1 > 0,
        exists|wanted: nat|
            pow2s::is_next_power_of_two(pow2(wanted) as int, 4 * threads) && r.0 == log_capacity
                - #[trigger] partition_bits(wanted, log_capacity as int) && r.1 == pow2(
                partition_bits(wanted, log_capacity as int),
            ),
{
    let wanted: u32 = pow2s::next_power_of_two(threads * 4).1;
    let most: u32 = log_capacity.saturating_sub(10);
    let radix_bits: u32 = if wanted < most {
        wanted
    } else {
        most
    };
    let mut parts: usize = 1;
    let mut k: u32 = 0;
    assert(pow2(0) == 1) by {
        lemma2_to64();
    }
    while k < radix_bits
        invariant
            k <= radix_bits < usize::BITS,
            parts == pow2(k as nat),
        decreases radix_bits - k,
    {
        proof {
            lemma_pow2_unfold((k + 1) as nat);
            pow2s::lemma_pow2_in_usize((k + 1) as nat);
        }
        parts = parts * 2;
        k += 1;
    }
    proof {
        assert(row::is_power_of_two(pow2(k as nat) as int));
        lemma_pow2_pos(k as nat);
        assert(radix_bits == partition_bits(wanted as nat, log_capacity as int));
        assert(pow2s::is_next_power_of_two(pow2(wanted as nat) as int, 4 * threads));
    }
    (log_capacity - radix_bits, parts)
}

/// Files all rows, in parallel grouped by partition, and then partition by
/// partition. The rows of a partition are filed in increasing order.
pub(crate) fn file_by_partition(
    dir: &mut Directory,
    data: &mut [u8],
    row_size: usize,
    hashes: &[u64],
)
    requires
        old(dir).wf(old(data)@, row_size as int),
        old(dir).filed() == hashes@,
        old(dir).order() == Seq::<int>::empty(),
        hashes@.len() < old(dir).capacity(),
    ensures
        final(dir).wf(final(data)@, row_size as int),
        final(dir).filed() == hashes@,
        final(dir).capacity() == old(dir).capacity(),
        directory::lists_all(final(dir).order(), hashes@.len()),
        directory::stable(final(dir).order(), hashes@),
        directory::only_links_changed(old(data)@, final(data)@, row_size as int),
{
    let n: usize = hashes.len();
    let threads: usize = current_num_threads();
    let (shift, parts): (u32, usize) = partitioning(threads, pow2s::exponent(dir.len()));
    let chunk_size: usize = if n == 0 {
        1
    } else {
        (n - 1) / threads + 1
    };
    let chunks: Vec<(usize, usize)> = chunk_bounds(n, chunk_size);
    let ghost bounds = chunks@;
    proof {
        assert forall|i: int| 0 <= i < bounds.len() implies (#[trigger] bounds[i]).0 <= bounds[i].1
            <= n by {
            select::lemma_chunks_adjoin(bounds, chunk_size as int, n as int, i);
        }
    }
    let group = |c: (usize, usize)| -> (out: Vec<Vec<usize>>)
        requires
            c.0 <= c.1 <= hashes@.len(),
        ensures
            scattered(out@, hashes@, c.0 as int, c.1 as int, shift as nat, parts as int),
        { scatter(hashes, c.0, c.1, shift, parts) };
    let lists: Vec<Vec<Vec<usize>>> = par_map(chunks, group);
    let ghost before = data@;
    let ghost sh = shift as nat;
    proof {
        assert(filed_up_to(dir.order(), hashes@, sh, parts as int, 0, 0)) by {
            assert forall|r: int| 0 <= r < hashes@.len() implies !(#[trigger] part(
                hashes@[r],
                sh,
                parts as int,
            ) < 0) by {
                vstd::arithmetic::div_mod::lemma_mod_bound(
                    hashes@[r] as int / pow2(sh) as int,
                    parts as int,
                );
            }
        }
    }
    let mut p: usize = 0;
    while p < parts
        invariant
            p <= parts,
            n == hashes@.len(),
            dir.wf(data@, row_size as int),
            dir.filed() == hashes@,
            dir.capacity() == old(dir).capacity(),
            n < dir.capacity(),
            directory::only_links_changed(before, data@, row_size as int),
            filed_up_to(dir.order(), hashes@, sh, parts as int, p as int, 0),
            chunk_size > 0,
            select::is_chunked(bounds, chunk_size as int, n as int),
            lists@.len() == bounds.len(),
            forall|t: int|
                0 <= t < bounds.len() ==> scattered(
                    (#[trigger] lists@[t])@,
                    hashes@,
                    bounds[t].0 as int,
                    bounds[t].1 as int,
                    sh,
                    parts as int,
                ),
        decreases parts - p,
    {
        let mut t: usize = 0;
        let ghost mut b: int = 0;
        while t < lists.len()
            invariant
                p < parts,
                t <= lists@.len(),
                b == (if t == 0 {
                    0
                } else {
                    bounds[t - 1].1 as int
                }),
                n == hashes@.len(),
                dir.wf(data@, row_size as int),
                dir.filed() == hashes@,
                dir.capacity() == old(dir).capacity(),
                n < dir.capacity(),
                directory::only_links_changed(before, data@, row_size as int),
                filed_up_to(dir.order(), hashes@, sh, parts as int, p as int, b),
                chunk_size > 0,
                select::is_chunked(bounds, chunk_size as int, n as int),
                lists@.len() == bounds.len(),
                forall|t: int|
                    0 <= t < bounds.len() ==> scattered(
                        (#[trigger] lists@[t])@,
                        hashes@,
                        bounds[t].0 as int,
                        bounds[t].1 as int,
                        sh,
                        parts as int,
                    ),
            decreases lists@.len() - t,
        {
            let ghost mid = data@;
            proof {
                select::lemma_chunks_adjoin(bounds, chunk_size as int, n as int, t as int);
                let order = dir.order();
                lemma_file_chunk(
                    order,
                    hashes@,
                    sh,
                    parts as int,
                    p as int,
                    b,
                    bounds[t as int].1 as int,
                );
                let rows = ints(lists@[t as int]@[p as int]@);
                directory::lemma_distinct_len(order + rows, n as nat);
            }
            dir.insert_rows(data, row_size, hashes, lists[t][p].as_slice());
            proof {
                directory::lemma_links_changed_trans(before, mid, data@, row_size as int);
                b = bounds[t as int].1 as int;
            }
            t += 1;
        }
        proof {
            lemma_next_partition(dir.order(), hashes@, sh, parts as int, p as int);
        }
        p += 1;
    }
    proof {
        lemma_all_filed(dir.order(), hashes@, sh, parts as int);
    }
}

/// Two hashes are in the same partition if and only if they agree in the bits above
/// `shift`, as far as the number of partitions counts them; and there is no partition
/// beyond that number.
pub proof fn law_part(a: u64, b: u64, shift: nat, parts: int)
    requires
        parts > 0,
    ensures
        0 <= part(a, shift, parts) < parts,
        part(a, shift, parts) == part(b, shift, parts) <==> (a as int / pow2(shift) as int - b as int
            / pow2(shift) as int) % parts == 0,
{
    let x = a as int / pow2(shift) as int;
    let y = b as int / pow2(shift) as int;
    vstd::arithmetic::div_mod::lemma_mod_bound(x, parts);
    vstd::arithmetic::div_mod::lemma_mod_bound(y, parts);
    vstd::arithmetic::div_mod::lemma_mod_equivalence(x, y, parts);
}

/// There are as many partitions as are wanted, unless one would have fewer than 1024
/// buckets: then as many as have 1024, and one at least.
pub proof fn law_partition_bits(wanted: nat, log_capacity: int)
    requires
        log_capacity >= 0,
    ensures
        wanted + 10 <= log_capacity ==> partition_bits(wanted, log_capacity) == wanted,
        wanted + 10 > log_capacity >= 10 ==> partition_bits(wanted, log_capacity) + 10
            == log_capacity,
        log_capacity < 10 ==> partition_bits(wanted, log_capacity) == 0,
{
}

/// Machine integers stand for themselves.
pub proof fn law_ints(rows: Seq<usize>, i: int)
    requires
        0 <= i < rows.len(),
    ensures
        ints(rows).len() == rows.len(),
        ints(rows)[i] == rows[i],
{
}

} // verus!
