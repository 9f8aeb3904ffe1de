//! Powers of two.

use crate::row;
use vstd::arithmetic::power2::*;
use vstd::prelude::*;

verus! {

/// Whether `c` is the smallest power of two that is not below `x`.
pub open spec fn is_next_power_of_two(c: int, x: int) -> bool {
    &&& row::is_power_of_two(c)
    &&& c >= x
    &&& forall|p: int| #[trigger] row::is_power_of_two(p) && p >= x ==> c <= p
}

/// The smallest power of two that is not below `x`, and its exponent.
pub(crate) fn next_power_of_two(x: usize) -> (r: (usize, u32))
    requires
        x <= usize::MAX / 2 + 1,
    ensures
        is_next_power_of_two(r.0 as int, x as int),
        pow2(r.1 as nat) == r.0,
        r.1 < usize::BITS,
        x > 1 ==> r.0 < 2 * x,
{
    let mut c: usize = 1;
    let mut k: u32 = 0;
    proof {
        lemma2_to64();
    }
    while c < x
        invariant
            x <= usize::MAX / 2 + 1,
            pow2(k as nat) == c,
            k < usize::BITS,
            k == 0 || pow2((k - 1) as nat) < x,
        decreases usize::BITS - k,
    {
        proof {
            lemma_pow2_unfold((k + 1) as nat);
            lemma_pow2_pos(k as nat);
            row::lemma_exponent_in_usize((2 * c) as usize, (k + 1) as nat);
        }
        c = c * 2;
        k = k + 1;
    }
    proof {
        if k > 0 {
            lemma_pow2_unfold(k as nat);
        }
        assert(row::is_power_of_two(c as int));
        assert forall|p: int| #[trigger] row::is_power_of_two(p) && p >= x implies c <= p by {
            let j = choose|j: nat| #[trigger] pow2(j) == p;
            if j < k {
                if j < k - 1 {
                    lemma_pow2_strictly_increases(j, (k - 1) as nat);
                }
            } else if k < j {
                lemma_pow2_strictly_increases(k as nat, j);
            }
        }
    }
    (c, k)
}

/// The exponent of a power of two.
pub(crate) fn exponent(x: usize) -> (k: u32)
    requires
        row::is_power_of_two(x as int),
    ensures
        k < usize::BITS,
        pow2(k as nat) == x,
{
    proof {
        let j = choose|j: nat| #[trigger] pow2(j) == x;
        row::lemma_exponent_in_usize(x, j);
        if j < usize::BITS - 1 {
            lemma_pow2_strictly_increases(j, (usize::BITS - 1) as nat);
        }
        lemma2_to64();
        lemma2_to64_rest();
    }
    let (c, k): (usize, u32) = next_power_of_two(x);
    k
}

pub(crate) proof fn lemma_pow2_in_usize(k: nat)
    requires
        k < usize::BITS,
    ensures
        pow2(k) <= usize::MAX,
{
    lemma2_to64();
    lemma2_to64_rest();
    if k < usize::BITS - 1 {
        lemma_pow2_strictly_increases(k, (usize::BITS - 1) as nat);
    }
}

} // verus!
