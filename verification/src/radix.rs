//! Radix partitioning: which bits of a hash pick a partition.
//!
//! ```text
//!   bit 63 -------------------------------------- bit 0
//!   | 16b salt [63:48] | radix bits, from 47 down | rest |
//! ```
//!
//! The radix field of `n` bits sits flush against the salt, so the two never
//! overlap.

use vstd::arithmetic::power2::*;
use vstd::prelude::*;

verus! {

/// 4096 partitions at most.
pub const MAX_RADIX_BITS: u32 = 12;

/// Number of bits below the salt.
pub const BITS_BELOW_SALT: u32 = 48;

/// The number of partitions for `radix_bits`.
pub fn num_partitions(radix_bits: u32) -> (n: usize)
    requires
        radix_bits <= MAX_RADIX_BITS,
    ensures
        n == pow2(radix_bits as nat),
{
    proof {
        lemma_shl_one(radix_bits);
        assert(1u64 << radix_bits <= 0x1000) by (bit_vector)
            requires
                radix_bits <= 12,
        ;
    }
    (1u64 << radix_bits) as usize
}

/// Bit offset of the radix field within a hash.
pub fn shift(radix_bits: u32) -> (s: u32)
    requires
        radix_bits <= BITS_BELOW_SALT,
    ensures
        s == BITS_BELOW_SALT - radix_bits,
        s == 48 - radix_bits,
{
    48 - radix_bits
}

/// The mask that isolates the radix field of a hash.
pub fn mask(radix_bits: u32) -> (m: u64)
    requires
        radix_bits <= BITS_BELOW_SALT,
    ensures
        m == radix_mask(radix_bits as nat),
{
    let s: u32 = shift(radix_bits);
    proof {
        lemma_mask_form(radix_bits, s);
    }
    ((1u64 << radix_bits) - 1) << s
}

/// The radix partition of a hash.
pub fn partition_of(hash: u64, radix_bits: u32) -> (p: usize)
    requires
        radix_bits <= BITS_BELOW_SALT,
    ensures
        p == (partition(hash, radix_bits as nat)) as usize,
{
    let s: u32 = shift(radix_bits);
    proof {
        lemma_field(hash, radix_bits, s);
    }
    ((hash >> s) & ((1u64 << radix_bits) - 1)) as usize
}

/// Radix bits to start a parallel build with: 4 below 100 threads, else 5.
pub fn initial_radix_bits(thread_count: usize) -> (b: u32)
    ensures
        b == (if thread_count < 100 { 4u32 } else { 5u32 }),
{
    if thread_count < 100 {
        4
    } else {
        5
    }
}

/// The mask of the radix field: `radix_bits` ones, up to bit 47.
pub open spec fn radix_mask(radix_bits: nat) -> int {
    (pow2(radix_bits) - 1) * pow2((BITS_BELOW_SALT - radix_bits) as nat)
}

/// The partition of `hash`: the value of its radix field.
pub open spec fn partition(hash: u64, radix_bits: nat) -> nat {
    field(hash, radix_bits, (BITS_BELOW_SALT - radix_bits) as nat)
}

/// The value of the `bits`-wide field of `hash` that starts at bit `low`.
pub open spec fn field(hash: u64, bits: nat, low: nat) -> nat {
    (hash as nat / pow2(low)) % pow2(bits)
}

pub(crate) proof fn lemma_shl_one(b: u32)
    requires
        b < 64,
    ensures
        1u64 << b == pow2(b as nat),
{
    vstd::bits::lemma_u64_pow2_no_overflow(b as nat);
    vstd::bits::lemma_u64_shl_is_mul(1, b as u64);
}

proof fn lemma_mask_form(radix_bits: u32, s: u32)
    requires
        radix_bits <= BITS_BELOW_SALT,
        s == BITS_BELOW_SALT - radix_bits,
    ensures
        1u64 << radix_bits >= 1,
        (((1u64 << radix_bits) - 1) as u64) << s == radix_mask(radix_bits as nat),
{
    lemma_shl_one(radix_bits);
    lemma_shl_one(s);
    assert(1u64 << radix_bits >= 1 && (((1u64 << radix_bits) - 1) as u64) << s == ((1u64
        << radix_bits) - 1) * (1u64 << s)) by (bit_vector)
        requires
            radix_bits <= 48,
            s == 48 - radix_bits,
    ;
}

/// Shift and mask extract a bit field.
pub(crate) proof fn lemma_field(hash: u64, bits: u32, low: u32)
    requires
        bits < 64,
        low < 64,
    ensures
        1u64 << bits >= 1,
        (hash >> low) & ((1u64 << bits) - 1) as u64 == field(hash, bits as nat, low as nat),
        field(hash, bits as nat, low as nat) < pow2(bits as nat),
{
    lemma_shl_one(bits);
    lemma_pow2_pos(bits as nat);
    lemma_pow2_pos(low as nat);
    vstd::bits::lemma_u64_shr_is_div(hash, low as u64);
    vstd::bits::lemma_u64_low_bits_mask_is_mod(hash >> low, bits as nat);
    vstd::arithmetic::div_mod::lemma_mod_bound(
        (hash as nat / pow2(low as nat)) as int,
        pow2(bits as nat) as int,
    );
}

/// The radix field never reaches into the salt: its mask has no bit in common
/// with the salt mask.
pub proof fn law_radix_and_salt_disjoint(radix_bits: u32)
    requires
        radix_bits <= BITS_BELOW_SALT,
    ensures
        0 <= radix_mask(radix_bits as nat) <= u64::MAX,
        radix_mask(radix_bits as nat) as u64 & crate::ht_entry::SALT_MASK == 0,
{
    let r = radix_bits as nat;
    let s = (48 - radix_bits) as nat;
    let m = radix_mask(r) as u64;
    lemma_pow2_adds(r, s);
    lemma_pow2_pos(s);
    lemma_pow2_pos(r);
    lemma2_to64_rest();
    assert((pow2(r) - 1) * pow2(s) == pow2(r) * pow2(s) - pow2(s)) by (nonlinear_arith);
    assert(pow2(r) * pow2(s) >= pow2(s)) by (nonlinear_arith)
        requires
            pow2(r) >= 1,
    ;
    assert(m < 0x0001_0000_0000_0000u64 ==> m & 0xFFFF_0000_0000_0000u64 == 0) by (bit_vector);
}

/// Masking a hash and shifting the field down gives its partition.
pub proof fn law_mask_isolates_partition(hash: u64, radix_bits: u32)
    requires
        radix_bits <= BITS_BELOW_SALT,
    ensures
        (hash & radix_mask(radix_bits as nat) as u64) as nat / pow2(
            (BITS_BELOW_SALT - radix_bits) as nat,
        ) == partition(hash, radix_bits as nat),
{
    let s: u32 = (48 - radix_bits) as u32;
    lemma_field(hash, radix_bits, s);
    lemma_mask_form(radix_bits, s);
    let m = radix_mask(radix_bits as nat) as u64;
    vstd::bits::lemma_u64_shr_is_div(hash & m, s as u64);
    assert((hash & m) >> s == (hash >> s) & ((1u64 << radix_bits) - 1) as u64) by (bit_vector)
        requires
            radix_bits <= 48,
            s == 48 - radix_bits,
            m == (((1u64 << radix_bits) - 1) as u64) << s,
    ;
}

/// Every partition index is below the number of partitions.
pub proof fn law_partition_in_range(hash: u64, radix_bits: u32)
    requires
        radix_bits <= BITS_BELOW_SALT,
    ensures
        partition(hash, radix_bits as nat) < pow2(radix_bits as nat),
{
    lemma_field(hash, radix_bits, (48 - radix_bits) as u32);
}

/// A hash is made up of its salt, its partition and the bits below, from the top
/// down: the partition is the `radix_bits` bits right below bit 48.
pub proof fn law_partition_digits(hash: u64, radix_bits: u32)
    requires
        radix_bits <= 48,
    ensures
        hash as int == (hash as int / 0x1_0000_0000_0000) * 0x1_0000_0000_0000 + partition(
            hash,
            radix_bits as nat,
        ) * pow2((48 - radix_bits) as nat) + hash as int % pow2((48 - radix_bits) as nat) as int,
        partition(hash, radix_bits as nat) < pow2(radix_bits as nat),
{
    let h = hash as int;
    let b = radix_bits as nat;
    let s = (48 - radix_bits) as nat;
    let ps = pow2(s) as int;
    let pb = pow2(b) as int;
    lemma_pow2_pos(s);
    lemma_pow2_pos(b);
    lemma_pow2_adds(s, b);
    lemma2_to64_rest();
    assert(pow2(48) == 0x1_0000_0000_0000);
    let q = h / ps;
    vstd::arithmetic::div_mod::lemma_fundamental_div_mod(h, ps);
    vstd::arithmetic::div_mod::lemma_fundamental_div_mod(q, pb);
    vstd::arithmetic::div_mod::lemma_div_denominator(h, ps, pb);
    vstd::arithmetic::div_mod::lemma_mod_bound(q, pb);
    let p = partition(hash, b) as int;
    let top = h / 0x1_0000_0000_0000;
    assert(q == pb * top + p);
    assert(ps * (pb * top + p) == top * (ps * pb) + p * ps) by (nonlinear_arith);
}

/// The mask of the radix field has exactly the bits from `48 - radix_bits` up to 47.
pub proof fn law_mask_bits(radix_bits: u32, i: u64)
    requires
        radix_bits <= 48,
        i < 64,
    ensures
        (radix_mask(radix_bits as nat) as u64) & (1u64 << i) != 0 <==> 48 - radix_bits <= i < 48,
{
    let s: u32 = (48 - radix_bits) as u32;
    let m = radix_mask(radix_bits as nat) as u64;
    lemma_mask_form(radix_bits, s);
    assert((m & (1u64 << i) != 0) == (48 - radix_bits <= i && i < 48)) by (bit_vector)
        requires
            radix_bits <= 48,
            s == 48 - radix_bits,
            i < 64,
            m == (((1u64 << radix_bits) - 1) as u64) << s,
    ;
}

} // verus!
