//! Key hashing for the join: a 64-bit mix built from two multiply/xor-shift
//! rounds, its 32-bit form, and the xor that folds the hashes of several key
//! columns into one.
//!
//! The top 16 bits of a hash serve as the salt of a directory entry (see
//! `ht_entry`), the bits below them select a radix partition (see `radix`),
//! and the low bits select a bucket (see `directory`).

use vstd::prelude::*;

verus! {

/// The odd multiplier of the mix.
pub const MIX_MULTIPLIER: u64 = 0xd6e8_feb8_6659_fd93;

/// The inverse of `MIX_MULTIPLIER` modulo 2^64.
pub const MIX_INVERSE: u64 = 0xcfee_444d_8b59_a89b;

/// `x` with its high half folded into its low half.
pub open spec fn fold_high(x: u64) -> u64 {
    x ^ (x >> 32u64)
}

/// The hash of a 64-bit value.
pub open spec fn murmur64(x: u64) -> u64 {
    fold_high(fold_high(fold_high(x).wrapping_mul(MIX_MULTIPLIER)).wrapping_mul(MIX_MULTIPLIER))
}

/// The value whose hash is `h`.
pub open spec fn unmurmur64(h: u64) -> u64 {
    fold_high(fold_high(fold_high(h).wrapping_mul(MIX_INVERSE)).wrapping_mul(MIX_INVERSE))
}

/// The hash of a 32-bit value: the 64-bit hash of its zero extension.
pub open spec fn murmur32(x: u32) -> u64 {
    murmur64(x as u64)
}

/// The hash under which the join files an `i32` key.
pub open spec fn key_hash(key: i32) -> u64 {
    murmur32(key as u32)
}

/// 64-bit mix.
pub fn murmur_hash64(x: u64) -> (h: u64)
    ensures
        h == murmur64(x),
{
    let a: u64 = x ^ (x >> 32u64);
    let b: u64 = a.wrapping_mul(MIX_MULTIPLIER);
    let c: u64 = b ^ (b >> 32u64);
    let d: u64 = c.wrapping_mul(MIX_MULTIPLIER);
    d ^ (d >> 32u64)
}

/// 32-bit mix: zero-extend, then mix as 64 bits.
pub fn murmur_hash32(x: u32) -> (h: u64)
    ensures
        h == murmur32(x),
        h == murmur64(x as u64),
{
    murmur_hash64(x as u64)
}

/// Folds two hashes into one by xor, so that the order of the key columns does
/// not matter.
pub fn combine_hash(left: u64, right: u64) -> (h: u64)
    ensures
        h == left ^ right,
{
    left ^ right
}

/// Hashes a slice of `i64` keys into `out`, one hash per key.
pub fn hash_i64_slice(keys: &[i64], out: &mut [u64])
    requires
        keys@.len() == old(out)@.len(),
    ensures
        final(out)@ == keys@.map_values(|k: i64| murmur64(k as u64)),
{
    let n: usize = keys.len();
    let mut i: usize = 0;
    while i < n
        invariant
            i <= n,
            n == keys@.len(),
            out@.len() == n,
            forall|j: int| 0 <= j < i ==> #[trigger] out@[j] == murmur64(keys@[j] as u64),
        decreases n - i,
    {
        out[i] = murmur_hash64(keys[i] as u64);
        i += 1;
    }
    assert(out@ =~= keys@.map_values(|k: i64| murmur64(k as u64)));
}

/// Hashes a slice of `i32` keys into `out`, one hash per key.
pub fn hash_i32_slice(keys: &[i32], out: &mut [u64])
    requires
        keys@.len() == old(out)@.len(),
    ensures
        final(out)@ == keys@.map_values(|k: i32| key_hash(k)),
        forall|i: int|
            0 <= i < keys@.len() ==> #[trigger] final(out)@[i] == murmur64(
                (keys@[i] as u32) as u64,
            ),
{
    let n: usize = keys.len();
    let mut i: usize = 0;
    while i < n
        invariant
            i <= n,
            n == keys@.len(),
            out@.len() == n,
            forall|j: int| 0 <= j < i ==> #[trigger] out@[j] == key_hash(keys@[j]),
        decreases n - i,
    {
        out[i] = murmur_hash32(keys[i] as u32);
        i += 1;
    }
    assert(out@ =~= keys@.map_values(|k: i32| key_hash(k)));
}

/// Folds the hashes of another key column into `out`, in place.
pub fn combine_into(out: &mut [u64], other: &[u64])
    requires
        old(out)@.len() == other@.len(),
    ensures
        final(out)@ == old(out)@.map(|i: int, h: u64| h ^ other@[i]),
{
    let n: usize = other.len();
    let ghost before = out@;
    let mut i: usize = 0;
    while i < n
        invariant
            i <= n,
            n == other@.len(),
            out@.len() == n,
            before.len() == n,
            forall|j: int| 0 <= j < i ==> #[trigger] out@[j] == before[j] ^ other@[j],
            forall|j: int| i <= j < n ==> #[trigger] out@[j] == before[j],
        decreases n - i,
    {
        out[i] = combine_hash(out[i], other[i]);
        i += 1;
    }
    assert(out@ =~= before.map(|i: int, h: u64| h ^ other@[i]));
}

/// Folding the high half in twice gives the value back.
proof fn lemma_fold_high_involution(x: u64)
    ensures
        fold_high(fold_high(x)) == x,
{
    assert((x ^ (x >> 32u64)) ^ ((x ^ (x >> 32u64)) >> 32u64) == x) by (bit_vector);
}

/// Multiplying by the multiplier and then by its inverse gives the value back.
proof fn lemma_multiplier_inverse(x: u64)
    ensures
        x.wrapping_mul(MIX_MULTIPLIER).wrapping_mul(MIX_INVERSE) == x,
        x.wrapping_mul(MIX_INVERSE).wrapping_mul(MIX_MULTIPLIER) == x,
{
    let m: int = 0x1_0000_0000_0000_0000;
    let c = MIX_MULTIPLIER as int;
    let d = MIX_INVERSE as int;
    let q: int = 0xae8e_6bea_e6eb_4b34;
    let x = x as int;
    assert(c * d == q * m + 1);
    assert(((x * c) % m * d) % m == ((x * c) * d) % m) by {
        vstd::arithmetic::div_mod::lemma_mul_mod_noop_left(x * c, d, m);
    }
    assert(((x * d) % m * c) % m == ((x * d) * c) % m) by {
        vstd::arithmetic::div_mod::lemma_mul_mod_noop_left(x * d, c, m);
    }
    assert((x * c) * d == x * (c * d)) by (nonlinear_arith);
    assert((x * d) * c == x * (c * d)) by (nonlinear_arith);
    assert(x * (q * m + 1) == m * (x * q) + x) by (nonlinear_arith);
    vstd::arithmetic::div_mod::lemma_mod_multiples_vanish(x * q, x, m);
    vstd::arithmetic::div_mod::lemma_small_mod(x as nat, m as nat);
}

/// Hashing loses nothing: every 64-bit value is the hash of exactly one value,
/// which `unmurmur64` recovers.
pub proof fn law_murmur_is_bijective(x: u64)
    ensures
        unmurmur64(murmur64(x)) == x,
        murmur64(unmurmur64(x)) == x,
{
    let a = fold_high(x);
    let b = a.wrapping_mul(MIX_MULTIPLIER);
    let c = fold_high(b);
    let d = c.wrapping_mul(MIX_MULTIPLIER);
    lemma_fold_high_involution(x);
    lemma_fold_high_involution(b);
    lemma_fold_high_involution(d);
    lemma_multiplier_inverse(a);
    lemma_multiplier_inverse(c);
    let e = a.wrapping_mul(MIX_INVERSE);
    let f = fold_high(e);
    let g = f.wrapping_mul(MIX_INVERSE);
    lemma_fold_high_involution(e);
    lemma_fold_high_involution(g);
    lemma_multiplier_inverse(f);
}

/// A hash is undone by folding its high half in and multiplying by the inverse of
/// the multiplier `0xd6e8feb86659fd93`, twice, and folding once more.
pub proof fn law_murmur_undone(x: u64)
    ensures
        ({
            let h = murmur64(x);
            let a = (h ^ (h >> 32u64)).wrapping_mul(0xcfee_444d_8b59_a89bu64);
            let b = (a ^ (a >> 32u64)).wrapping_mul(0xcfee_444d_8b59_a89bu64);
            b ^ (b >> 32u64) == x
        }),
        0xcfee_444d_8b59_a89bu64.wrapping_mul(0xd6e8_feb8_6659_fd93u64) == 1,
{
    law_murmur_is_bijective(x);
    assert(0xcfee_444d_8b59_a89bu64 * 0xd6e8_feb8_6659_fd93u64 == 0xae8e_6bea_e6eb_4b34
        * 0x1_0000_0000_0000_0000 + 1);
}

/// The hash of a 32-bit value, undone in the same way, gives its zero extension; so
/// does the hash of an `i32` key, of which a negative one counts as 2^32 more.
pub proof fn law_key_hash_undone(x: u32, key: i32)
    ensures
        ({
            let h = murmur32(x);
            let a = (h ^ (h >> 32u64)).wrapping_mul(0xcfee_444d_8b59_a89bu64);
            let b = (a ^ (a >> 32u64)).wrapping_mul(0xcfee_444d_8b59_a89bu64);
            b ^ (b >> 32u64) == x
        }),
        ({
            let h = key_hash(key);
            let a = (h ^ (h >> 32u64)).wrapping_mul(0xcfee_444d_8b59_a89bu64);
            let b = (a ^ (a >> 32u64)).wrapping_mul(0xcfee_444d_8b59_a89bu64);
            b ^ (b >> 32u64) == (if key >= 0 {
                key as int
            } else {
                key + 0x1_0000_0000
            })
        }),
{
    law_murmur_undone(x as u64);
    law_murmur_undone((key as u32) as u64);
    assert(key as u32 == (if key >= 0 {
        key as int
    } else {
        key + 0x1_0000_0000
    })) by (bit_vector);
}

/// The 32-bit hash is the 64-bit hash of the zero extension, and a key is hashed as
/// the 32 bits that it consists of.
pub proof fn law_zero_extended(x: u32, key: i32)
    ensures
        murmur32(x) == murmur64(x as u64),
        key_hash(key) == murmur64((key as u32) as u64),
{
}

/// Only zero hashes to zero.
pub proof fn law_murmur_zero(x: u64)
    ensures
        murmur64(x) == 0 <==> x == 0,
{
    assert(0u64 ^ (0u64 >> 32u64) == 0u64) by (bit_vector);
    assert(murmur64(0) == 0);
    law_murmur_is_bijective(x);
    law_murmur_is_bijective(0);
}

/// Two `i32` keys with the same hash are the same key.
pub proof fn law_key_hash_injective(a: i32, b: i32)
    ensures
        key_hash(a) == key_hash(b) ==> a == b,
{
    law_murmur_is_bijective((a as u32) as u64);
    law_murmur_is_bijective((b as u32) as u64);
    assert((a as u32) == (b as u32) ==> a == b) by (bit_vector);
}

/// The order in which key columns are combined does not matter.
pub proof fn law_combine_commutes(a: u64, b: u64, c: u64)
    ensures
        a ^ b == b ^ a,
        (a ^ b) ^ c == a ^ (b ^ c),
{
    assert(a ^ b == b ^ a) by (bit_vector);
    assert((a ^ b) ^ c == a ^ (b ^ c)) by (bit_vector);
}

} // verus!
