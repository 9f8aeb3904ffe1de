use duck_hash_join::hash::{
    combine_hash, combine_into, hash_i32_slice, hash_i64_slice, murmur_hash32, murmur_hash64,
    MIX_INVERSE, MIX_MULTIPLIER,
};

#[test]
fn murmur_known_vectors() {
    let cases: &[(u64, u64)] = &[
        (0x0000000000000000, 0x0000000000000000),
        (0x0000000000000001, 0x4179b061e0c0e0d0),
        (0x0000000000000002, 0x1c9963305febc252),
        (0x0000000000000007, 0x793f9bd73383384a),
        (0x0000000000000042, 0x559d8f6fa7b0996b),
        (0x00000000deadbeef, 0x288344a3928b2668),
        (0x00000000ffffffff, 0x41c6aec41b1456d1),
        (0x0000000100000000, 0xa04a6aae1526eda6),
        (0x8000000000000000, 0x72446bbcf6c799d7),
        (0xffffffffffffffff, 0x448e29ced4103459),
        (0xabcd123456789abc, 0xbf52d583ca69aa1f),
        (0x0123456789abcdef, 0x3efdea49c590f4ec),
    ];
    for &(input, expected) in cases {
        assert_eq!(murmur_hash64(input), expected, "input=0x{:016x}", input);
    }
}

#[test]
fn murmur_nonzero_for_nonzero_input() {
    for i in 1u64..1000 {
        assert_ne!(murmur_hash64(i), 0, "hash should not be zero for i={}", i);
    }
}

#[test]
fn combine_hash_is_xor() {
    assert_eq!(combine_hash(0xaaaa, 0x5555), 0xffff);
    assert_eq!(combine_hash(0x1234, 0x0), 0x1234);
    assert_eq!(combine_hash(0x42, 0xdeadbeef), combine_hash(0xdeadbeef, 0x42));
}

#[test]
fn vectorized_matches_scalar() {
    let keys: Vec<i64> = (0..32).collect();
    let mut out = vec![0u64; keys.len()];
    hash_i64_slice(&keys, &mut out);
    for (i, &k) in keys.iter().enumerate() {
        assert_eq!(out[i], murmur_hash64(k as u64));
    }
}

#[test]
fn i32_keys_hash_as_unsigned() {
    let keys: Vec<i32> = vec![0, 1, -1, i32::MIN];
    let mut out = vec![0u64; keys.len()];
    hash_i32_slice(&keys, &mut out);
    for (i, &k) in keys.iter().enumerate() {
        assert_eq!(out[i], murmur_hash32(k as u32));
    }
    assert_eq!(out[2], 0x41c6aec41b1456d1);
}

#[test]
fn combine_into_combines_elementwise() {
    let mut out = vec![0xaaaau64, 1, 0];
    combine_into(&mut out, &[0x5555, 1, 7]);
    assert_eq!(out, vec![0xffff, 0, 7]);
}

#[test]
fn mixing_step_has_an_inverse() {
    assert_eq!(MIX_MULTIPLIER.wrapping_mul(MIX_INVERSE), 1);
}
