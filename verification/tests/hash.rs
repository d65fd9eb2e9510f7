use tartine::hash::{hash_u128_u64, Fnv1a};
use tartine::hrw::tartine_hash_key;
use tartine::placement::placement_key;

#[test]
fn fnv_values() {
    assert_eq!(Fnv1a::new().finish(), 0xcbf2_9ce4_8422_2325);
    let mut h = Fnv1a::default();
    h.write(b"foo");
    h.write(b"bar");
    assert_eq!(h.finish(), 0x8594_4171_f739_67e8);
}

#[test]
fn ids_and_keys_hash_over_their_little_endian_bytes() {
    assert_eq!(hash_u128_u64(0, 0), 0x81d2_3fd7_003c_2305);
    assert_eq!(hash_u128_u64(1, 2), 0x9920_24ad_58b0_cce6);
    assert_eq!(hash_u128_u64((1u128 << 64) + 7, 42), 0xf612_e543_7a98_7d09);
    assert_eq!(tartine_hash_key(1, 2), 0x9920_24ad_58b0_cce6);
    assert_eq!(placement_key(1, 2), 0x9920_24ad_58b0_cce6);
}
