use spatial_hash::coordinates::Key;
use spatial_hash::fixed::Fixed;
use spatial_hash::hash::{bucket_of, HashStrategy, SimpleHash, NUM_BUCKETS};
use spatial_hash::SpatialHash;

#[test]
fn bucket_index_is_always_in_range() {
    // Bucket bound: for all coordinates and both strategies the bucket
    // index is in [0, NUM_BUCKETS).
    let keyed = HashStrategy::Keyed { k0: 1, k1: 2 };
    let simple = HashStrategy::Simple;
    for &x in &[i64::MIN / 2, -12345, -1, 0, 1, 98765, i64::MAX / 2] {
        for &y in &[i64::MIN / 2, -54321, 0, 7, i64::MAX / 2] {
            let k = Key { x, y };
            assert!(bucket_of(&keyed, k) < NUM_BUCKETS);
            assert!(bucket_of(&simple, k) < NUM_BUCKETS);
        }
    }
}

#[test]
fn simple_hash_folds_exact_values() {
    // One word: (5 + 2^63) * 1597334677 mod 2^64.
    let mut h = SimpleHash::new();
    h.write_i64(5);
    assert_eq!(h.finish(), 9223372044841449193);
    // The all-zero key hashes to zero: both multipliers are odd, so each
    // encoded zero word contributes exactly the top bit, and the two
    // contributions cancel.
    let mut h = SimpleHash::new();
    h.write_i64(0);
    h.write_i64(0);
    assert_eq!(h.finish(), 0);
}

#[test]
fn simple_strategy_is_deterministic_across_containers() {
    let a: SpatialHash<u8> = SpatialHash::cube(Fixed::from_raw(65536));
    let a = a.with_hasher(HashStrategy::Simple);
    let b: SpatialHash<u8> = SpatialHash::cube(Fixed::from_raw(65536));
    let b = b.with_hasher(HashStrategy::Simple);
    let k = Key { x: -42, y: 99 };
    assert_eq!(a.coord_idx(k), b.coord_idx(k));
    assert_eq!(a.coord_idx(Key { x: 0, y: 0 }), 0);
}

#[test]
fn hash_is_not_symmetric_in_its_components() {
    let st = HashStrategy::Simple;
    assert_ne!(
        st.hash_key(Key { x: 1, y: 2 }),
        st.hash_key(Key { x: 2, y: 1 })
    );
}
