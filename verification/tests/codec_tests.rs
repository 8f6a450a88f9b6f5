use merkle_engine::path::{to_traversal_path, ToTraversalPath};
use merkle_engine::digest::MixDigest;
use merkle_engine::merkle_traits::{DigestAlgorithm, IndexOps, NodeValue, ToVec};
use num_bigint::BigUint;

#[test]
fn to_vec_of_scalar() {
    assert_eq!(7u64.to_vec(), vec![7u64]);
    assert_eq!(true.to_vec(), vec![true]);
}

#[test]
fn traversal_path_exact_digits() {
    // 11 in base 3 is 102, read least-significant first: [2, 0, 1, 0].
    assert_eq!(to_traversal_path(11, 4, 3), vec![2, 0, 1, 0]);
    // 6 in base 2 over height 3: 110, bottom-up [0, 1, 1].
    assert_eq!(to_traversal_path(6, 3, 2), vec![0, 1, 1]);
    // Low-order digits still decode beyond the capacity.
    assert_eq!(to_traversal_path(6, 2, 2), vec![0, 1]);
    assert_eq!(to_traversal_path(0, 0, 2), Vec::<usize>::new());
}

#[test]
fn traversal_path_deterministic_and_sized() {
    for pos in [0u64, 1, 7, 255, u64::MAX] {
        for (h, a) in [(1usize, 2usize), (5, 2), (7, 3), (64, 2)] {
            let p1 = to_traversal_path(pos, h, a);
            let p2 = to_traversal_path(pos, h, a);
            assert_eq!(p1, p2);
            assert_eq!(p1.len(), h);
            assert!(p1.iter().all(|&s| s < a));
        }
    }
}

#[test]
fn traversal_path_trait_matches_free_function() {
    let pos: u64 = 12345;
    assert_eq!(pos.to_traverse_path(10, 4), to_traversal_path(12345, 10, 4));
}

#[test]
fn biguint_traversal_path_agrees_with_u64() {
    let small = BigUint::from(11u64);
    assert_eq!(small.to_traverse_path(4, 3), to_traversal_path(11, 4, 3));
    let wide = BigUint::from(u64::MAX);
    assert_eq!(wide.to_traverse_path(70, 2), to_traversal_path(u64::MAX, 70, 2));
}

#[test]
fn biguint_traversal_path_beyond_u64() {
    // 2^70: seventy zero bits below a one.
    let big: BigUint = BigUint::from(1u64) << 70;
    let path = big.to_traverse_path(72, 2);
    assert_eq!(path.len(), 72);
    for (i, sel) in path.iter().enumerate() {
        assert_eq!(*sel, if i == 70 { 1 } else { 0 });
    }
}

#[test]
fn biguint_index_ops() {
    let x = BigUint::from(u64::MAX);
    let y = x.index_add(1).unwrap();
    assert_eq!(y, BigUint::from(u64::MAX) + 1u64);
    assert!(x.index_lt(&y));
    assert!(!y.index_lt(&x));
}

#[test]
fn u64_index_ops() {
    assert_eq!(5u64.index_add(2), Some(7));
    assert_eq!(u64::MAX.index_add(1), None);
    assert!(3u64.index_lt(&4));
    assert!(!4u64.index_lt(&4));
}

#[test]
fn digest_capability_basics() {
    // Deterministic, shape-sensitive, and distinct from the empty value.
    let d1 = MixDigest::digest(&[1, 2, 3]);
    assert_eq!(d1, MixDigest::digest(&[1, 2, 3]));
    assert_ne!(d1, MixDigest::digest(&[3, 2, 1]));
    assert_ne!(d1, u64::empty_value());
    let l1 = MixDigest::digest_leaf(&0, &1);
    assert_eq!(l1, MixDigest::digest_leaf(&0, &1));
    assert_ne!(l1, MixDigest::digest_leaf(&1, &1));
    assert_ne!(l1, MixDigest::digest_leaf(&0, &2));
}
