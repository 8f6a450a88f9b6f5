use merkle_engine::universal::UniversalMerkleTree;
use merkle_engine::digest::MixDigest;
use merkle_engine::errors::PrimitivesError;
use merkle_engine::merkle_traits::LookupResult;

type UTree2 = UniversalMerkleTree<u64, u64, MixDigest, 2>;
type UTree3 = UniversalMerkleTree<u64, u64, MixDigest, 3>;

#[test]
fn sparse_build_and_round_trip() {
    // Height 10, arity 2: capacity 1024; populate a scattered subset.
    let t = UTree2::from_kv_set(10, vec![(5, 100), (1000, 7), (0, 42)]).unwrap();
    assert_eq!(t.num_leaves(), 3);
    assert_eq!(t.capacity(), 1024);
    for (pos, val) in [(5u64, 100u64), (1000, 7), (0, 42)] {
        match t.lookup(pos) {
            LookupResult::Found(e, p) => {
                assert_eq!(e, val);
                assert_eq!(t.verify(pos, &p), Ok(true));
            },
            _ => panic!("expected Found at {pos}"),
        }
    }
    assert!(matches!(t.lookup(6), LookupResult::EmptyLeaf));
    assert!(matches!(t.lookup(1023), LookupResult::EmptyLeaf));
}

#[test]
fn from_kv_set_rejects_out_of_capacity_key() {
    assert!(matches!(
        UTree2::from_kv_set(3, vec![(1, 10), (8, 20)]),
        Err(PrimitivesError::CapacityExceeded)
    ));
    assert!(UTree2::from_kv_set(3, vec![(1, 10), (7, 20)]).is_ok());
}

#[test]
fn from_kv_set_duplicate_keys_later_wins() {
    let t = UTree2::from_kv_set(4, vec![(3, 1), (3, 2), (3, 9)]).unwrap();
    assert_eq!(t.num_leaves(), 1);
    match t.lookup(3) {
        LookupResult::Found(e, _) => assert_eq!(e, 9),
        _ => panic!("expected Found"),
    }
}

#[test]
fn update_returns_prior_state() {
    let mut t = UTree3::from_kv_set(4, vec![(5, 100)]).unwrap();
    assert_eq!(t.capacity(), 81);
    // Fresh position: prior state is EmptyLeaf, the count grows.
    assert!(matches!(t.update(6, 9), LookupResult::EmptyLeaf));
    assert_eq!(t.num_leaves(), 2);
    // Overwrite: prior state carries the old element, the count stays.
    assert!(matches!(t.update(5, 11), LookupResult::Found(100, ())));
    assert_eq!(t.num_leaves(), 2);
    match t.lookup(5) {
        LookupResult::Found(e, p) => {
            assert_eq!(e, 11);
            assert_eq!(t.verify(5, &p), Ok(true));
        },
        _ => panic!("expected Found"),
    }
}

#[test]
fn update_changes_root() {
    let mut t = UTree2::from_kv_set(5, vec![(3, 8)]).unwrap();
    let r0 = t.root();
    t.update(3, 9);
    assert_ne!(t.root(), r0);
    t.update(3, 8);
    assert_eq!(t.root(), r0);
}

#[test]
fn universal_forget_remember_inverse() {
    let mut t = UTree2::from_kv_set(6, vec![(10, 1), (20, 2), (33, 3)]).unwrap();
    let root_before = t.root();
    let (e, proof) = match t.forget(20) {
        LookupResult::Found(e, p) => (e, p),
        _ => panic!("expected Found"),
    };
    assert_eq!(e, 2);
    assert!(matches!(t.lookup(20), LookupResult::NotInMemory));
    assert_eq!(t.root(), root_before);
    assert_eq!(t.num_leaves(), 3);
    assert_eq!(t.remember(20, e, &proof), Ok(()));
    match t.lookup(20) {
        LookupResult::Found(e2, _) => assert_eq!(e2, 2),
        _ => panic!("expected Found after remember"),
    }
    assert_eq!(t.root(), root_before);
}

#[test]
fn universal_remember_rejects_wrong_element() {
    let mut t = UTree2::from_kv_set(6, vec![(10, 1), (20, 2)]).unwrap();
    let (_, proof) = match t.forget(20) {
        LookupResult::Found(e, p) => (e, p),
        _ => panic!("expected Found"),
    };
    // The proof folds to the root only with the committed element inside.
    let mut bad = proof.clone();
    bad.elem = 5;
    assert_eq!(t.remember(20, 5, &bad), Err(PrimitivesError::MismatchedRoot));
    assert!(matches!(t.lookup(20), LookupResult::NotInMemory));
}

#[test]
fn universal_commitment_matches_dense_content() {
    // The same content gives the same commitment however it was loaded.
    let t1 = UTree2::from_kv_set(4, vec![(0, 5), (1, 6)]).unwrap();
    let mut t2 = UTree2::from_kv_set(4, vec![(1, 6)]).unwrap();
    t2.update(0, 5);
    assert!(t1.commitment() == t2.commitment());
    assert_eq!(t1.root(), t2.root());
}

#[test]
fn huge_domain_admits_every_u64_position() {
    // Height 70, arity 2: the index domain 2^70 exceeds the 64-bit
    // position space; every u64 position, the largest included, is usable.
    let mut t = UTree2::from_kv_set(70, vec![(u64::MAX, 9)]).unwrap();
    assert_eq!(t.capacity(), u64::MAX);
    match t.lookup(u64::MAX) {
        LookupResult::Found(e, p) => {
            assert_eq!(e, 9);
            assert_eq!(t.verify(u64::MAX, &p), Ok(true));
        },
        _ => panic!("expected Found"),
    }
    assert!(matches!(t.update(u64::MAX, 10), LookupResult::Found(9, ())));
    assert_eq!(t.num_leaves(), 1);
}

#[test]
fn empty_universal_tree() {
    let t = UTree2::from_kv_set(8, Vec::new()).unwrap();
    assert_eq!(t.num_leaves(), 0);
    assert_eq!(t.root(), 0);
    assert!(matches!(t.lookup(0), LookupResult::EmptyLeaf));
}
