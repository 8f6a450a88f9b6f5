use merkle_engine::append::MerkleTree;
use merkle_engine::digest::MixDigest;
use merkle_engine::errors::PrimitivesError;
use merkle_engine::merkle_traits::LookupResult;

type Tree2 = MerkleTree<u64, u64, MixDigest, 2>;
type Tree3 = MerkleTree<u64, u64, MixDigest, 3>;

#[test]
fn scenario_arity2_height2() {
    // Arity 2, height 2, capacity 4: insert [A, B, C].
    let a: u64 = 10;
    let b: u64 = 20;
    let c: u64 = 30;
    let mut t = Tree2::from_elems(2, vec![a, b, c]).unwrap();
    assert_eq!(t.num_leaves(), 3);
    assert_eq!(t.capacity(), 4);
    assert!(matches!(t.lookup(3), LookupResult::EmptyLeaf));
    let (e, proof_b) = match t.lookup(1) {
        LookupResult::Found(e, p) => (e, p),
        _ => panic!("expected Found"),
    };
    assert_eq!(e, b);
    assert_eq!(t.verify(1, &proof_b), Ok(true));

    // forget(0) returns the prior Found(A, proof_A).
    let root_before = t.root();
    let (e0, proof_a) = match t.forget(0) {
        LookupResult::Found(e, p) => (e, p),
        _ => panic!("expected Found"),
    };
    assert_eq!(e0, a);
    assert!(matches!(t.lookup(0), LookupResult::NotInMemory));
    assert_eq!(t.root(), root_before);
    // remember(0, A, proof_A) succeeds and restores lookup(0).
    assert_eq!(t.remember(0, a, &proof_a), Ok(()));
    match t.lookup(0) {
        LookupResult::Found(e, p) => {
            assert_eq!(e, a);
            assert_eq!(t.verify(0, &p), Ok(true));
        },
        _ => panic!("expected Found after remember"),
    }
    assert_eq!(t.root(), root_before);
}

#[test]
fn round_trip_all_positions() {
    let elems: Vec<u64> = (0..7).map(|i| 100 + i).collect();
    let t = Tree3::from_elems(2, elems).unwrap();
    assert_eq!(t.capacity(), 9);
    for pos in 0..7u64 {
        match t.lookup(pos) {
            LookupResult::Found(e, p) => {
                assert_eq!(e, 100 + pos);
                assert_eq!(t.verify(pos, &p), Ok(true));
            },
            _ => panic!("expected Found at {pos}"),
        }
    }
    assert!(matches!(t.lookup(7), LookupResult::EmptyLeaf));
    assert!(matches!(t.lookup(9), LookupResult::EmptyLeaf));
}

#[test]
fn capacity_bound_from_elems() {
    // len > arity^height fails with CapacityExceeded, exactly.
    assert!(matches!(
        Tree2::from_elems(2, vec![1, 2, 3, 4, 5]),
        Err(PrimitivesError::CapacityExceeded)
    ));
    assert!(Tree2::from_elems(2, vec![1, 2, 3, 4]).is_ok());
}

#[test]
fn capacity_bound_push() {
    let mut t = Tree2::from_elems(2, vec![1, 2, 3, 4]).unwrap();
    assert_eq!(t.push(5), Err(PrimitivesError::CapacityExceeded));
    assert_eq!(t.num_leaves(), 4);
}

#[test]
fn extend_partial_insertion_observable() {
    let mut t = Tree2::from_elems(2, vec![1, 2, 3]).unwrap();
    // Room for one more; the first element of the batch is committed.
    assert_eq!(t.extend(vec![4, 5]), Err(PrimitivesError::CapacityExceeded));
    assert_eq!(t.num_leaves(), 4);
    match t.lookup(3) {
        LookupResult::Found(e, p) => {
            assert_eq!(e, 4);
            assert_eq!(t.verify(3, &p), Ok(true));
        },
        _ => panic!("expected Found at the frontier"),
    }
}

#[test]
fn extend_within_capacity() {
    let mut t = Tree3::from_elems(2, vec![1, 2]).unwrap();
    assert_eq!(t.extend(vec![3, 4, 5]), Ok(()));
    assert_eq!(t.num_leaves(), 5);
    match t.lookup(4) {
        LookupResult::Found(e, _) => assert_eq!(e, 5),
        _ => panic!("expected Found"),
    }
}

#[test]
fn tamper_detection_sibling_digest() {
    let t = Tree2::from_elems(2, vec![10, 20, 30]).unwrap();
    let proof = match t.lookup(1) {
        LookupResult::Found(_, p) => p,
        _ => panic!("expected Found"),
    };
    // Flipping any single sibling digest must make verify reject.
    for level in 0..2 {
        for k in 0..1 {
            let mut bad = proof.clone();
            bad.siblings[level][k] ^= 1;
            assert_eq!(t.verify(1, &bad), Ok(false));
        }
    }
}

#[test]
fn tamper_detection_substituted_element() {
    let t = Tree2::from_elems(2, vec![10, 20, 30]).unwrap();
    let proof = match t.lookup(1) {
        LookupResult::Found(_, p) => p,
        _ => panic!("expected Found"),
    };
    let mut bad = proof.clone();
    bad.elem = 21;
    assert_eq!(t.verify(1, &bad), Ok(false));
}

#[test]
fn tamper_detection_remember_rejects() {
    let mut t = Tree2::from_elems(2, vec![10, 20, 30]).unwrap();
    let (e, proof) = match t.forget(0) {
        LookupResult::Found(e, p) => (e, p),
        _ => panic!("expected Found"),
    };
    let mut bad = proof.clone();
    bad.siblings[1][0] ^= 1;
    assert_eq!(t.remember(0, e, &bad), Err(PrimitivesError::MismatchedRoot));
    // The failed remember left the leaf forgotten; the good proof works.
    assert!(matches!(t.lookup(0), LookupResult::NotInMemory));
    assert_eq!(t.remember(0, e, &proof), Ok(()));
}

#[test]
fn remember_rejects_mismatched_element() {
    let mut t = Tree2::from_elems(2, vec![10, 20, 30]).unwrap();
    let (_, proof_a) = match t.forget(0) {
        LookupResult::Found(e, p) => (e, p),
        _ => panic!("expected Found"),
    };
    // The proof still folds to the root (its own element is the committed
    // one), but the offered element disagrees with the retained stub.
    assert_eq!(t.remember(0, 11, &proof_a), Err(PrimitivesError::InvalidProof));
    assert!(matches!(t.lookup(0), LookupResult::NotInMemory));
    assert_eq!(t.remember(0, 10, &proof_a), Ok(()));
}

#[test]
fn malformed_proof_wrong_group_count() {
    let t = Tree2::from_elems(2, vec![10, 20, 30]).unwrap();
    let proof = match t.lookup(1) {
        LookupResult::Found(_, p) => p,
        _ => panic!("expected Found"),
    };
    let mut bad = proof.clone();
    bad.siblings.pop();
    assert_eq!(t.verify(1, &bad), Err(PrimitivesError::MalformedProof));
}

#[test]
fn malformed_proof_wrong_group_width() {
    let t = Tree2::from_elems(2, vec![10, 20, 30]).unwrap();
    let proof = match t.lookup(1) {
        LookupResult::Found(_, p) => p,
        _ => panic!("expected Found"),
    };
    let mut bad = proof.clone();
    bad.siblings[0].push(7);
    assert_eq!(t.verify(1, &bad), Err(PrimitivesError::MalformedProof));
}

#[test]
fn frontier_protection() {
    let mut t = Tree2::from_elems(2, vec![10, 20, 30]).unwrap();
    // Forgetting the most recently inserted position is a no-op that still
    // hands back the lookup result.
    match t.forget(2) {
        LookupResult::Found(e, _) => assert_eq!(e, 30),
        _ => panic!("expected Found"),
    }
    match t.lookup(2) {
        LookupResult::Found(e, _) => assert_eq!(e, 30),
        _ => panic!("frontier must stay materialized"),
    }
    // A later insertion supersedes the frontier; then position 2 can go.
    t.push(40).unwrap();
    assert!(matches!(t.forget(2), LookupResult::Found(_, _)));
    assert!(matches!(t.lookup(2), LookupResult::NotInMemory));
}

#[test]
fn forget_edge_cases() {
    let mut t = Tree2::from_elems(2, vec![10, 20, 30]).unwrap();
    assert!(matches!(t.forget(3), LookupResult::EmptyLeaf));
    assert!(matches!(t.forget(17), LookupResult::EmptyLeaf));
    assert!(matches!(t.forget(0), LookupResult::Found(_, _)));
    assert!(matches!(t.forget(0), LookupResult::NotInMemory));
}

#[test]
fn commitment_projection() {
    let t = Tree2::from_elems(2, vec![10, 20, 30]).unwrap();
    let c = t.commitment();
    assert_eq!(c.root_value, t.root());
    assert_eq!(c.height, 2);
    assert_eq!(c.num_leaves, 3);
    let t2 = Tree2::from_elems(2, vec![10, 20, 30]).unwrap();
    assert!(t2.commitment() == c);
}

#[test]
fn empty_tree_and_height_zero() {
    let t = Tree2::from_elems(3, Vec::new()).unwrap();
    assert_eq!(t.num_leaves(), 0);
    assert_eq!(t.root(), 0);
    assert!(matches!(t.lookup(0), LookupResult::EmptyLeaf));

    // A height-0 tree holds exactly one leaf, which is its own root.
    let t0 = Tree2::from_elems(0, vec![99]).unwrap();
    assert_eq!(t0.capacity(), 1);
    match t0.lookup(0) {
        LookupResult::Found(e, p) => {
            assert_eq!(e, 99);
            assert!(p.siblings.is_empty());
            assert_eq!(t0.verify(0, &p), Ok(true));
        },
        _ => panic!("expected Found"),
    }
    assert!(matches!(
        Tree2::from_elems(0, vec![1, 2]),
        Err(PrimitivesError::CapacityExceeded)
    ));
}

#[test]
fn proof_stays_valid_for_old_commitment() {
    // A proof is frozen at issuance: after a mutation it verifies against
    // the old root, not necessarily the new one.
    let mut t = Tree2::from_elems(2, vec![10, 20]).unwrap();
    let proof = match t.lookup(1) {
        LookupResult::Found(_, p) => p,
        _ => panic!("expected Found"),
    };
    let old_root = t.root();
    t.push(30).unwrap();
    assert_ne!(t.root(), old_root);
    assert_eq!(t.verify(1, &proof), Ok(false));
}

#[test]
fn expect_ok_three_ways() {
    let found: LookupResult<u64, u64> = LookupResult::Found(5, 9);
    assert_eq!(found.expect_ok(), Ok((5, 9)));
    let pruned: LookupResult<u64, u64> = LookupResult::NotInMemory;
    assert_eq!(pruned.expect_ok(), Err(PrimitivesError::InternalError));
    let absent: LookupResult<u64, u64> = LookupResult::EmptyLeaf;
    assert_eq!(absent.expect_ok(), Err(PrimitivesError::InternalError));
}
