//! The append-only Merkle tree: a dense, leftmost-insertion accumulator.
//! Leaves occupy positions `0..num_leaves` contiguously; insertion happens
//! at the frontier, and only the ancestors of the new leaf are redigested.
//! The forget/remember overlay prunes leaf elements from memory while the
//! digest stubs keep the root and every other proof recomputable.

use vstd::prelude::*;
use vstd::arithmetic::power::pow;
use core::marker::PhantomData;
use crate::errors::PrimitivesError;
use crate::merkle_traits::{Element, NodeValue, DigestAlgorithm, LookupResult};
use crate::membership::{MerkleProof, MerkleCommitment};
use crate::model::{
    in_range, map_value, proof_fold, lookup_sibs, tree_capacity, compute_capacity,
    lemma_tree_capacity_le_pow, lemma_fold_reconstructs, lemma_in_range_div, lemma_pow_pos,
    lemma_zero_prefix_range,
};
use crate::node::MerkleNode;
use crate::path::to_traversal_path;

verus! {

/// An append-only Merkle tree of the given arity, over a pluggable element
/// type `E`, node-digest type `T` and digest capability `H`. Positions are
/// 64-bit, so the addressable capacity is `ARITY^height` clamped to the
/// 64-bit index domain.
pub struct MerkleTree<E: Element, T: NodeValue, H: DigestAlgorithm<E, u64, T>, const ARITY: usize> {
    height: usize,
    num_leaves: u64,
    root: MerkleNode<E, T>,
    contents: Ghost<Map<nat, E>>,
    _digest: PhantomData<H>,
}

impl<E: Element, T: NodeValue, H: DigestAlgorithm<E, u64, T>, const ARITY: usize> MerkleTree<
    E,
    T,
    H,
    ARITY,
> {
    /// The committed leaf map: position to element, for every leaf ever
    /// inserted, whether or not its element is still materialized.
    pub closed spec fn contents(self) -> Map<nat, E> {
        self.contents@
    }

    /// The tree height.
    pub closed spec fn spec_height(self) -> nat {
        self.height as nat
    }

    /// The number of leaves inserted so far.
    pub closed spec fn spec_num_leaves(self) -> nat {
        self.num_leaves as nat
    }

    /// The current root digest.
    pub closed spec fn root_value(self) -> T {
        self.root.node_value()
    }

    /// The three-way status of a position: present with its element,
    /// forgotten, or never assigned.
    pub closed spec fn leaf_status(self, pos: nat) -> LookupResult<E, ()> {
        self.root.find(ARITY as nat, self.height as nat, pos)
    }

    /// The tree invariant: the node storage is well-formed against the
    /// committed map, the committed positions are exactly `0..num_leaves`,
    /// and the leaf count respects the capacity.
    pub closed spec fn wf(self) -> bool {
        &&& ARITY >= 1
        &&& self.root.wf::<H>(ARITY as nat, self.height as nat, 0, self.contents@)
        &&& (forall|k: nat| self.contents@.contains_key(k) <==> k
            < self.num_leaves as nat)
        &&& self.num_leaves as nat <= tree_capacity(ARITY as nat, self.height as nat)
    }

    /// A well-formed tree's root digest is the canonical digest of its
    /// committed leaf map.
    pub proof fn lemma_root_digest(self)
        requires
            self.wf(),
        ensures
            self.root_value() == map_value::<E, T, H>(
                self.contents(),
                ARITY as nat,
                self.spec_height(),
                0,
            ),
    {
        self.root.lemma_wf_value::<H>(ARITY as nat, self.height as nat, 0, self.contents@);
    }

    /// Every position below the leaf count is in the root's range.
    proof fn lemma_pos_in_range(self, pos: nat)
        requires
            self.wf(),
            pos < self.spec_num_leaves(),
        ensures
            in_range(ARITY as nat, self.spec_height(), 0, pos),
            pos < pow(ARITY as int, self.spec_height()),
    {
        lemma_tree_capacity_le_pow(ARITY as nat, self.spec_height());
        lemma_pow_pos(ARITY as int, self.spec_height());
        lemma_zero_prefix_range(ARITY as nat, self.spec_height(), pos);
    }

    /// The status of a position agrees with the committed map: a present
    /// status carries the committed element, and exactly the committed
    /// positions are present or forgotten.
    pub proof fn lemma_status_agrees(self, pos: nat)
        requires
            self.wf(),
            pos < pow(ARITY as int, self.spec_height()),
        ensures
            match self.leaf_status(pos) {
                LookupResult::Found(e, _) => self.contents().contains_key(pos)
                    && self.contents()[pos] == e,
                LookupResult::NotInMemory => self.contents().contains_key(pos),
                LookupResult::EmptyLeaf => !self.contents().contains_key(pos),
            },
    {
        lemma_pow_pos(ARITY as int, self.spec_height());
        lemma_zero_prefix_range(ARITY as nat, self.spec_height(), pos);
        self.root.lemma_wf_find::<H>(
            ARITY as nat,
            self.height as nat,
            0,
            self.contents@,
            pos,
        );
    }

    /// Return the height of this Merkle tree.
    pub fn height(&self) -> (r: usize)
        ensures
            r == self.spec_height(),
    {
        self.height
    }

    /// Return the maximum number of leaf positions this tree can address:
    /// `ARITY^height`, clamped to the 64-bit index domain.
    pub fn capacity(&self) -> (r: u64)
        requires
            self.wf(),
        ensures
            r as nat == tree_capacity(ARITY as nat, self.spec_height()),
    {
        compute_capacity(ARITY, self.height)
    }

    /// Return the current number of leaves.
    pub fn num_leaves(&self) -> (r: u64)
        ensures
            r as nat == self.spec_num_leaves(),
    {
        self.num_leaves
    }

    /// Return the current root digest.
    pub fn root(&self) -> (r: T)
        ensures
            r == self.root_value(),
    {
        self.root.value_exec()
    }

    /// Return a Merkle commitment: a pure projection of the cached root,
    /// height and leaf count.
    pub fn commitment(&self) -> (r: MerkleCommitment<T>)
        ensures
            r.root_value == self.root_value(),
            r.height == self.spec_height(),
            r.num_leaves as nat == self.spec_num_leaves(),
    {
        MerkleCommitment {
            root_value: self.root.value_exec(),
            height: self.height,
            num_leaves: self.num_leaves,
        }
    }

    /// Construct a new Merkle tree of the given height holding the given
    /// elements at the contiguous positions `0..elems.len()`. Fails with
    /// `CapacityExceeded` exactly when the elements do not fit.
    #[verifier::loop_isolation(false)]
    pub fn from_elems(height: usize, elems: Vec<E>) -> (r: Result<Self, PrimitivesError>)
        requires
            ARITY >= 1,
        ensures
            r is Err <==> elems@.len() > pow(ARITY as int, height as nat),
            r is Err ==> r == Err::<Self, PrimitivesError>(PrimitivesError::CapacityExceeded),
            match r {
                Ok(t) => {
                    &&& t.wf()
                    &&& t.spec_height() == height
                    &&& t.spec_num_leaves() == elems@.len()
                    &&& (forall|i: nat| i < elems@.len() ==> t.contents().contains_key(i)
                        && t.contents()[i] == elems@[i as int])
                    &&& (forall|i: nat| i < elems@.len() ==> t.leaf_status(i)
                        == LookupResult::<E, ()>::Found(elems@[i as int], ()))
                },
                Err(_) => true,
            },
    {
        let cap = compute_capacity(ARITY, height);
        proof {
            lemma_tree_capacity_le_pow(ARITY as nat, height as nat);
            lemma_pow_pos(ARITY as int, height as nat);
        }
        if elems.len() as u64 > cap {
            return Err(PrimitivesError::CapacityExceeded);
        }
        let mut t = MerkleTree {
            height,
            num_leaves: 0u64,
            root: MerkleNode::<E, T>::Empty,
            contents: Ghost(Map::<nat, E>::empty()),
            _digest: PhantomData,
        };
        let n = elems.len();
        let mut i: usize = 0;
        while i < n
            invariant
                t.wf(),
                ARITY >= 1,
                i <= n,
                n == elems@.len(),
                n as nat <= tree_capacity(ARITY as nat, height as nat),
                t.spec_height() == height,
                t.spec_num_leaves() == i,
                forall|q: nat| q < i ==> t.contents().contains_key(q) && t.contents()[q]
                    == elems@[q as int],
                forall|q: nat| q < i ==> t.leaf_status(q) == LookupResult::<E, ()>::Found(
                    elems@[q as int],
                    (),
                ),
            decreases n - i,
        {
            let res = t.push(elems[i]);
            proof {
                assert(res is Ok);
                assert forall|q: nat| q < i + 1 implies t.leaf_status(q)
                    == LookupResult::<E, ()>::Found(elems@[q as int], ()) by {
                    if q < i {
                        lemma_zero_prefix_range(ARITY as nat, height as nat, q);
                    }
                }
            }
            i = i + 1;
        }
        Ok(t)
    }

    /// Insert a new element at the leftmost available slot. Fails with
    /// `CapacityExceeded`, leaving the tree untouched, exactly when the
    /// tree is full. The capacity is `ARITY^height` clamped to the 64-bit
    /// index domain: positions and the leaf counter are 64-bit, so the
    /// clamp departs from the exact power only beyond `u64::MAX` leaves.
    pub fn push(&mut self, elem: E) -> (r: Result<(), PrimitivesError>)
        requires
            old(self).wf(),
        ensures
            r is Ok <==> old(self).spec_num_leaves() < tree_capacity(
                ARITY as nat,
                old(self).spec_height(),
            ),
            r is Err ==> r == Err::<(), PrimitivesError>(PrimitivesError::CapacityExceeded)
                && *final(self) == *old(self),
            r is Ok ==> {
                &&& final(self).wf()
                &&& final(self).spec_height() == old(self).spec_height()
                &&& final(self).spec_num_leaves() == old(self).spec_num_leaves() + 1
                &&& final(self).contents() == old(self).contents().insert(
                    old(self).spec_num_leaves(),
                    elem,
                )
                &&& final(self).leaf_status(old(self).spec_num_leaves())
                    == LookupResult::<E, ()>::Found(elem, ())
                &&& (forall|q: nat| in_range(ARITY as nat, old(self).spec_height(), 0, q) && q
                    != old(self).spec_num_leaves() ==> final(self).leaf_status(q)
                    == old(self).leaf_status(q))
            },
    {
        let cap = compute_capacity(ARITY, self.height);
        let n = self.num_leaves;
        if n >= cap {
            return Err(PrimitivesError::CapacityExceeded);
        }
        proof {
            lemma_tree_capacity_le_pow(ARITY as nat, self.height as nat);
            lemma_pow_pos(ARITY as int, self.height as nat);
            lemma_zero_prefix_range(ARITY as nat, self.height as nat, n as nat);
        }
        let path = to_traversal_path(n, self.height, ARITY);
        let mut tmp = MerkleNode::<E, T>::Empty;
        core::mem::swap(&mut tmp, &mut self.root);
        let (newroot, _prev) = tmp.node_update::<H>(
            ARITY,
            self.height,
            &path,
            n,
            elem,
            Ghost(0nat),
            Ghost(self.contents@),
        );
        self.root = newroot;
        self.num_leaves = n + 1;
        proof {
            self.contents@ = self.contents@.insert(n as nat, elem);
        }
        Ok(())
    }

    /// Insert a list of elements at the leftmost available slots, in order.
    /// On hitting capacity the already-inserted prefix stays committed and
    /// `CapacityExceeded` is reported: partial insertion is observable, not
    /// rolled back. The capacity is `ARITY^height` clamped to the 64-bit
    /// index domain, as for `push`.
    #[verifier::loop_isolation(false)]
    pub fn extend(&mut self, elems: Vec<E>) -> (r: Result<(), PrimitivesError>)
        requires
            old(self).wf(),
        ensures
            final(self).wf(),
            final(self).spec_height() == old(self).spec_height(),
            r is Ok <==> old(self).spec_num_leaves() + elems@.len() <= tree_capacity(
                ARITY as nat,
                old(self).spec_height(),
            ),
            r is Err ==> r == Err::<(), PrimitivesError>(PrimitivesError::CapacityExceeded),
            final(self).spec_num_leaves() == if old(self).spec_num_leaves() + elems@.len()
                <= tree_capacity(ARITY as nat, old(self).spec_height()) {
                old(self).spec_num_leaves() + elems@.len()
            } else {
                tree_capacity(ARITY as nat, old(self).spec_height())
            },
            forall|i: nat| old(self).spec_num_leaves() + i < final(self).spec_num_leaves()
                ==> final(self).contents().contains_key(old(self).spec_num_leaves() + i)
                && final(self).contents()[old(self).spec_num_leaves() + i] == elems@[i as int],
            forall|i: nat| old(self).spec_num_leaves() + i < final(self).spec_num_leaves()
                ==> final(self).leaf_status(old(self).spec_num_leaves() + i)
                == LookupResult::<E, ()>::Found(elems@[i as int], ()),
            forall|k: nat| k < old(self).spec_num_leaves()
                ==> old(self).contents().contains_key(k)
                && final(self).contents().contains_key(k)
                && final(self).contents()[k] == old(self).contents()[k],
            forall|q: nat| in_range(ARITY as nat, old(self).spec_height(), 0, q) && q
                < old(self).spec_num_leaves() ==> final(self).leaf_status(q)
                == old(self).leaf_status(q),
    {
        let n = elems.len();
        let mut i: usize = 0;
        while i < n
            invariant
                self.wf(),
                i <= n,
                n == elems@.len(),
                self.spec_height() == old(self).spec_height(),
                self.spec_num_leaves() == old(self).spec_num_leaves() + i,
                old(self).spec_num_leaves() + i <= tree_capacity(
                    ARITY as nat,
                    old(self).spec_height(),
                ),
                forall|j: nat| old(self).spec_num_leaves() + j < self.spec_num_leaves()
                    ==> self.contents().contains_key(old(self).spec_num_leaves() + j)
                    && self.contents()[old(self).spec_num_leaves() + j] == elems@[j as int],
                forall|j: nat| old(self).spec_num_leaves() + j < self.spec_num_leaves()
                    ==> self.leaf_status(old(self).spec_num_leaves() + j)
                    == LookupResult::<E, ()>::Found(elems@[j as int], ()),
                forall|k: nat| k < old(self).spec_num_leaves()
                    ==> old(self).contents().contains_key(k) && self.contents().contains_key(k)
                    && self.contents()[k] == old(self).contents()[k],
                forall|q: nat| in_range(ARITY as nat, old(self).spec_height(), 0, q) && q
                    < old(self).spec_num_leaves() ==> self.leaf_status(q)
                    == old(self).leaf_status(q),
            decreases n - i,
        {
            let res = self.push(elems[i]);
            match res {
                Ok(()) => {
                },
                Err(e) => {
                    proof {
                        assert(self.spec_num_leaves() == tree_capacity(
                            ARITY as nat,
                            old(self).spec_height(),
                        ));
                        assert(old(self).spec_num_leaves() + n > tree_capacity(
                            ARITY as nat,
                            old(self).spec_height(),
                        ));
                    }
                    return Err(e);
                },
            }
            proof {
                assert forall|j: nat| old(self).spec_num_leaves() + j < self.spec_num_leaves()
                    implies self.leaf_status(old(self).spec_num_leaves() + j)
                    == LookupResult::<E, ()>::Found(elems@[j as int], ()) by {
                    let q = old(self).spec_num_leaves() + j;
                    if q + 1 < self.spec_num_leaves() {
                        lemma_tree_capacity_le_pow(ARITY as nat, old(self).spec_height());
                        lemma_zero_prefix_range(ARITY as nat, old(self).spec_height(), q);
                    }
                }
            }
            i = i + 1;
        }
        Ok(())
    }

    /// Return the leaf at `pos` together with a freshly built membership
    /// proof: `EmptyLeaf` outside the occupied range, `NotInMemory` for a
    /// forgotten leaf, and otherwise the element with its proof.
    pub fn lookup(&self, pos: u64) -> (r: LookupResult<E, MerkleProof<E, T>>)
        requires
            self.wf(),
        ensures
            r is EmptyLeaf <==> pos as nat >= self.spec_num_leaves(),
            r is NotInMemory <==> ((pos as nat) < self.spec_num_leaves() && self.leaf_status(
                pos as nat,
            ) is NotInMemory),
            match r {
                LookupResult::Found(e, pf) => {
                    &&& self.leaf_status(pos as nat) == LookupResult::<E, ()>::Found(e, ())
                    &&& self.contents().contains_key(pos as nat)
                    &&& self.contents()[pos as nat] == e
                    &&& pf.elem == e
                    &&& pf.structurally_valid(ARITY as nat, self.spec_height())
                    &&& pf.sibs_view() == lookup_sibs::<E, T, H>(
                        self.contents(),
                        ARITY as nat,
                        self.spec_height(),
                        pos as nat,
                    )
                },
                LookupResult::NotInMemory => self.contents().contains_key(pos as nat),
                LookupResult::EmptyLeaf => !self.contents().contains_key(pos as nat),
            },
    {
        if pos >= self.num_leaves {
            return LookupResult::EmptyLeaf;
        }
        proof {
            self.lemma_pos_in_range(pos as nat);
            self.lemma_status_agrees(pos as nat);
        }
        let path = to_traversal_path(pos, self.height, ARITY);
        let (st, sibs) = self.root.node_lookup::<H>(
            ARITY,
            self.height,
            &path,
            Ghost(0nat),
            Ghost(pos as nat),
            Ghost(self.contents@),
        );
        match st {
            LookupResult::Found(e, _) => {
                let pf = MerkleProof { elem: e, siblings: sibs };
                proof {
                    assert(st is Found);
                    assert(st->0 == e);
                    assert(st->1 == ());
                    assert(st == LookupResult::<E, ()>::Found(e, ()));
                    assert(self.leaf_status(pos as nat) == LookupResult::<E, ()>::Found(
                        e,
                        (),
                    ));
                    assert(pf.sibs_view() =~= lookup_sibs::<E, T, H>(
                        self.contents@,
                        ARITY as nat,
                        self.height as nat,
                        pos as nat,
                    ));
                    assert forall|i: int| 0 <= i < self.spec_height() implies (
                    #[trigger] pf.siblings@[i])@.len() == ARITY as nat - 1 by {
                        assert(pf.siblings@[i]@ == crate::model::sibling_group::<E, T, H>(
                            self.contents@,
                            ARITY as nat,
                            pos as nat,
                            i as nat,
                        ));
                    }
                }
                LookupResult::Found(e, pf)
            },
            LookupResult::NotInMemory => LookupResult::NotInMemory,
            LookupResult::EmptyLeaf => {
                proof {
                    assert(false);
                }
                LookupResult::EmptyLeaf
            },
        }
    }

    /// Verify a membership proof for position `pos` against the current
    /// root: recompute the traversal path, fold the claimed leaf through
    /// the proof's sibling groups bottom-up, and compare with the root.
    /// Reports `MalformedProof` exactly when the proof's shape does not
    /// match the tree's height and arity.
    pub fn verify(&self, pos: u64, mproof: &MerkleProof<E, T>) -> (r: Result<
        bool,
        PrimitivesError,
    >)
        requires
            self.wf(),
        ensures
            r is Ok <==> mproof.structurally_valid(ARITY as nat, self.spec_height()),
            r is Err ==> r == Err::<bool, PrimitivesError>(PrimitivesError::MalformedProof),
            match r {
                Ok(b) => b == (proof_fold::<E, T, H>(
                    ARITY as nat,
                    pos as nat,
                    H::spec_digest_leaf(pos, mproof.elem),
                    mproof.sibs_view(),
                ) == self.root_value()),
                Err(_) => true,
            },
    {
        match mproof.compute_root::<H>(pos, ARITY, self.height) {
            Ok(v) => {
                let rootv = self.root.value_exec();
                Ok(v.eq_value(&rootv))
            },
            Err(e) => Err(e),
        }
    }

    /// Round-trip membership law: for every committed position of a
    /// well-formed tree, folding its leaf digest through the sibling stack
    /// that `lookup` hands out reconstructs the tree's root digest, so
    /// `verify` accepts the pair that `lookup` returned.
    pub proof fn lemma_round_trip_membership(self, pos: nat)
        requires
            self.wf(),
            self.contents().contains_key(pos),
        ensures
            proof_fold::<E, T, H>(
                ARITY as nat,
                pos,
                H::spec_digest_leaf(pos as u64, self.contents()[pos]),
                lookup_sibs::<E, T, H>(
                    self.contents(),
                    ARITY as nat,
                    self.spec_height(),
                    pos,
                ),
            ) == self.root_value(),
    {
        let an = ARITY as nat;
        let h = self.spec_height();
        let m = self.contents@;
        assert(pos < self.spec_num_leaves());
        self.lemma_pos_in_range(pos);
        lemma_fold_reconstructs::<E, T, H>(m, an, h, pos);
        lemma_in_range_div(an, h, 0, pos);
        assert((pos as int / pow(an as int, h)) as nat == 0);
        self.lemma_root_digest();
        assert(lookup_sibs::<E, T, H>(m, an, h, pos) =~= Seq::new(
            h,
            |l: int| crate::model::sibling_group::<E, T, H>(m, an, pos, l as nat),
        ));
    }

    /// Trim the element at `pos` from memory, if present. The returned
    /// value is exactly what `lookup(pos)` would have returned immediately
    /// before the call. The committed contents, the root digest and every
    /// other position's status are untouched. The most recently inserted
    /// leaf is never trimmed: on the frontier position the call is a no-op
    /// that still hands back the lookup result.
    pub fn forget(&mut self, pos: u64) -> (r: LookupResult<E, MerkleProof<E, T>>)
        requires
            old(self).wf(),
        ensures
            final(self).wf(),
            final(self).contents() == old(self).contents(),
            final(self).spec_height() == old(self).spec_height(),
            final(self).spec_num_leaves() == old(self).spec_num_leaves(),
            final(self).root_value() == old(self).root_value(),
            r is EmptyLeaf <==> pos as nat >= old(self).spec_num_leaves(),
            match r {
                LookupResult::Found(e, pf) => {
                    &&& old(self).leaf_status(pos as nat) == LookupResult::<E, ()>::Found(
                        e,
                        (),
                    )
                    &&& old(self).contents().contains_key(pos as nat)
                    &&& old(self).contents()[pos as nat] == e
                    &&& pf.elem == e
                    &&& pf.structurally_valid(ARITY as nat, old(self).spec_height())
                    &&& pf.sibs_view() == lookup_sibs::<E, T, H>(
                        old(self).contents(),
                        ARITY as nat,
                        old(self).spec_height(),
                        pos as nat,
                    )
                },
                LookupResult::NotInMemory => old(self).contents().contains_key(pos as nat)
                    && old(self).leaf_status(pos as nat) is NotInMemory,
                LookupResult::EmptyLeaf => !old(self).contents().contains_key(pos as nat),
            },
            pos as nat + 1 == old(self).spec_num_leaves() ==> *final(self) == *old(self),
            !(r is Found) ==> *final(self) == *old(self),
            (r is Found && pos as nat + 1 != old(self).spec_num_leaves()) ==> {
                &&& final(self).leaf_status(pos as nat) == LookupResult::<E, ()>::NotInMemory
                &&& (forall|q: nat| in_range(ARITY as nat, old(self).spec_height(), 0, q) && q
                    != pos as nat ==> final(self).leaf_status(q) == old(self).leaf_status(q))
            },
    {
        let r = self.lookup(pos);
        let found = match &r {
            LookupResult::Found(_, _) => true,
            _ => false,
        };
        if found && pos + 1 != self.num_leaves {
            proof {
                self.lemma_pos_in_range(pos as nat);
            }
            let path = to_traversal_path(pos, self.height, ARITY);
            let mut tmp = MerkleNode::<E, T>::Empty;
            core::mem::swap(&mut tmp, &mut self.root);
            let newroot = tmp.node_forget::<H>(
                ARITY,
                self.height,
                &path,
                Ghost(0nat),
                Ghost(pos as nat),
                Ghost(self.contents@),
            );
            self.root = newroot;
        }
        r
    }

    /// Reinstall a previously forgotten element, validated against the
    /// current root via its proof: the proof must be structurally valid,
    /// fold to the current root, and its digest must match the stub the
    /// tree has retained for the position. On failure the tree state is
    /// unchanged and `MalformedProof`, `MismatchedRoot` or `InvalidProof`
    /// tells the caller which check refused the pair.
    pub fn remember(&mut self, pos: u64, elem: E, mproof: &MerkleProof<E, T>) -> (r: Result<
        (),
        PrimitivesError,
    >)
        requires
            old(self).wf(),
        ensures
            final(self).wf(),
            final(self).spec_height() == old(self).spec_height(),
            final(self).spec_num_leaves() == old(self).spec_num_leaves(),
            final(self).root_value() == old(self).root_value(),
            r is Ok <==> {
                &&& mproof.structurally_valid(ARITY as nat, old(self).spec_height())
                &&& proof_fold::<E, T, H>(
                    ARITY as nat,
                    pos as nat,
                    H::spec_digest_leaf(pos, mproof.elem),
                    mproof.sibs_view(),
                ) == old(self).root_value()
                &&& (pos as nat) < old(self).spec_num_leaves()
                &&& H::spec_digest_leaf(pos, elem) == H::spec_digest_leaf(
                    pos,
                    old(self).contents()[pos as nat],
                )
            },
            !mproof.structurally_valid(ARITY as nat, old(self).spec_height()) ==> r
                == Err::<(), PrimitivesError>(PrimitivesError::MalformedProof) && *final(self)
                == *old(self),
            (mproof.structurally_valid(ARITY as nat, old(self).spec_height()) && proof_fold::<
                E,
                T,
                H,
            >(
                ARITY as nat,
                pos as nat,
                H::spec_digest_leaf(pos, mproof.elem),
                mproof.sibs_view(),
            ) != old(self).root_value()) ==> r == Err::<(), PrimitivesError>(
                PrimitivesError::MismatchedRoot,
            ) && *final(self) == *old(self),
            (mproof.structurally_valid(ARITY as nat, old(self).spec_height()) && proof_fold::<
                E,
                T,
                H,
            >(
                ARITY as nat,
                pos as nat,
                H::spec_digest_leaf(pos, mproof.elem),
                mproof.sibs_view(),
            ) == old(self).root_value() && !((pos as nat) < old(self).spec_num_leaves()
                && H::spec_digest_leaf(pos, elem) == H::spec_digest_leaf(
                pos,
                old(self).contents()[pos as nat],
            ))) ==> r == Err::<(), PrimitivesError>(PrimitivesError::InvalidProof),
            r is Err ==> final(self).contents() == old(self).contents() && (forall|q: nat|
                in_range(ARITY as nat, old(self).spec_height(), 0, q)
                ==> final(self).leaf_status(q) == old(self).leaf_status(q)),
            r is Ok ==> {
                &&& final(self).contents() == old(self).contents().insert(pos as nat, elem)
                &&& final(self).leaf_status(pos as nat) == LookupResult::<E, ()>::Found(
                    elem,
                    (),
                )
                &&& (forall|q: nat| in_range(ARITY as nat, old(self).spec_height(), 0, q) && q
                    != pos as nat ==> final(self).leaf_status(q) == old(self).leaf_status(q))
            },
    {
        match mproof.compute_root::<H>(pos, ARITY, self.height) {
            Err(e) => Err(e),
            Ok(v) => {
                let rootv = self.root.value_exec();
                if !v.eq_value(&rootv) {
                    return Err(PrimitivesError::MismatchedRoot);
                }
                if pos >= self.num_leaves {
                    proof {
                        self.lemma_status_in_dom(pos as nat);
                    }
                    return Err(PrimitivesError::InvalidProof);
                }
                proof {
                    self.lemma_pos_in_range(pos as nat);
                }
                let path = to_traversal_path(pos, self.height, ARITY);
                let mut tmp = MerkleNode::<E, T>::Empty;
                core::mem::swap(&mut tmp, &mut self.root);
                let (newroot, ok) = tmp.node_remember::<H>(
                    ARITY,
                    self.height,
                    &path,
                    pos,
                    elem,
                    Ghost(0nat),
                    Ghost(self.contents@),
                );
                self.root = newroot;
                if ok {
                    proof {
                        self.contents@ = self.contents@.insert(pos as nat, elem);
                    }
                    Ok(())
                } else {
                    Err(PrimitivesError::InvalidProof)
                }
            },
        }
    }

    /// A position at or beyond the leaf count is not committed; used to
    /// discharge the success condition when `remember` rejects it.
    proof fn lemma_status_in_dom(self, pos: nat)
        requires
            self.wf(),
            pos >= self.spec_num_leaves(),
        ensures
            !self.contents().contains_key(pos),
    {
    }

    /// Forget/remember inverse law: forgetting a materialized leaf and then
    /// remembering it with the element that `forget` handed back restores
    /// every observable of the tree — the committed contents, the status of
    /// every position, the leaf count and the root digest — and the root
    /// digest is unchanged throughout, at the intermediate state included.
    ///
    /// `t1` is the starting tree, `t2` the tree after `forget(pos)` trimmed
    /// the materialized leaf `(pos, e)`, and `t3` the tree after
    /// `remember(pos, e, pf)` succeeded; the relations required of the
    /// triple are exactly those the two methods ensure.
    pub proof fn lemma_forget_remember_inverse(t1: Self, t2: Self, t3: Self, pos: nat, e: E)
        requires
            t1.wf(),
            pos < t1.spec_num_leaves(),
            t1.leaf_status(pos) == LookupResult::<E, ()>::Found(e, ()),
            t2.contents() == t1.contents(),
            t2.spec_height() == t1.spec_height(),
            t2.spec_num_leaves() == t1.spec_num_leaves(),
            t2.root_value() == t1.root_value(),
            forall|q: nat| in_range(ARITY as nat, t1.spec_height(), 0, q) && q != pos
                ==> t2.leaf_status(q) == t1.leaf_status(q),
            t3.contents() == t2.contents().insert(pos, e),
            t3.spec_height() == t2.spec_height(),
            t3.spec_num_leaves() == t2.spec_num_leaves(),
            t3.root_value() == t2.root_value(),
            t3.leaf_status(pos) == LookupResult::<E, ()>::Found(e, ()),
            forall|q: nat| in_range(ARITY as nat, t2.spec_height(), 0, q) && q != pos
                ==> t3.leaf_status(q) == t2.leaf_status(q),
        ensures
            t3.contents() == t1.contents(),
            t3.spec_height() == t1.spec_height(),
            t3.spec_num_leaves() == t1.spec_num_leaves(),
            t3.root_value() == t1.root_value(),
            forall|q: nat| in_range(ARITY as nat, t1.spec_height(), 0, q) ==> t3.leaf_status(q)
                == t1.leaf_status(q),
    {
        t1.lemma_pos_in_range(pos);
        t1.lemma_status_agrees(pos);
        assert(t1.contents().contains_key(pos) && t1.contents()[pos] == e);
        assert(t3.contents() =~= t1.contents());
        assert forall|q: nat| in_range(ARITY as nat, t1.spec_height(), 0, q) implies
            t3.leaf_status(q) == t1.leaf_status(q) by {
            if q != pos {
                assert(t2.leaf_status(q) == t1.leaf_status(q));
                assert(t3.leaf_status(q) == t2.leaf_status(q));
            }
        }
    }
}

} // verus!
