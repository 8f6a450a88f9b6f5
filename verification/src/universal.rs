//! The universal (sparse) Merkle tree: a random-access authenticated map
//! over the index domain `[0, ARITY^height)`. Leaves may occupy arbitrary
//! positions; absent subtrees take the canonical empty digest and occupy no
//! storage, so the populated set may be a vanishing fraction of the domain.
//!
//! Non-membership proofs are out of scope for this core.

use vstd::prelude::*;
use vstd::arithmetic::power::pow;
use core::marker::PhantomData;
use crate::errors::PrimitivesError;
use crate::merkle_traits::{Element, NodeValue, DigestAlgorithm, LookupResult};
use crate::membership::{MerkleProof, MerkleCommitment};
use crate::model::{
    in_range, map_value, proof_fold, lookup_sibs, tree_capacity, compute_capacity,
    capacity_overflows, lemma_capacity_exact, lemma_fold_reconstructs, lemma_in_range_div,
    lemma_pow_pos, lemma_zero_prefix_range,
};
use crate::node::MerkleNode;
use crate::path::to_traversal_path;

verus! {

/// The leaf map a key-value list denotes: pairs are installed in order, so
/// on duplicate keys the later pair wins.
pub open spec fn kv_map<E>(pairs: Seq<(u64, E)>) -> Map<nat, E>
    decreases pairs.len(),
{
    if pairs.len() == 0 {
        Map::empty()
    } else {
        kv_map(pairs.drop_last()).insert(pairs.last().0 as nat, pairs.last().1)
    }
}

/// A universal Merkle tree of the given arity over a pluggable element
/// type `E`, node-digest type `T` and digest capability `H`. Positions are
/// 64-bit: every `u64` position below `ARITY^height` is addressable, so an
/// index domain wider than `2^64` is reachable only through its first
/// `2^64` positions — addressing beyond that would take a wider position
/// type. `capacity()` reports the domain clamped to `u64`.
pub struct UniversalMerkleTree<
    E: Element,
    T: NodeValue,
    H: DigestAlgorithm<E, u64, T>,
    const ARITY: usize,
> {
    height: usize,
    num_leaves: u64,
    root: MerkleNode<E, T>,
    contents: Ghost<Map<nat, E>>,
    _digest: PhantomData<H>,
}

impl<E: Element, T: NodeValue, H: DigestAlgorithm<E, u64, T>, const ARITY: usize>
    UniversalMerkleTree<E, T, H, ARITY> {
    /// The committed leaf map: position to element.
    pub closed spec fn contents(self) -> Map<nat, E> {
        self.contents@
    }

    /// The tree height.
    pub closed spec fn spec_height(self) -> nat {
        self.height as nat
    }

    /// The number of populated positions.
    pub closed spec fn spec_num_leaves(self) -> nat {
        self.num_leaves as nat
    }

    /// The current root digest.
    pub closed spec fn root_value(self) -> T {
        self.root.node_value()
    }

    /// The three-way status of a position.
    pub closed spec fn leaf_status(self, pos: nat) -> LookupResult<E, ()> {
        self.root.find(ARITY as nat, self.height as nat, pos)
    }

    /// The tree invariant: well-formed node storage, every committed
    /// position inside both the tree's index domain (`ARITY^height`) and
    /// the 64-bit position domain, and the leaf count equal to the number
    /// of committed positions.
    pub closed spec fn wf(self) -> bool {
        &&& ARITY >= 1
        &&& self.root.wf::<H>(ARITY as nat, self.height as nat, 0, self.contents@)
        &&& (forall|k: nat| #[trigger] self.contents@.contains_key(k) ==> (k as int) < pow(
            ARITY as int,
            self.height as nat,
        ) && k < 0x1_0000_0000_0000_0000nat)
        &&& self.contents@.dom().finite()
        &&& self.num_leaves as nat == self.contents@.dom().len()
    }

    /// A well-formed tree's root digest is the canonical digest of its
    /// committed leaf map.
    pub proof fn lemma_root_digest(self)
        requires
            self.wf(),
        ensures
            self.root_value() == map_value::<E, T, H>(
                self.contents(),
                ARITY as nat,
                self.spec_height(),
                0,
            ),
    {
        self.root.lemma_wf_value::<H>(ARITY as nat, self.height as nat, 0, self.contents@);
    }

    /// Every position inside the index domain lies in the root's range.
    proof fn lemma_pos_in_range(self, pos: nat)
        requires
            self.wf(),
            (pos as int) < pow(ARITY as int, self.spec_height()),
        ensures
            in_range(ARITY as nat, self.spec_height(), 0, pos),
    {
        lemma_pow_pos(ARITY as int, self.spec_height());
        lemma_zero_prefix_range(ARITY as nat, self.spec_height(), pos);
    }

    /// Every committed position lies inside the tree's index domain. A
    /// caller who knows a position is committed may hence use the
    /// domain-guarded clauses of `lookup`.
    pub proof fn lemma_committed_in_domain(self, pos: nat)
        requires
            self.wf(),
            self.contents().contains_key(pos),
        ensures
            (pos as int) < pow(ARITY as int, self.spec_height()),
    {
        assert(self.contents@.contains_key(pos));
    }

    /// The status of a position agrees with the committed map.
    pub proof fn lemma_status_agrees(self, pos: nat)
        requires
            self.wf(),
            pos < pow(ARITY as int, self.spec_height()),
        ensures
            match self.leaf_status(pos) {
                LookupResult::Found(e, _) => self.contents().contains_key(pos)
                    && self.contents()[pos] == e,
                LookupResult::NotInMemory => self.contents().contains_key(pos),
                LookupResult::EmptyLeaf => !self.contents().contains_key(pos),
            },
    {
        lemma_pow_pos(ARITY as int, self.spec_height());
        lemma_zero_prefix_range(ARITY as nat, self.spec_height(), pos);
        self.root.lemma_wf_find::<H>(
            ARITY as nat,
            self.height as nat,
            0,
            self.contents@,
            pos,
        );
    }

    /// Return the height of this Merkle tree.
    pub fn height(&self) -> (r: usize)
        ensures
            r == self.spec_height(),
    {
        self.height
    }

    /// Return the maximum number of leaf positions this tree can address:
    /// `ARITY^height`, clamped to the 64-bit index domain.
    pub fn capacity(&self) -> (r: u64)
        requires
            self.wf(),
        ensures
            r as nat == tree_capacity(ARITY as nat, self.spec_height()),
    {
        compute_capacity(ARITY, self.height)
    }

    /// Return the current number of populated leaves.
    pub fn num_leaves(&self) -> (r: u64)
        ensures
            r as nat == self.spec_num_leaves(),
    {
        self.num_leaves
    }

    /// Return the current root digest.
    pub fn root(&self) -> (r: T)
        ensures
            r == self.root_value(),
    {
        self.root.value_exec()
    }

    /// Return a Merkle commitment: a pure projection of the cached root,
    /// height and leaf count.
    pub fn commitment(&self) -> (r: MerkleCommitment<T>)
        ensures
            r.root_value == self.root_value(),
            r.height == self.spec_height(),
            r.num_leaves as nat == self.spec_num_leaves(),
    {
        MerkleCommitment {
            root_value: self.root.value_exec(),
            height: self.height,
            num_leaves: self.num_leaves,
        }
    }

    /// Update the leaf at an arbitrary position within capacity, returning
    /// the prior occupant's state in the same three-way vocabulary as
    /// lookup. The second precondition is a machine limit: the leaf counter
    /// is 64-bit, so a tree already holding `u64::MAX` leaves cannot take a
    /// fresh position (an overwrite is always allowed).
    pub fn update(&mut self, pos: u64, elem: E) -> (r: LookupResult<E, ()>)
        requires
            old(self).wf(),
            (pos as int) < pow(ARITY as int, old(self).spec_height()),
            old(self).contents().contains_key(pos as nat) || old(self).spec_num_leaves()
                < u64::MAX as nat,
        ensures
            final(self).wf(),
            final(self).spec_height() == old(self).spec_height(),
            final(self).contents() == old(self).contents().insert(pos as nat, elem),
            r == old(self).leaf_status(pos as nat),
            r is EmptyLeaf <==> !old(self).contents().contains_key(pos as nat),
            final(self).leaf_status(pos as nat) == LookupResult::<E, ()>::Found(elem, ()),
            forall|q: nat| in_range(ARITY as nat, old(self).spec_height(), 0, q) && q
                != pos as nat ==> final(self).leaf_status(q) == old(self).leaf_status(q),
            final(self).spec_num_leaves() == if old(self).contents().contains_key(pos as nat) {
                old(self).spec_num_leaves()
            } else {
                old(self).spec_num_leaves() + 1
            },
    {
        proof {
            self.lemma_pos_in_range(pos as nat);
            self.lemma_status_agrees(pos as nat);
        }
        let path = to_traversal_path(pos, self.height, ARITY);
        let mut tmp = MerkleNode::<E, T>::Empty;
        core::mem::swap(&mut tmp, &mut self.root);
        let (newroot, prev) = tmp.node_update::<H>(
            ARITY,
            self.height,
            &path,
            pos,
            elem,
            Ghost(0nat),
            Ghost(self.contents@),
        );
        self.root = newroot;
        let fresh = match &prev {
            LookupResult::EmptyLeaf => true,
            _ => false,
        };
        if fresh {
            proof {
                assert(!self.contents@.contains_key(pos as nat));
                assert(self.contents@.dom().insert(pos as nat).len() == self.contents@.dom().len()
                    + 1);
            }
            self.num_leaves = self.num_leaves + 1;
        }
        proof {
            self.contents@ = self.contents@.insert(pos as nat, elem);
            assert(self.contents@.dom() =~= old(self).contents@.dom().insert(pos as nat));
            if !fresh {
                assert(old(self).contents@.dom().contains(pos as nat));
                assert(self.contents@.dom() =~= old(self).contents@.dom());
            }
        }
        prev
    }

    /// Build a universal Merkle tree from a key-value list. Positions may
    /// be a strict, non-contiguous subset of the capacity; on duplicate
    /// keys the later pair wins. Fails with `CapacityExceeded` exactly when
    /// some key lies at or beyond `ARITY^height`.
    #[verifier::loop_isolation(false)]
    pub fn from_kv_set(height: usize, pairs: Vec<(u64, E)>) -> (r: Result<
        Self,
        PrimitivesError,
    >)
        requires
            ARITY >= 1,
        ensures
            r is Err <==> exists|i: int| 0 <= i < pairs@.len() && ((#[trigger] pairs@[i]).0
                as int) >= pow(ARITY as int, height as nat),
            r is Err ==> r == Err::<Self, PrimitivesError>(PrimitivesError::CapacityExceeded),
            match r {
                Ok(t) => {
                    &&& t.wf()
                    &&& t.spec_height() == height
                    &&& t.contents() == kv_map(pairs@)
                    &&& (forall|k: nat| #[trigger] t.contents().contains_key(k)
                        ==> t.leaf_status(k) == LookupResult::<E, ()>::Found(
                        t.contents()[k],
                        (),
                    ))
                },
                Err(_) => true,
            },
    {
        let cap = compute_capacity(ARITY, height);
        let over = capacity_overflows(ARITY, height);
        let n = pairs.len();
        let mut i: usize = 0;
        while i < n
            invariant
                i <= n,
                n == pairs@.len(),
                forall|j: int| 0 <= j < i ==> ((#[trigger] pairs@[j]).0 as int) < pow(
                    ARITY as int,
                    height as nat,
                ),
            decreases n - i,
        {
            if !over && pairs[i].0 >= cap {
                proof {
                    lemma_capacity_exact(ARITY, height);
                }
                return Err(PrimitivesError::CapacityExceeded);
            }
            proof {
                if over {
                    assert(((pairs@[i as int]).0 as int) < pow(ARITY as int, height as nat));
                } else {
                    lemma_capacity_exact(ARITY, height);
                }
            }
            i = i + 1;
        }
        let mut t = UniversalMerkleTree {
            height,
            num_leaves: 0u64,
            root: MerkleNode::<E, T>::Empty,
            contents: Ghost(Map::<nat, E>::empty()),
            _digest: PhantomData,
        };
        proof {
            assert(t.contents@.dom() =~= Set::<nat>::empty());
            assert(kv_map::<E>(pairs@.take(0)) =~= Map::<nat, E>::empty());
        }
        let mut i: usize = 0;
        while i < n
            invariant
                t.wf(),
                i <= n,
                n == pairs@.len(),
                t.spec_height() == height,
                t.spec_num_leaves() <= i,
                forall|j: int| 0 <= j < n ==> ((#[trigger] pairs@[j]).0 as int) < pow(
                    ARITY as int,
                    height as nat,
                ),
                t.contents() == kv_map(pairs@.take(i as int)),
                forall|k: nat| #[trigger] t.contents().contains_key(k) ==> t.leaf_status(k)
                    == LookupResult::<E, ()>::Found(t.contents()[k], ()),
            decreases n - i,
        {
            let (pos, elem) = pairs[i];
            proof {
                assert(t.spec_num_leaves() < u64::MAX as nat);
            }
            let _prev = t.update(pos, elem);
            proof {
                assert(pairs@.take(i + 1).drop_last() =~= pairs@.take(i as int));
                assert(pairs@.take(i + 1).last() == pairs@[i as int]);
                assert(t.contents() == kv_map(pairs@.take(i + 1)));
                assert forall|k: nat| #[trigger] t.contents().contains_key(k) implies
                    t.leaf_status(k) == LookupResult::<E, ()>::Found(t.contents()[k], ()) by {
                    if k != pos as nat {
                        t.lemma_pos_in_range(k);
                    }
                }
            }
            i = i + 1;
        }
        proof {
            assert(pairs@.take(n as int) =~= pairs@);
        }
        Ok(t)
    }

    /// Return the leaf at `pos` together with a freshly built membership
    /// proof: `EmptyLeaf` for a position never assigned, `NotInMemory` for
    /// a forgotten leaf, and otherwise the element with its proof.
    pub fn lookup(&self, pos: u64) -> (r: LookupResult<E, MerkleProof<E, T>>)
        requires
            self.wf(),
        ensures
            r is EmptyLeaf <==> !self.contents().contains_key(pos as nat),
            (pos as int) < pow(ARITY as int, self.spec_height()) ==> (r is NotInMemory <==> self
                .leaf_status(pos as nat) is NotInMemory),
            match r {
                LookupResult::Found(e, pf) => {
                    &&& self.leaf_status(pos as nat) == LookupResult::<E, ()>::Found(e, ())
                    &&& self.contents().contains_key(pos as nat)
                    &&& self.contents()[pos as nat] == e
                    &&& pf.elem == e
                    &&& pf.structurally_valid(ARITY as nat, self.spec_height())
                    &&& pf.sibs_view() == lookup_sibs::<E, T, H>(
                        self.contents(),
                        ARITY as nat,
                        self.spec_height(),
                        pos as nat,
                    )
                },
                LookupResult::NotInMemory => self.contents().contains_key(pos as nat),
                LookupResult::EmptyLeaf => !self.contents().contains_key(pos as nat),
            },
    {
        let over = capacity_overflows(ARITY, self.height);
        if !over {
            let cap = compute_capacity(ARITY, self.height);
            if pos >= cap {
                proof {
                    lemma_capacity_exact(ARITY, self.height);
                    assert(!self.contents@.contains_key(pos as nat));
                }
                return LookupResult::EmptyLeaf;
            }
            proof {
                lemma_capacity_exact(ARITY, self.height);
            }
        }
        proof {
            assert((pos as int) < pow(ARITY as int, self.spec_height()));
            self.lemma_pos_in_range(pos as nat);
            self.lemma_status_agrees(pos as nat);
        }
        let path = to_traversal_path(pos, self.height, ARITY);
        let (st, sibs) = self.root.node_lookup::<H>(
            ARITY,
            self.height,
            &path,
            Ghost(0nat),
            Ghost(pos as nat),
            Ghost(self.contents@),
        );
        match st {
            LookupResult::Found(e, _) => {
                let pf = MerkleProof { elem: e, siblings: sibs };
                proof {
                    assert(st is Found);
                    assert(st->0 == e);
                    assert(st->1 == ());
                    assert(st == LookupResult::<E, ()>::Found(e, ()));
                    assert(pf.sibs_view() =~= lookup_sibs::<E, T, H>(
                        self.contents@,
                        ARITY as nat,
                        self.height as nat,
                        pos as nat,
                    ));
                    assert forall|i: int| 0 <= i < self.spec_height() implies (
                    #[trigger] pf.siblings@[i])@.len() == ARITY as nat - 1 by {
                        assert(pf.siblings@[i]@ == crate::model::sibling_group::<E, T, H>(
                            self.contents@,
                            ARITY as nat,
                            pos as nat,
                            i as nat,
                        ));
                    }
                }
                LookupResult::Found(e, pf)
            },
            LookupResult::NotInMemory => LookupResult::NotInMemory,
            LookupResult::EmptyLeaf => LookupResult::EmptyLeaf,
        }
    }

    /// Verify a membership proof for position `pos` against the current
    /// root. Reports `MalformedProof` exactly when the proof's shape does
    /// not match the tree's height and arity.
    pub fn verify(&self, pos: u64, mproof: &MerkleProof<E, T>) -> (r: Result<
        bool,
        PrimitivesError,
    >)
        requires
            self.wf(),
        ensures
            r is Ok <==> mproof.structurally_valid(ARITY as nat, self.spec_height()),
            r is Err ==> r == Err::<bool, PrimitivesError>(PrimitivesError::MalformedProof),
            match r {
                Ok(b) => b == (proof_fold::<E, T, H>(
                    ARITY as nat,
                    pos as nat,
                    H::spec_digest_leaf(pos, mproof.elem),
                    mproof.sibs_view(),
                ) == self.root_value()),
                Err(_) => true,
            },
    {
        match mproof.compute_root::<H>(pos, ARITY, self.height) {
            Ok(v) => {
                let rootv = self.root.value_exec();
                Ok(v.eq_value(&rootv))
            },
            Err(e) => Err(e),
        }
    }

    /// Trim the element at `pos` from memory, if present. The returned
    /// value is exactly what `lookup(pos)` would have returned immediately
    /// before the call; the committed contents, the root digest and every
    /// other position's status are untouched.
    pub fn forget(&mut self, pos: u64) -> (r: LookupResult<E, MerkleProof<E, T>>)
        requires
            old(self).wf(),
        ensures
            final(self).wf(),
            final(self).contents() == old(self).contents(),
            final(self).spec_height() == old(self).spec_height(),
            final(self).spec_num_leaves() == old(self).spec_num_leaves(),
            final(self).root_value() == old(self).root_value(),
            r is EmptyLeaf <==> !old(self).contents().contains_key(pos as nat),
            match r {
                LookupResult::Found(e, pf) => {
                    &&& old(self).leaf_status(pos as nat) == LookupResult::<E, ()>::Found(
                        e,
                        (),
                    )
                    &&& old(self).contents().contains_key(pos as nat)
                    &&& old(self).contents()[pos as nat] == e
                    &&& pf.elem == e
                    &&& pf.structurally_valid(ARITY as nat, old(self).spec_height())
                    &&& pf.sibs_view() == lookup_sibs::<E, T, H>(
                        old(self).contents(),
                        ARITY as nat,
                        old(self).spec_height(),
                        pos as nat,
                    )
                },
                LookupResult::NotInMemory => old(self).contents().contains_key(pos as nat)
                    && old(self).leaf_status(pos as nat) is NotInMemory,
                LookupResult::EmptyLeaf => !old(self).contents().contains_key(pos as nat),
            },
            !(r is Found) ==> *final(self) == *old(self),
            r is Found ==> {
                &&& final(self).leaf_status(pos as nat) == LookupResult::<E, ()>::NotInMemory
                &&& (forall|q: nat| in_range(ARITY as nat, old(self).spec_height(), 0, q) && q
                    != pos as nat ==> final(self).leaf_status(q) == old(self).leaf_status(q))
            },
    {
        let r = self.lookup(pos);
        let found = match &r {
            LookupResult::Found(_, _) => true,
            _ => false,
        };
        if found {
            proof {
                assert(self.contents@.contains_key(pos as nat));
                self.lemma_pos_in_range(pos as nat);
            }
            let path = to_traversal_path(pos, self.height, ARITY);
            let mut tmp = MerkleNode::<E, T>::Empty;
            core::mem::swap(&mut tmp, &mut self.root);
            let newroot = tmp.node_forget::<H>(
                ARITY,
                self.height,
                &path,
                Ghost(0nat),
                Ghost(pos as nat),
                Ghost(self.contents@),
            );
            self.root = newroot;
        }
        r
    }

    /// Reinstall a previously forgotten element, validated against the
    /// current root via its proof: the proof must be structurally valid,
    /// fold to the current root, and its digest must match the stub the
    /// tree has retained for the position. On failure the tree state is
    /// unchanged and `MalformedProof`, `MismatchedRoot` or `InvalidProof`
    /// tells the caller which check refused the pair.
    pub fn remember(&mut self, pos: u64, elem: E, mproof: &MerkleProof<E, T>) -> (r: Result<
        (),
        PrimitivesError,
    >)
        requires
            old(self).wf(),
        ensures
            final(self).wf(),
            final(self).spec_height() == old(self).spec_height(),
            final(self).spec_num_leaves() == old(self).spec_num_leaves(),
            final(self).root_value() == old(self).root_value(),
            r is Ok <==> {
                &&& mproof.structurally_valid(ARITY as nat, old(self).spec_height())
                &&& proof_fold::<E, T, H>(
                    ARITY as nat,
                    pos as nat,
                    H::spec_digest_leaf(pos, mproof.elem),
                    mproof.sibs_view(),
                ) == old(self).root_value()
                &&& old(self).contents().contains_key(pos as nat)
                &&& H::spec_digest_leaf(pos, elem) == H::spec_digest_leaf(
                    pos,
                    old(self).contents()[pos as nat],
                )
            },
            !mproof.structurally_valid(ARITY as nat, old(self).spec_height()) ==> r
                == Err::<(), PrimitivesError>(PrimitivesError::MalformedProof) && *final(self)
                == *old(self),
            (mproof.structurally_valid(ARITY as nat, old(self).spec_height()) && proof_fold::<
                E,
                T,
                H,
            >(
                ARITY as nat,
                pos as nat,
                H::spec_digest_leaf(pos, mproof.elem),
                mproof.sibs_view(),
            ) != old(self).root_value()) ==> r == Err::<(), PrimitivesError>(
                PrimitivesError::MismatchedRoot,
            ) && *final(self) == *old(self),
            (mproof.structurally_valid(ARITY as nat, old(self).spec_height()) && proof_fold::<
                E,
                T,
                H,
            >(
                ARITY as nat,
                pos as nat,
                H::spec_digest_leaf(pos, mproof.elem),
                mproof.sibs_view(),
            ) == old(self).root_value() && !(old(self).contents().contains_key(pos as nat)
                && H::spec_digest_leaf(pos, elem) == H::spec_digest_leaf(
                pos,
                old(self).contents()[pos as nat],
            ))) ==> r == Err::<(), PrimitivesError>(PrimitivesError::InvalidProof),
            r is Err ==> final(self).contents() == old(self).contents() && (forall|q: nat|
                in_range(ARITY as nat, old(self).spec_height(), 0, q)
                ==> final(self).leaf_status(q) == old(self).leaf_status(q)),
            r is Ok ==> {
                &&& final(self).contents() == old(self).contents().insert(pos as nat, elem)
                &&& final(self).leaf_status(pos as nat) == LookupResult::<E, ()>::Found(
                    elem,
                    (),
                )
                &&& (forall|q: nat| in_range(ARITY as nat, old(self).spec_height(), 0, q) && q
                    != pos as nat ==> final(self).leaf_status(q) == old(self).leaf_status(q))
            },
    {
        match mproof.compute_root::<H>(pos, ARITY, self.height) {
            Err(e) => Err(e),
            Ok(v) => {
                let rootv = self.root.value_exec();
                if !v.eq_value(&rootv) {
                    return Err(PrimitivesError::MismatchedRoot);
                }
                let over = capacity_overflows(ARITY, self.height);
                if !over {
                    let cap = compute_capacity(ARITY, self.height);
                    if pos >= cap {
                        proof {
                            lemma_capacity_exact(ARITY, self.height);
                            assert(!self.contents@.contains_key(pos as nat));
                        }
                        return Err(PrimitivesError::InvalidProof);
                    }
                    proof {
                        lemma_capacity_exact(ARITY, self.height);
                    }
                }
                proof {
                    assert((pos as int) < pow(ARITY as int, self.spec_height()));
                    self.lemma_pos_in_range(pos as nat);
                }
                let path = to_traversal_path(pos, self.height, ARITY);
                let mut tmp = MerkleNode::<E, T>::Empty;
                core::mem::swap(&mut tmp, &mut self.root);
                let (newroot, ok) = tmp.node_remember::<H>(
                    ARITY,
                    self.height,
                    &path,
                    pos,
                    elem,
                    Ghost(0nat),
                    Ghost(self.contents@),
                );
                self.root = newroot;
                if ok {
                    proof {
                        self.contents@ = self.contents@.insert(pos as nat, elem);
                        assert(self.contents@.dom() =~= old(self).contents@.dom());
                    }
                    Ok(())
                } else {
                    Err(PrimitivesError::InvalidProof)
                }
            },
        }
    }

    /// Forget/remember inverse law for the universal variant: forgetting a
    /// materialized leaf and then remembering it with the element that
    /// `forget` handed back restores every observable of the tree, and the
    /// root digest is unchanged throughout.
    ///
    /// `t1` is the starting tree, `t2` the tree after `forget(pos)` trimmed
    /// the materialized leaf `(pos, e)`, and `t3` the tree after
    /// `remember(pos, e, pf)` succeeded; the relations required of the
    /// triple are exactly those the two methods ensure.
    pub proof fn lemma_forget_remember_inverse(t1: Self, t2: Self, t3: Self, pos: nat, e: E)
        requires
            t1.wf(),
            t1.contents().contains_key(pos),
            t1.leaf_status(pos) == LookupResult::<E, ()>::Found(e, ()),
            t2.contents() == t1.contents(),
            t2.spec_height() == t1.spec_height(),
            t2.spec_num_leaves() == t1.spec_num_leaves(),
            t2.root_value() == t1.root_value(),
            forall|q: nat| in_range(ARITY as nat, t1.spec_height(), 0, q) && q != pos
                ==> t2.leaf_status(q) == t1.leaf_status(q),
            t3.contents() == t2.contents().insert(pos, e),
            t3.spec_height() == t2.spec_height(),
            t3.spec_num_leaves() == t2.spec_num_leaves(),
            t3.root_value() == t2.root_value(),
            t3.leaf_status(pos) == LookupResult::<E, ()>::Found(e, ()),
            forall|q: nat| in_range(ARITY as nat, t2.spec_height(), 0, q) && q != pos
                ==> t3.leaf_status(q) == t2.leaf_status(q),
        ensures
            t3.contents() == t1.contents(),
            t3.spec_height() == t1.spec_height(),
            t3.spec_num_leaves() == t1.spec_num_leaves(),
            t3.root_value() == t1.root_value(),
            forall|q: nat| in_range(ARITY as nat, t1.spec_height(), 0, q) ==> t3.leaf_status(q)
                == t1.leaf_status(q),
    {
        t1.lemma_pos_in_range(pos);
        t1.lemma_status_agrees(pos);
        assert(t1.contents()[pos] == e);
        assert(t3.contents() =~= t1.contents());
        assert forall|q: nat| in_range(ARITY as nat, t1.spec_height(), 0, q) implies
            t3.leaf_status(q) == t1.leaf_status(q) by {
            if q != pos {
                assert(t2.leaf_status(q) == t1.leaf_status(q));
                assert(t3.leaf_status(q) == t2.leaf_status(q));
            }
        }
    }

    /// Round-trip membership law for the universal variant: for every
    /// committed position of a well-formed tree, folding its leaf digest
    /// through the sibling stack that `lookup` hands out reconstructs the
    /// tree's root digest, so `verify` accepts the pair that `lookup`
    /// returned.
    pub proof fn lemma_round_trip_membership(self, pos: nat)
        requires
            self.wf(),
            self.contents().contains_key(pos),
        ensures
            proof_fold::<E, T, H>(
                ARITY as nat,
                pos,
                H::spec_digest_leaf(pos as u64, self.contents()[pos]),
                lookup_sibs::<E, T, H>(
                    self.contents(),
                    ARITY as nat,
                    self.spec_height(),
                    pos,
                ),
            ) == self.root_value(),
    {
        let an = ARITY as nat;
        let h = self.spec_height();
        let m = self.contents@;
        self.lemma_pos_in_range(pos);
        lemma_fold_reconstructs::<E, T, H>(m, an, h, pos);
        lemma_in_range_div(an, h, 0, pos);
        assert((pos as int / pow(an as int, h)) as nat == 0);
        self.lemma_root_digest();
        assert(lookup_sibs::<E, T, H>(m, an, h, pos) =~= Seq::new(
            h,
            |l: int| crate::model::sibling_group::<E, T, H>(m, an, pos, l as nat),
        ));
    }
}

} // verus!
