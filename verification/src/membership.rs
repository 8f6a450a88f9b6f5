//! The commitment and membership-proof model: immutable records, detached
//! from the tree that issued them, plus the folding engine that verification
//! runs to recompute a root from a proof.

use vstd::prelude::*;
use crate::errors::PrimitivesError;
use crate::merkle_traits::{Element, NodeValue, DigestAlgorithm};
use crate::model::{assemble_children, proof_fold};

verus! {

/// A Merkle commitment: root digest, tree height and number of leaves.
/// An immutable snapshot; equality implies (assuming a collision-resistant
/// digest capability) that the committed data sets are identical.
#[derive(Clone, Copy, PartialEq, Eq)]
pub struct MerkleCommitment<T: NodeValue> {
    /// Root of the tree.
    pub root_value: T,
    /// Height of the tree.
    pub height: usize,
    /// Number of leaves in the tree.
    pub num_leaves: u64,
}

/// A membership proof: the claimed leaf element together with one group of
/// `arity - 1` sibling digests per tree level, ordered bottom-up (group 0
/// sits at the leaf level). Proofs are independent copies with no
/// back-reference to the tree; their validity is frozen at issuance.
#[derive(Clone)]
pub struct MerkleProof<E: Element, T: NodeValue> {
    /// The claimed element at the proven position.
    pub elem: E,
    /// The sibling digests along the path, bottom-up, `arity - 1` per level.
    pub siblings: Vec<Vec<T>>,
}

impl<E: Element, T: NodeValue> MerkleProof<E, T> {
    /// The sibling stack as a sequence of sequences.
    pub open spec fn sibs_view(self) -> Seq<Seq<T>> {
        Seq::new(self.siblings@.len(), |i: int| self.siblings@[i]@)
    }

    /// Structural validity against a tree shape: one sibling group per
    /// level, each of width `arity - 1`.
    pub open spec fn structurally_valid(self, arity: nat, height: nat) -> bool {
        &&& self.siblings@.len() == height
        &&& forall|i: int| 0 <= i < height ==> (#[trigger] self.siblings@[i])@.len() == arity
            - 1
    }

    /// Fold the proof bottom-up from the leaf digest of `(pos, elem)` and
    /// return the root digest it reconstructs, or `MalformedProof` when the
    /// proof's shape does not match the tree's height and arity.
    #[verifier::loop_isolation(false)]
    pub fn compute_root<H: DigestAlgorithm<E, u64, T>>(
        &self,
        pos: u64,
        arity: usize,
        height: usize,
    ) -> (r: Result<T, PrimitivesError>)
        requires
            arity >= 1,
        ensures
            r is Ok <==> self.structurally_valid(arity as nat, height as nat),
            r is Err ==> r == Err::<T, PrimitivesError>(PrimitivesError::MalformedProof),
            r matches Ok(v) ==> v == proof_fold::<E, T, H>(
                arity as nat,
                pos as nat,
                H::spec_digest_leaf(pos, self.elem),
                self.sibs_view(),
            ),
    {
        let ghost an = arity as nat;
        if self.siblings.len() != height {
            return Err(PrimitivesError::MalformedProof);
        }
        let mut i: usize = 0;
        while i < height
            invariant
                i <= height,
                self.siblings@.len() == height,
                arity >= 1,
                forall|k: int| 0 <= k < i ==> (#[trigger] self.siblings@[k])@.len() == arity
                    - 1,
            decreases height - i,
        {
            if self.siblings[i].len() != arity - 1 {
                return Err(PrimitivesError::MalformedProof);
            }
            i = i + 1;
        }
        let ghost total = proof_fold::<E, T, H>(
            an,
            pos as nat,
            H::spec_digest_leaf(pos, self.elem),
            self.sibs_view(),
        );
        let mut cur: T = H::digest_leaf(&pos, &self.elem);
        let mut p: u64 = pos;
        let a64: u64 = arity as u64;
        let mut l: usize = 0;
        proof {
            assert(self.sibs_view().skip(0) =~= self.sibs_view());
        }
        while l < height
            invariant
                l <= height,
                arity >= 1,
                a64 == arity as u64,
                self.siblings@.len() == height,
                forall|k: int| 0 <= k < height ==> (#[trigger] self.siblings@[k])@.len()
                    == arity - 1,
                proof_fold::<E, T, H>(
                    an,
                    p as nat,
                    cur,
                    self.sibs_view().skip(l as int),
                ) == total,
            decreases height - l,
        {
            let b: usize = (p % a64) as usize;
            proof {
                assert(p % a64 < a64);
                assert(a64 as nat == an);
                assert(b as nat == (p % a64) as nat);
                assert(b as nat == p as nat % an);
            }
            let mut children: Vec<T> = Vec::new();
            let mut j: usize = 0;
            while j < arity
                invariant
                    j <= arity,
                    b < arity,
                    b as nat == p as nat % an,
                    l < height,
                    self.siblings@.len() == height,
                    (self.siblings@[l as int])@.len() == arity - 1,
                    children@.len() == j,
                    forall|k: int| 0 <= k < j ==> #[trigger] children@[k] == assemble_children(
                        an,
                        p as nat % an,
                        cur,
                        self.sibs_view()[l as int],
                    )[k],
                decreases arity - j,
            {
                if j == b {
                    children.push(cur);
                } else if j < b {
                    children.push(self.siblings[l][j]);
                } else {
                    children.push(self.siblings[l][j - 1]);
                }
                j = j + 1;
            }
            proof {
                assert(children@ =~= assemble_children(
                    an,
                    p as nat % an,
                    cur,
                    self.sibs_view()[l as int],
                ));
                assert(self.sibs_view().skip(l as int)[0] == self.sibs_view()[l as int]);
                assert(self.sibs_view().skip(l as int).drop_first() =~= self.sibs_view().skip(
                    l + 1,
                ));
            }
            cur = H::digest(children.as_slice());
            p = p / a64;
            l = l + 1;
        }
        proof {
            assert(self.sibs_view().skip(height as int) =~= Seq::<Seq<T>>::empty());
        }
        Ok(cur)
    }
}

} // verus!
