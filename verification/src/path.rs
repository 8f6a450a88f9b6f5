//! The index/path codec: converting a tree position into the ordered
//! sequence of per-level branch selectors that proof construction and proof
//! verification both walk.

use vstd::prelude::*;
use vstd::arithmetic::power::pow;
use crate::merkle_traits::IndexOps;
use crate::model::{branch_at, traversal_path, lemma_div_by_pow_step, lemma_branch_at_bound};

verus! {

/// Convert `pos` into its traversal path for a tree of the given height and
/// arity: selector `i` of the result is the branch taken at the tree level
/// `i` steps above the leaf level. A pure function: identical arguments
/// always produce the identical sequence, of length exactly `height`.
///
/// Every `(pos, height, arity)` combination with a positive arity is
/// well-defined; if `pos >= arity^height` the low-order digits still decode,
/// and a tree's capacity check rejects such a position before it reaches the
/// codec.
pub fn to_traversal_path(pos: u64, height: usize, arity: usize) -> (r: Vec<usize>)
    requires
        arity >= 1,
    ensures
        r@.len() == height,
        forall|i: int| 0 <= i < height ==> r@[i] as nat == traversal_path(
            pos as nat,
            height as nat,
            arity as nat,
        )[i],
        forall|i: int| 0 <= i < height ==> (r@[i] as nat) < arity as nat,
{
    let a: u64 = arity as u64;
    let mut cur: u64 = pos;
    let mut ret: Vec<usize> = Vec::new();
    let mut i: usize = 0;
    proof {
        assert(pow(arity as int, 0) == 1) by {
            reveal(pow);
        }
    }
    while i < height
        invariant
            arity >= 1,
            a == arity as u64,
            i <= height,
            ret@.len() == i,
            cur as int == pos as int / pow(arity as int, i as nat),
            forall|j: int| 0 <= j < i ==> ret@[j] as nat == branch_at(
                pos as nat,
                arity as nat,
                j as nat,
            ),
            forall|j: int| 0 <= j < i ==> (ret@[j] as nat) < arity as nat,
        decreases height - i,
    {
        proof {
            lemma_branch_at_bound(pos as nat, arity as nat, i as nat);
        }
        let sel: u64 = cur % a;
        ret.push(sel as usize);
        proof {
            lemma_div_by_pow_step(pos as nat, arity as nat, i as nat);
        }
        cur = cur / a;
        i = i + 1;
    }
    ret
}

/// A Merkle tree index type that can be rendered as a traversal path.
pub trait ToTraversalPath: IndexOps {
    /// Convert the given index to a vector of branch indices given tree
    /// height and arity.
    fn to_traverse_path(&self, height: usize, arity: usize) -> (r: Vec<usize>)
        requires
            arity >= 1,
        ensures
            r@.len() == height,
            forall|i: int| 0 <= i < height ==> r@[i] as nat == traversal_path(
                self.index_value(),
                height as nat,
                arity as nat,
            )[i],
            forall|i: int| 0 <= i < height ==> (r@[i] as nat) < arity as nat,
    ;
}

impl ToTraversalPath for u64 {
    fn to_traverse_path(&self, height: usize, arity: usize) -> (r: Vec<usize>) {
        to_traversal_path(*self, height, arity)
    }
}

/// Traversal-path determinism: the path is a pure function of
/// `(pos, height, arity)` — re-invoking it with identical arguments yields
/// an identical sequence — its length is always exactly `height`, and every
/// selector lies in `[0, arity)`.
pub proof fn lemma_traversal_path_deterministic(pos: nat, height: nat, arity: nat)
    requires
        arity >= 1,
    ensures
        traversal_path(pos, height, arity).len() == height,
        forall|i: int| 0 <= i < height ==> traversal_path(pos, height, arity)[i] < arity,
{
    assert forall|i: int| 0 <= i < height implies traversal_path(pos, height, arity)[i]
        < arity by {
        lemma_branch_at_bound(pos, arity, i as nat);
    }
}

} // verus!
