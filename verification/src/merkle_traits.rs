//! The shared vocabulary of the tree variants: the three-way lookup result,
//! the marker traits for the generic parameters, and the digest capability.

use vstd::prelude::*;
use crate::errors::PrimitivesError;

verus! {

/// The result of querying at an index in the tree.
///
/// The three outcomes are not errors: they distinguish "present", "pruned
/// from memory" and "never existed", and callers must handle all three.
#[derive(Clone, Copy, PartialEq, Eq, Debug)]
pub enum LookupResult<F, P> {
    /// The value at the given index, and a proof of validity.
    Found(F, P),
    /// The index is valid but we do not have the leaf in memory.
    NotInMemory,
    /// The index is outside the occupied range in the tree.
    EmptyLeaf,
}

impl<F, P> LookupResult<F, P> {
    /// Assert the lookup result is `Ok`.
    pub fn expect_ok(self) -> (r: Result<(F, P), PrimitivesError>)
        ensures
            match self {
                LookupResult::Found(x, proof) => r == Ok::<(F, P), PrimitivesError>((x, proof)),
                LookupResult::NotInMemory => r == Err::<(F, P), PrimitivesError>(
                    PrimitivesError::InternalError,
                ),
                LookupResult::EmptyLeaf => r == Err::<(F, P), PrimitivesError>(
                    PrimitivesError::InternalError,
                ),
            },
    {
        match self {
            LookupResult::Found(x, proof) => Ok((x, proof)),
            LookupResult::NotInMemory => Err(PrimitivesError::InternalError),
            LookupResult::EmptyLeaf => Err(PrimitivesError::InternalError),
        }
    }
}

/// An element of a Merkle tree: an opaque, copyable, equality-comparable
/// leaf payload, owned by the tree and copied into leaf nodes on insertion.
pub trait Element: Copy + PartialEq + Eq {

}

impl Element for u64 {

}

/// An index type of a leaf in a Merkle tree: totally ordered and convertible
/// to a traversal path.
pub trait Index: Copy + PartialEq + Eq {

}

impl Index for u64 {

}

/// An internal node value type in a Merkle tree: copyable and
/// equality-comparable, with an explicit canonical "empty" value used as the
/// digest stand-in for absent subtrees.
pub trait NodeValue: Copy + PartialEq + Eq {
    /// The canonical empty digest, as a specification-level value.
    spec fn spec_empty() -> Self;

    /// The canonical empty digest. Semantically distinct from "a real digest
    /// that happens to equal it": it is the named stand-in for an
    /// unpopulated subtree.
    fn empty_value() -> (r: Self)
        ensures
            r == Self::spec_empty(),
    ;

    /// Equality test usable by the verified tree code.
    fn eq_value(&self, other: &Self) -> (r: bool)
        ensures
            r == (*self == *other),
    ;
}

impl NodeValue for u64 {
    open spec fn spec_empty() -> u64 {
        0u64
    }

    fn empty_value() -> (r: u64) {
        0u64
    }

    fn eq_value(&self, other: &u64) -> (r: bool) {
        *self == *other
    }
}

/// Merkle tree hash function: a stateless capability computing an internal
/// node's digest from its children's digests, and a leaf's digest from
/// (position, element). The tree core assumes nothing of it beyond
/// determinism, stated here by tying each executable method to a
/// specification-level function of its arguments alone.
pub trait DigestAlgorithm<E: Element, I: Index, T: NodeValue> {
    /// What `digest` returns, as a function of the child digests.
    spec fn spec_digest(data: Seq<T>) -> T;

    /// What `digest_leaf` returns, as a function of position and element.
    spec fn spec_digest_leaf(pos: I, elem: E) -> T;

    /// Digest a list of values. The tree core always passes exactly `arity`
    /// children, using the canonical empty value for empty slots.
    fn digest(data: &[T]) -> (r: T)
        ensures
            r == Self::spec_digest(data@),
    ;

    /// Digest a leaf (an indexed element).
    fn digest_leaf(pos: &I, elem: &E) -> (r: T)
        ensures
            r == Self::spec_digest_leaf(*pos, *elem),
    ;
}

/// Convert a value into a vector of `T`.
pub trait ToVec<T> {
    /// What the conversion returns.
    spec fn spec_to_vec(&self) -> Seq<T>;

    /// Return a vector of `T`.
    fn to_vec(&self) -> (r: Vec<T>)
        ensures
            r@ == self.spec_to_vec(),
    ;
}

impl<T: Copy> ToVec<T> for T {
    open spec fn spec_to_vec(&self) -> Seq<T> {
        seq![*self]
    }

    fn to_vec(&self) -> (r: Vec<T>) {
        let mut v: Vec<T> = Vec::new();
        v.push(*self);
        proof {
            assert(v@ =~= seq![*self]);
        }
        v
    }
}

/// Numeric capability needed of an index: sequential allocation (checked
/// addition) and comparison, kept abstract so that both fixed-width and
/// arbitrary-precision index types can serve.
pub trait IndexOps: Sized {
    /// The index as a specification-level natural number.
    spec fn index_value(&self) -> nat;

    /// Does the index representation admit the sum? Always true for an
    /// arbitrary-precision index; a bound for a fixed-width one.
    spec fn index_can_add(&self, rhs: u64) -> bool;

    /// Checked addition of a small step: succeeds, with the exact sum,
    /// whenever the sum is representable, and returns `None` exactly
    /// otherwise.
    fn index_add(&self, rhs: u64) -> (r: Option<Self>)
        ensures
            r is Some <==> self.index_can_add(rhs),
            match r {
                Some(s) => s.index_value() == self.index_value() + rhs,
                None => true,
            },
    ;

    /// Three-way comparison usable by the verified tree code.
    fn index_lt(&self, other: &Self) -> (r: bool)
        ensures
            r == (self.index_value() < other.index_value()),
    ;
}

impl IndexOps for u64 {
    open spec fn index_value(&self) -> nat {
        *self as nat
    }

    open spec fn index_can_add(&self, rhs: u64) -> bool {
        *self + rhs <= u64::MAX
    }

    fn index_add(&self, rhs: u64) -> (r: Option<u64>) {
        self.checked_add(rhs)
    }

    fn index_lt(&self, other: &u64) -> (r: bool) {
        *self < *other
    }
}

} // verus!
