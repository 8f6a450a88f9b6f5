//! Error taxonomy shared by every tree variant.

use vstd::prelude::*;

verus! {

/// Errors reported by the fallible tree operations.
///
/// Every fallible operation leaves the tree in its last valid state when it
/// reports one of these.
#[derive(Clone, Copy, PartialEq, Eq, Debug, Structural)]
pub enum PrimitivesError {
    /// An insertion would place a leaf index at or beyond `arity^height`.
    CapacityExceeded,
    /// A proof is structurally broken: wrong sibling-group count, or a group
    /// whose width does not match the tree arity.
    MalformedProof,
    /// A well-formed proof folded to a digest other than the current root.
    MismatchedRoot,
    /// A proof disagrees with the digest data retained by the tree.
    InvalidProof,
    /// An invariant was violated, e.g. a `LookupResult` variant was asserted
    /// that cannot occur given prior checks; a defect, not a recoverable
    /// condition.
    InternalError,
}

} // verus!
