//! An authenticated Merkle tree engine: a family of tree variants built over
//! a pluggable element type, node-digest type, and hash capability.
//!
//! The engine offers
//! - a traversal-path codec turning a leaf position into per-level branch
//!   selectors,
//! - a digest capability shared by all variants,
//! - a commitment and membership-proof model,
//! - an append-only (dense, leftmost-insertion) tree variant,
//! - a universal (sparse, random-access) tree variant, and
//! - a forget/remember overlay that prunes leaf data from memory while
//!   keeping the root and all other proofs valid.

pub mod append;
pub mod bigindex;
pub mod digest;
pub mod errors;
pub mod merkle_traits;
pub mod model;
mod node;
pub mod membership;
pub mod path;
pub mod universal;

pub use append::MerkleTree;
pub use errors::PrimitivesError;
pub use membership::{MerkleCommitment, MerkleProof};
pub use merkle_traits::{DigestAlgorithm, Element, Index, IndexOps, LookupResult, NodeValue};
pub use path::ToTraversalPath;
pub use universal::UniversalMerkleTree;
