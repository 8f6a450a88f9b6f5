//! A concrete digest capability over 64-bit values: a multiply-and-add
//! fold with domain separation between leaves and internal nodes. It is a
//! stand-in for a cryptographic hash — adequate for exercising the tree
//! engine, not collision-resistant.

use vstd::prelude::*;
use crate::merkle_traits::{DigestAlgorithm, Element, Index, NodeValue};

verus! {

/// The multiplier of the fold.
pub const MIX_PRIME: u64 = 1099511628211;

/// Initial accumulator when digesting an internal node's children.
pub const NODE_SEED: u64 = 14695981039346656037;

/// Initial accumulator when digesting a leaf.
pub const LEAF_SEED: u64 = 88172645463325252;

/// One fold step: multiply the accumulator by the prime and add the next
/// word, modulo 2^64.
pub open spec fn spec_mix(acc: u64, x: u64) -> u64 {
    (((acc as nat) * (MIX_PRIME as nat) + (x as nat)) % 0x1_0000_0000_0000_0000nat) as u64
}

/// The fold of a whole word sequence from a given accumulator.
pub open spec fn spec_mix_fold(acc: u64, data: Seq<u64>) -> u64
    decreases data.len(),
{
    if data.len() == 0 {
        acc
    } else {
        spec_mix_fold(spec_mix(acc, data[0]), data.drop_first())
    }
}

fn mix(acc: u64, x: u64) -> (r: u64)
    ensures
        r == spec_mix(acc, x),
{
    proof {
        assert((acc as int) * (MIX_PRIME as int) <= 0xFFFF_FFFF_FFFF_FFFFint
            * (MIX_PRIME as int)) by (nonlinear_arith)
            requires
                0 <= acc as int <= 0xFFFF_FFFF_FFFF_FFFFint,
        ;
        assert((acc as int) * (MIX_PRIME as int) >= 0) by (nonlinear_arith)
            requires
                acc as int >= 0,
        ;
    }
    let wide: u128 = (acc as u128) * (MIX_PRIME as u128) + (x as u128);
    let low: u128 = wide % 0x1_0000_0000_0000_0000u128;
    proof {
        assert(wide as nat == (acc as nat) * (MIX_PRIME as nat) + (x as nat));
        assert(low as nat == (wide as nat) % 0x1_0000_0000_0000_0000nat);
        assert(low < 0x1_0000_0000_0000_0000u128);
    }
    low as u64
}

/// A digest capability for `u64` elements, indices and node values.
pub struct MixDigest;

impl DigestAlgorithm<u64, u64, u64> for MixDigest {
    open spec fn spec_digest(data: Seq<u64>) -> u64 {
        spec_mix_fold(NODE_SEED, data)
    }

    open spec fn spec_digest_leaf(pos: u64, elem: u64) -> u64 {
        spec_mix(spec_mix(LEAF_SEED, pos), elem)
    }

    fn digest(data: &[u64]) -> (r: u64) {
        let mut acc: u64 = NODE_SEED;
        let mut i: usize = 0;
        proof {
            assert(data@.skip(0) =~= data@);
        }
        while i < data.len()
            invariant
                i <= data@.len(),
                spec_mix_fold(acc, data@.skip(i as int)) == spec_mix_fold(NODE_SEED, data@),
            decreases data@.len() - i,
        {
            proof {
                assert(data@.skip(i as int)[0] == data@[i as int]);
                assert(data@.skip(i as int).drop_first() =~= data@.skip(i + 1));
            }
            acc = mix(acc, data[i]);
            i = i + 1;
        }
        proof {
            assert(data@.skip(data@.len() as int) =~= Seq::<u64>::empty());
        }
        acc
    }

    fn digest_leaf(pos: &u64, elem: &u64) -> (r: u64) {
        mix(mix(LEAF_SEED, *pos), *elem)
    }
}

} // verus!
