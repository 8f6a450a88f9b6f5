//! Arbitrary-precision tree indices. A sparse tree's index domain is
//! exponential in its height, so positions beyond 64 bits are addressed
//! with `num_bigint::BigUint`. The numeric capability and the traversal
//! path are verified on top of a handful of trusted scalar operations of
//! that crate, each stated over the number the value holds.

use vstd::prelude::*;
use num_traits::ToPrimitive;
use vstd::arithmetic::power::pow;
use vstd::arithmetic::div_mod::lemma_mod_division_less_than_divisor;
use crate::merkle_traits::IndexOps;
use crate::path::ToTraversalPath;
use crate::model::{branch_at, traversal_path, lemma_div_by_pow_step, lemma_pow_pos};

verus! {

#[verifier::external_type_specification]
#[verifier::external_body]
pub struct ExBigUint(num_bigint::BigUint);

/// The natural number a `BigUint` holds.
pub uninterp spec fn big_value(b: num_bigint::BigUint) -> nat;

/// Relies on `<BigUint as Clone>::clone`: the copy holds the same number.
#[verifier::external_body]
fn big_clone(b: &num_bigint::BigUint) -> (r: num_bigint::BigUint)
    ensures
        big_value(r) == big_value(*b),
{
    b.clone()
}

/// Relies on `<&BigUint as Rem<u64>>::rem` and `ToPrimitive::to_u64`: the
/// remainder of division by a nonzero scalar, which always fits the scalar.
#[verifier::external_body]
fn big_rem_u64(b: &num_bigint::BigUint, m: u64) -> (r: u64)
    requires
        m >= 1,
    ensures
        r as nat == big_value(*b) % (m as nat),
{
    (b % m).to_u64().unwrap()
}

/// Relies on `<&BigUint as Div<u64>>::div`: the quotient of division by a
/// nonzero scalar.
#[verifier::external_body]
fn big_div_u64(b: &num_bigint::BigUint, m: u64) -> (r: num_bigint::BigUint)
    requires
        m >= 1,
    ensures
        big_value(r) == big_value(*b) / (m as nat),
{
    b / m
}

/// Relies on `<&BigUint as Add<u64>>::add`: arbitrary-precision addition
/// never leaves the domain.
#[verifier::external_body]
fn big_add_u64(b: &num_bigint::BigUint, x: u64) -> (r: num_bigint::BigUint)
    ensures
        big_value(r) == big_value(*b) + x as nat,
{
    b + x
}

/// Relies on `<BigUint as Ord>::cmp` through `<`: the order of the numbers
/// the values hold.
#[verifier::external_body]
fn big_lt(a: &num_bigint::BigUint, b: &num_bigint::BigUint) -> (r: bool)
    ensures
        r == (big_value(*a) < big_value(*b)),
{
    a < b
}

impl IndexOps for num_bigint::BigUint {
    open spec fn index_value(&self) -> nat {
        big_value(*self)
    }

    open spec fn index_can_add(&self, rhs: u64) -> bool {
        true
    }

    fn index_add(&self, rhs: u64) -> (r: Option<num_bigint::BigUint>) {
        Some(big_add_u64(self, rhs))
    }

    fn index_lt(&self, other: &num_bigint::BigUint) -> (r: bool) {
        big_lt(self, other)
    }
}

impl ToTraversalPath for num_bigint::BigUint {
    #[verifier::loop_isolation(false)]
    fn to_traverse_path(&self, height: usize, arity: usize) -> (r: Vec<usize>) {
        let ghost v = big_value(*self);
        let a64: u64 = arity as u64;
        let mut cur: num_bigint::BigUint = big_clone(self);
        let mut ret: Vec<usize> = Vec::new();
        let mut i: usize = 0;
        proof {
            assert(pow(arity as int, 0) == 1) by {
                reveal(pow);
            }
        }
        while i < height
            invariant
                i <= height,
                ret@.len() == i,
                big_value(cur) as int == v as int / pow(arity as int, i as nat),
                forall|j: int| 0 <= j < i ==> ret@[j] as nat == branch_at(
                    v,
                    arity as nat,
                    j as nat,
                ),
                forall|j: int| 0 <= j < i ==> (ret@[j] as nat) < arity as nat,
            decreases height - i,
        {
            let sel64: u64 = big_rem_u64(&cur, a64);
            proof {
                lemma_pow_pos(arity as int, i as nat);
                lemma_mod_division_less_than_divisor(big_value(cur) as int, arity as int);
                assert(sel64 as nat == big_value(cur) % (arity as nat));
                assert((sel64 as nat) < arity as nat);
                assert(sel64 as nat == branch_at(v, arity as nat, i as nat));
            }
            ret.push(sel64 as usize);
            proof {
                lemma_div_by_pow_step(v, arity as nat, i as nat);
            }
            cur = big_div_u64(&cur, a64);
            i = i + 1;
        }
        ret
    }
}

} // verus!
