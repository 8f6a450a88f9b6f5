//! The mathematical model shared by every tree variant: powers of the arity,
//! position ranges, the traversal-path function, the canonical digest of a
//! (partial) leaf map, and the proof-folding function that verification
//! recomputes.

use vstd::prelude::*;
use vstd::arithmetic::power::{pow, lemma_pow_positive, lemma_pow_adds};
use vstd::arithmetic::div_mod::{
    lemma_div_denominator, lemma_fundamental_div_mod, lemma_mod_division_less_than_divisor,
    lemma_div_pos_is_pos, lemma_fundamental_div_mod_converse,
};
use vstd::arithmetic::mul::lemma_mul_is_distributive_add_other_way;
use crate::merkle_traits::{Element, NodeValue, DigestAlgorithm};

verus! {

/// The branch selector taken at the tree level `level` steps above the leaf
/// level, when walking from the root down to position `pos` in a tree of the
/// given arity.
pub open spec fn branch_at(pos: nat, arity: nat, level: nat) -> nat {
    ((pos as int / pow(arity as int, level)) % (arity as int)) as nat
}

/// The traversal path of `pos` in a tree with the given height and arity:
/// the ordered sequence of `height` branch selectors, each in `[0, arity)`.
/// Position 0 of the sequence is the leaf-level branch; position
/// `height - 1` is the branch directly under the root.
pub open spec fn traversal_path(pos: nat, height: nat, arity: nat) -> Seq<nat> {
    Seq::new(height, |i: int| branch_at(pos, arity, i as nat))
}

/// Powers of a positive base are positive.
pub proof fn lemma_pow_pos(b: int, e: nat)
    requires
        b >= 1,
    ensures
        pow(b, e) >= 1,
{
    lemma_pow_positive(b, e);
}

/// Dividing by `arity^(level+1)` is dividing by `arity^level` and then by
/// `arity`.
pub proof fn lemma_div_by_pow_step(pos: nat, arity: nat, level: nat)
    requires
        arity >= 1,
    ensures
        pos as int / pow(arity as int, (level + 1) as nat)
            == (pos as int / pow(arity as int, level)) / (arity as int),
{
    let a = arity as int;
    lemma_pow_pos(a, level);
    lemma_pow_adds(a, level, 1);
    assert(pow(a, 1) == a * pow(a, 0)) by {
        reveal(pow);
    }
    assert(pow(a, 0) == 1) by {
        reveal(pow);
    }
    assert(pow(a, (level + 1) as nat) == pow(a, level) * a);
    lemma_div_denominator(pos as int, pow(a, level), a);
}

/// Every branch selector is below the arity.
pub proof fn lemma_branch_at_bound(pos: nat, arity: nat, level: nat)
    requires
        arity >= 1,
    ensures
        branch_at(pos, arity, level) < arity,
{
    let a = arity as int;
    lemma_pow_pos(a, level);
    lemma_div_pos_is_pos(pos as int, pow(a, level));
    lemma_mod_division_less_than_divisor(pos as int / pow(a, level), a);
}

/// Dividing first by the arity and then by `arity^level` is dividing by
/// `arity^(level+1)`.
pub proof fn lemma_div_by_pow_shift(pos: nat, arity: nat, level: nat)
    requires
        arity >= 1,
    ensures
        (pos as int / arity as int) / pow(arity as int, level)
            == pos as int / pow(arity as int, (level + 1) as nat),
{
    let a = arity as int;
    lemma_pow_pos(a, level);
    assert(pow(a, (level + 1) as nat) == a * pow(a, level)) by {
        reveal(pow);
    }
    lemma_div_denominator(pos as int, a, pow(a, level));
}

/// The branch selectors of `pos / arity` are those of `pos`, shifted up one
/// level.
pub proof fn lemma_branch_at_shift(pos: nat, arity: nat, level: nat)
    requires
        arity >= 1,
    ensures
        branch_at((pos as int / arity as int) as nat, arity, level)
            == branch_at(pos, arity, (level + 1) as nat),
{
    lemma_div_pos_is_pos(pos as int, arity as int);
    lemma_div_by_pow_shift(pos, arity, level);
}

/// Does position `k` lie in the subtree that sits `level` levels above the
/// leaves at horizontal offset `prefix`? That subtree covers the positions
/// `[prefix * arity^level, (prefix + 1) * arity^level)`.
pub open spec fn in_range(arity: nat, level: nat, prefix: nat, k: nat) -> bool {
    prefix * pow(arity as int, level) <= k < (prefix + 1) * pow(arity as int, level)
}

/// A position is in a subtree's range exactly when the subtree's prefix is
/// the position shifted down by the subtree's level.
pub proof fn lemma_in_range_div(arity: nat, level: nat, prefix: nat, k: nat)
    requires
        arity >= 1,
    ensures
        in_range(arity, level, prefix, k) <==> k as int / pow(arity as int, level)
            == prefix,
{
    let a = arity as int;
    let d = pow(a, level);
    lemma_pow_pos(a, level);
    if in_range(arity, level, prefix, k) {
        assert((prefix + 1) * d == prefix * d + d) by {
            lemma_mul_is_distributive_add_other_way(d, prefix as int, 1);
        }
        lemma_fundamental_div_mod_converse(k as int, d, prefix as int, k - prefix * d);
    }
    if k as int / d == prefix {
        lemma_fundamental_div_mod(k as int, d);
        lemma_mod_division_less_than_divisor(k as int, d);
        assert((prefix + 1) * d == prefix * d + d) by {
            lemma_mul_is_distributive_add_other_way(d, prefix as int, 1);
        }
    }
}

/// A child subtree's range is contained in its parent's range.
pub proof fn lemma_range_subset(arity: nat, level: nat, prefix: nat, j: nat, k: nat)
    requires
        arity >= 1,
        level >= 1,
        j < arity,
        in_range(arity, (level - 1) as nat, prefix * arity + j, k),
    ensures
        in_range(arity, level, prefix, k),
{
    let a = arity as int;
    let l1 = (level - 1) as nat;
    let d = pow(a, l1);
    lemma_pow_pos(a, l1);
    assert(pow(a, level) == a * d) by {
        reveal(pow);
    }
    assert((prefix * a + j) * d == prefix * (a * d) + j * d) by (nonlinear_arith);
    assert((prefix * a + j + 1) * d == prefix * (a * d) + (j + 1) * d) by (nonlinear_arith);
    assert(j * d >= 0) by (nonlinear_arith)
        requires
            j >= 0,
            d >= 1,
    ;
    assert((j + 1) * d <= a * d) by (nonlinear_arith)
        requires
            j + 1 <= a,
            d >= 1,
    ;
    assert((prefix + 1) * (a * d) == prefix * (a * d) + a * d) by (nonlinear_arith);
}

/// The position `k` lies in the range of exactly one subtree per level: the
/// one whose prefix is `k` shifted down by the level.
pub proof fn lemma_in_range_self(arity: nat, level: nat, k: nat)
    requires
        arity >= 1,
    ensures
        in_range(arity, level, (k as int / pow(arity as int, level)) as nat, k),
{
    let a = arity as int;
    let d = pow(a, level);
    lemma_pow_pos(a, level);
    lemma_div_pos_is_pos(k as int, d);
    lemma_in_range_div(arity, level, (k as int / d) as nat, k);
}

/// Walking one level down towards `pos`: the child taken is the one selected
/// by the traversal path, its range still contains `pos`, and its prefix is
/// the parent's prefix scaled by the arity plus the selector.
pub proof fn lemma_child_step(arity: nat, level: nat, prefix: nat, pos: nat)
    requires
        arity >= 1,
        level >= 1,
        in_range(arity, level, prefix, pos),
    ensures
        branch_at(pos, arity, (level - 1) as nat) < arity,
        in_range(
            arity,
            (level - 1) as nat,
            prefix * arity + branch_at(pos, arity, (level - 1) as nat),
            pos,
        ),
        pos as int / pow(arity as int, (level - 1) as nat) == prefix * arity + branch_at(
            pos,
            arity,
            (level - 1) as nat,
        ),
        (prefix * arity + branch_at(pos, arity, (level - 1) as nat)) / arity == prefix,
        (prefix * arity + branch_at(pos, arity, (level - 1) as nat)) % arity == branch_at(
            pos,
            arity,
            (level - 1) as nat,
        ),
{
    let a = arity as int;
    let ll = (level - 1) as nat;
    lemma_pow_pos(a, ll);
    lemma_pow_pos(a, level);
    lemma_div_pos_is_pos(pos as int, pow(a, ll));
    lemma_div_pos_is_pos(pos as int, pow(a, level));
    let pl = (pos as int / pow(a, ll)) as nat;
    let b = branch_at(pos, arity, ll);
    lemma_branch_at_bound(pos, arity, ll);
    lemma_in_range_div(arity, level, prefix, pos);
    lemma_div_by_pow_step(pos, arity, ll);
    lemma_fundamental_div_mod(pl as int, a);
    lemma_mod_division_less_than_divisor(pl as int, a);
    assert(pl as int == a * (pl as int / a) + (pl as int) % a);
    assert(b as int == (pl as int) % a);
    assert(pl as int / a == prefix as int);
    assert(pl as int == prefix as int * a + b as int) by (nonlinear_arith)
        requires
            pl as int == a * (pl as int / a) + (pl as int) % a,
            pl as int / a == prefix as int,
            b as int == (pl as int) % a,
    ;
    assert(pl == prefix * arity + b);
    lemma_in_range_self(arity, ll, pos);
    lemma_fundamental_div_mod_converse(pl as int, a, prefix as int, b as int);
}

/// An unpopulated subtree has only unpopulated children.
pub proof fn lemma_not_occupied_child<E>(
    m: Map<nat, E>,
    arity: nat,
    level: nat,
    prefix: nat,
    j: nat,
)
    requires
        arity >= 1,
        level >= 1,
        j < arity,
        !occupied(m, arity, level, prefix),
    ensures
        !occupied(m, arity, (level - 1) as nat, (prefix * arity + j) as nat),
{
    let cp = (prefix * arity + j) as nat;
    if occupied(m, arity, (level - 1) as nat, cp) {
        let k = choose|k: nat| #[trigger] m.contains_key(k) && in_range(
            arity,
            (level - 1) as nat,
            cp,
            k,
        );
        lemma_range_subset(arity, level, prefix, j, k);
        assert(occupied(m, arity, level, prefix));
    }
}

/// The number of leaf positions a tree of this arity and height can
/// address: `arity^height`, clamped to the 64-bit index domain.
pub open spec fn tree_capacity(arity: nat, height: nat) -> nat {
    if pow(arity as int, height) > u64::MAX as int {
        u64::MAX as nat
    } else {
        pow(arity as int, height) as nat
    }
}

/// The clamped capacity never exceeds the exact power.
pub proof fn lemma_tree_capacity_le_pow(arity: nat, height: nat)
    requires
        arity >= 1,
    ensures
        tree_capacity(arity, height) <= pow(arity as int, height),
        tree_capacity(arity, height) <= u64::MAX as nat,
{
    lemma_pow_pos(arity as int, height);
}

/// Compute the tree capacity: `arity^height`, saturating at the largest
/// representable index.
#[verifier::loop_isolation(false)]
pub fn compute_capacity(arity: usize, height: usize) -> (r: u64)
    requires
        arity >= 1,
    ensures
        r as nat == tree_capacity(arity as nat, height as nat),
{
    let a64: u64 = arity as u64;
    let mut cap: u64 = 1;
    let mut i: usize = 0;
    proof {
        assert(pow(arity as int, 0) == 1) by {
            reveal(pow);
        }
    }
    while i < height
        invariant
            i <= height,
            cap as nat == tree_capacity(arity as nat, i as nat),
        decreases height - i,
    {
        let ghost a = arity as int;
        proof {
            lemma_pow_pos(a, i as nat);
            assert(pow(a, (i + 1) as nat) == a * pow(a, i as nat)) by {
                reveal(pow);
            }
            lemma_fundamental_div_mod(u64::MAX as int, a);
            lemma_mod_division_less_than_divisor(u64::MAX as int, a);
        }
        if cap > u64::MAX / a64 {
            proof {
                if pow(a, i as nat) <= u64::MAX as int {
                    assert(cap as int == pow(a, i as nat));
                    assert(cap as int * a >= (u64::MAX as int / a + 1) * a) by (nonlinear_arith)
                        requires
                            cap as int >= u64::MAX as int / a + 1,
                            a >= 1,
                    ;
                    assert((u64::MAX as int / a + 1) * a == a * (u64::MAX as int / a)
                        + a) by (nonlinear_arith);
                    assert(cap as int * a > u64::MAX as int);
                    assert(pow(a, (i + 1) as nat) == cap as int * a) by (nonlinear_arith)
                        requires
                            pow(a, (i + 1) as nat) == a * pow(a, i as nat),
                            cap as int == pow(a, i as nat),
                    ;
                } else {
                    assert(cap as int == u64::MAX as int);
                    assert(pow(a, (i + 1) as nat) >= pow(a, i as nat)) by (nonlinear_arith)
                        requires
                            pow(a, (i + 1) as nat) == a * pow(a, i as nat),
                            a >= 1,
                            pow(a, i as nat) >= 1,
                    ;
                }
            }
            cap = u64::MAX;
        } else {
            proof {
                assert(cap as int * a <= (u64::MAX as int / a) * a) by (nonlinear_arith)
                    requires
                        0 <= cap as int <= u64::MAX as int / a,
                        a >= 1,
                ;
                assert((u64::MAX as int / a) * a <= u64::MAX as int) by (nonlinear_arith)
                    requires
                        u64::MAX as int == a * (u64::MAX as int / a) + (u64::MAX as int) % a,
                        (u64::MAX as int) % a >= 0,
                ;
                if pow(a, i as nat) > u64::MAX as int {
                    assert(cap as int == u64::MAX as int);
                    assert(u64::MAX as int <= u64::MAX as int / a);
                    assert(a * (u64::MAX as int / a) <= u64::MAX as int);
                    assert(a == 1) by (nonlinear_arith)
                        requires
                            a >= 1,
                            u64::MAX as int <= u64::MAX as int / a,
                            a * (u64::MAX as int / a) <= u64::MAX as int,
                    ;
                    assert(pow(a, i as nat) == 1) by {
                        lemma_pow_one(i as nat);
                    }
                    assert(false);
                }
                assert(cap as int == pow(a, i as nat));
                assert(cap as int * a == pow(a, (i + 1) as nat)) by (nonlinear_arith)
                    requires
                        pow(a, (i + 1) as nat) == a * pow(a, i as nat),
                        cap as int == pow(a, i as nat),
                ;
            }
            cap = cap * a64;
        }
        i = i + 1;
    }
    cap
}

/// When `arity^height` fits the 64-bit index domain, the clamped capacity
/// is exact.
pub proof fn lemma_capacity_exact(arity: usize, height: usize)
    requires
        arity >= 1,
        pow(arity as int, height as nat) <= u64::MAX as int,
    ensures
        tree_capacity(arity as nat, height as nat) == pow(arity as int, height as nat),
{
    let ai = (arity as nat) as int;
    assert(ai == arity as int);
    lemma_pow_pos(ai, height as nat);
    assert(pow(ai, height as nat) == pow(arity as int, height as nat));
}

/// Does `arity^height` exceed the 64-bit index domain? Distinguishes a
/// clamped capacity from an exact one.
#[verifier::loop_isolation(false)]
pub fn capacity_overflows(arity: usize, height: usize) -> (r: bool)
    requires
        arity >= 1,
    ensures
        r == (pow(arity as int, height as nat) > u64::MAX as int),
{
    let a64: u64 = arity as u64;
    let mut cap: u64 = 1;
    let mut over: bool = false;
    let mut i: usize = 0;
    proof {
        assert(pow(arity as int, 0) == 1) by {
            reveal(pow);
        }
    }
    while i < height
        invariant
            i <= height,
            cap as nat == tree_capacity(arity as nat, i as nat),
            over == (pow(arity as int, i as nat) > u64::MAX as int),
        decreases height - i,
    {
        let ghost a = arity as int;
        proof {
            lemma_pow_pos(a, i as nat);
            assert(pow(a, (i + 1) as nat) == a * pow(a, i as nat)) by {
                reveal(pow);
            }
            lemma_fundamental_div_mod(u64::MAX as int, a);
            lemma_mod_division_less_than_divisor(u64::MAX as int, a);
        }
        if cap > u64::MAX / a64 {
            proof {
                if pow(a, i as nat) <= u64::MAX as int {
                    assert(cap as int == pow(a, i as nat));
                    assert(cap as int * a >= (u64::MAX as int / a + 1) * a) by (nonlinear_arith)
                        requires
                            cap as int >= u64::MAX as int / a + 1,
                            a >= 1,
                    ;
                    assert((u64::MAX as int / a + 1) * a == a * (u64::MAX as int / a)
                        + a) by (nonlinear_arith);
                    assert(cap as int * a > u64::MAX as int);
                    assert(pow(a, (i + 1) as nat) == cap as int * a) by (nonlinear_arith)
                        requires
                            pow(a, (i + 1) as nat) == a * pow(a, i as nat),
                            cap as int == pow(a, i as nat),
                    ;
                } else {
                    assert(pow(a, (i + 1) as nat) >= pow(a, i as nat)) by (nonlinear_arith)
                        requires
                            pow(a, (i + 1) as nat) == a * pow(a, i as nat),
                            a >= 1,
                            pow(a, i as nat) >= 1,
                    ;
                }
            }
            cap = u64::MAX;
            over = true;
        } else {
            proof {
                assert(cap as int * a <= (u64::MAX as int / a) * a) by (nonlinear_arith)
                    requires
                        0 <= cap as int <= u64::MAX as int / a,
                        a >= 1,
                ;
                assert((u64::MAX as int / a) * a <= u64::MAX as int) by (nonlinear_arith)
                    requires
                        u64::MAX as int == a * (u64::MAX as int / a) + (u64::MAX as int) % a,
                        (u64::MAX as int) % a >= 0,
                ;
                if pow(a, i as nat) > u64::MAX as int {
                    assert(cap as int == u64::MAX as int);
                    assert(u64::MAX as int <= u64::MAX as int / a);
                    assert(a * (u64::MAX as int / a) <= u64::MAX as int);
                    assert(a == 1) by (nonlinear_arith)
                        requires
                            a >= 1,
                            u64::MAX as int <= u64::MAX as int / a,
                            a * (u64::MAX as int / a) <= u64::MAX as int,
                    ;
                    assert(pow(a, i as nat) == 1) by {
                        lemma_pow_one(i as nat);
                    }
                    assert(false);
                }
                assert(cap as int == pow(a, i as nat));
                assert(cap as int * a == pow(a, (i + 1) as nat)) by (nonlinear_arith)
                    requires
                        pow(a, (i + 1) as nat) == a * pow(a, i as nat),
                        cap as int == pow(a, i as nat),
                ;
            }
            cap = cap * a64;
        }
        i = i + 1;
    }
    over
}

/// `1^e == 1`.
pub proof fn lemma_pow_one(e: nat)
    ensures
        pow(1, e) == 1,
    decreases e,
{
    reveal(pow);
    if e > 0 {
        lemma_pow_one((e - 1) as nat);
    }
}

/// The root's range, whose prefix is zero, covers exactly the positions
/// below `arity^level`.
pub proof fn lemma_zero_prefix_range(arity: nat, level: nat, pos: nat)
    requires
        arity >= 1,
        pos < pow(arity as int, level),
    ensures
        in_range(arity, level, 0, pos),
{
    lemma_pow_pos(arity as int, level);
    assert((0nat + 1) * pow(arity as int, level) == pow(arity as int, level))
        by (nonlinear_arith);
}

/// Is any position in the subtree's range populated in the leaf map?
pub open spec fn occupied<E>(m: Map<nat, E>, arity: nat, level: nat, prefix: nat) -> bool {
    exists|k: nat| #[trigger] m.contains_key(k) && in_range(arity, level, prefix, k)
}

/// The canonical digest of the subtree sitting `level` levels above the
/// leaves at horizontal offset `prefix`, for the leaf map `m`: the canonical
/// empty value for an unpopulated subtree, the leaf digest at the leaf
/// level, and otherwise the digest of the `arity` child digests.
pub open spec fn map_value<E: Element, T: NodeValue, H: DigestAlgorithm<E, u64, T>>(
    m: Map<nat, E>,
    arity: nat,
    level: nat,
    prefix: nat,
) -> T
    decreases level, 1nat,
{
    if !occupied(m, arity, level, prefix) {
        T::spec_empty()
    } else if level == 0 {
        H::spec_digest_leaf(prefix as u64, m[prefix])
    } else {
        H::spec_digest(map_children::<E, T, H>(m, arity, level, prefix))
    }
}

/// The canonical digests of the `arity` children of the subtree at
/// `(level, prefix)`, in branch order.
pub open spec fn map_children<E: Element, T: NodeValue, H: DigestAlgorithm<E, u64, T>>(
    m: Map<nat, E>,
    arity: nat,
    level: nat,
    prefix: nat,
) -> Seq<T>
    decreases level, 0nat,
{
    if level == 0 {
        Seq::empty()
    } else {
        Seq::new(
            arity,
            |j: int| map_value::<E, T, H>(
                m,
                arity,
                (level - 1) as nat,
                (prefix * arity + j) as nat,
            ),
        )
    }
}

/// The `arity` children handed to the digest when verification walks one
/// level up: the running digest `mid` at branch `b`, and the `arity - 1`
/// sibling digests `g` at the remaining slots, in order.
pub open spec fn assemble_children<T>(arity: nat, b: nat, mid: T, g: Seq<T>) -> Seq<T> {
    Seq::new(arity, |j: int| if j == b { mid } else if j < b { g[j] } else { g[j - 1] })
}

/// Fold a starting digest through the sibling groups of a proof, bottom-up:
/// group 0 sits at the leaf level. The branch selectors are those of `pos`.
pub open spec fn proof_fold<E: Element, T: NodeValue, H: DigestAlgorithm<E, u64, T>>(
    arity: nat,
    pos: nat,
    cur: T,
    sibs: Seq<Seq<T>>,
) -> T
    decreases sibs.len(),
{
    if sibs.len() == 0 {
        cur
    } else {
        proof_fold::<E, T, H>(
            arity,
            pos / arity,
            H::spec_digest(assemble_children(arity, pos % arity, cur, sibs[0])),
            sibs.drop_first(),
        )
    }
}

/// The sibling-digest group at `level` for the path to `pos`: the canonical
/// digests of the `arity - 1` siblings of the path node at that level, in
/// order.
pub open spec fn sibling_group<E: Element, T: NodeValue, H: DigestAlgorithm<E, u64, T>>(
    m: Map<nat, E>,
    arity: nat,
    pos: nat,
    level: nat,
) -> Seq<T> {
    let p = (pos as int / pow(arity as int, level)) as nat;
    let base = (p / arity) * arity;
    Seq::new(
        (arity - 1) as nat,
        |k: int| map_value::<E, T, H>(
            m,
            arity,
            level,
            if k < p % arity {
                (base + k) as nat
            } else {
                (base + k + 1) as nat
            },
        ),
    )
}

/// The full sibling stack of a membership proof for `pos`: one group per
/// level, bottom-up.
pub open spec fn lookup_sibs<E: Element, T: NodeValue, H: DigestAlgorithm<E, u64, T>>(
    m: Map<nat, E>,
    arity: nat,
    height: nat,
    pos: nat,
) -> Seq<Seq<T>> {
    Seq::new(height, |l: int| sibling_group::<E, T, H>(m, arity, pos, l as nat))
}

/// Folding through one more sibling group digests the assembled children of
/// the fold so far.
pub proof fn lemma_proof_fold_push<E: Element, T: NodeValue, H: DigestAlgorithm<E, u64, T>>(
    arity: nat,
    pos: nat,
    cur: T,
    sibs: Seq<Seq<T>>,
    g: Seq<T>,
)
    requires
        arity >= 1,
    ensures
        proof_fold::<E, T, H>(arity, pos, cur, sibs.push(g)) == H::spec_digest(
            assemble_children(
                arity,
                branch_at(pos, arity, sibs.len()),
                proof_fold::<E, T, H>(arity, pos, cur, sibs),
                g,
            ),
        ),
    decreases sibs.len(),
{
    assert(pow(arity as int, 0) == 1) by {
        reveal(pow);
    }
    if sibs.len() == 0 {
        let pushed = sibs.push(g);
        assert(pushed[0] == g);
        let mid = H::spec_digest(assemble_children(arity, pos % arity, cur, g));
        assert(proof_fold::<E, T, H>(arity, pos, cur, pushed) == proof_fold::<E, T, H>(
            arity,
            pos / arity,
            mid,
            pushed.drop_first(),
        ));
        assert(pushed.drop_first() =~= Seq::<Seq<T>>::empty());
        assert(proof_fold::<E, T, H>(arity, pos / arity, mid, pushed.drop_first()) == mid);
        assert(proof_fold::<E, T, H>(arity, pos, cur, sibs) == cur);
        assert(branch_at(pos, arity, 0) == pos % arity);
    } else {
        let b = pos % arity;
        let cur2 = H::spec_digest(assemble_children(arity, b, cur, sibs[0]));
        assert(sibs.push(g)[0] == sibs[0]);
        assert(sibs.push(g).drop_first() =~= sibs.drop_first().push(g));
        lemma_proof_fold_push::<E, T, H>(arity, pos / arity, cur2, sibs.drop_first(), g);
        lemma_branch_at_shift(pos, arity, (sibs.len() - 1) as nat);
        assert((pos / arity) as int == pos as int / arity as int);
    }
}

/// Folding the leaf digest of an occupied position through its sibling
/// stack up to `level` reconstructs the canonical digest of the subtree at
/// that level that contains the position. This is the heart of round-trip
/// membership: proof generation reads the sibling digests off the tree, and
/// verification folds them back together.
pub proof fn lemma_fold_reconstructs<E: Element, T: NodeValue, H: DigestAlgorithm<E, u64, T>>(
    m: Map<nat, E>,
    arity: nat,
    level: nat,
    pos: nat,
)
    requires
        arity >= 1,
        m.contains_key(pos),
    ensures
        proof_fold::<E, T, H>(
            arity,
            pos,
            H::spec_digest_leaf(pos as u64, m[pos]),
            Seq::new(level, |l: int| sibling_group::<E, T, H>(m, arity, pos, l as nat)),
        ) == map_value::<E, T, H>(
            m,
            arity,
            level,
            (pos as int / pow(arity as int, level)) as nat,
        ),
    decreases level,
{
    let a = arity as int;
    let leaf = H::spec_digest_leaf(pos as u64, m[pos]);
    assert(pow(a, 0) == 1) by {
        reveal(pow);
    }
    if level == 0 {
        assert(Seq::new(0, |l: int| sibling_group::<E, T, H>(m, arity, pos, l as nat))
            =~= Seq::<Seq<T>>::empty());
        assert(in_range(arity, 0, pos, pos));
        assert(occupied(m, arity, 0, pos));
    } else {
        let ll = (level - 1) as nat;
        lemma_pow_pos(a, ll);
        lemma_pow_pos(a, level);
        lemma_div_pos_is_pos(pos as int, pow(a, ll));
        lemma_div_pos_is_pos(pos as int, pow(a, level));
        let pl = (pos as int / pow(a, ll)) as nat;
        let pl1 = (pos as int / pow(a, level)) as nat;
        let sl = Seq::new(ll, |l: int| sibling_group::<E, T, H>(m, arity, pos, l as nat));
        let sl1 = Seq::new(level, |l: int| sibling_group::<E, T, H>(m, arity, pos, l as nat));
        let g = sibling_group::<E, T, H>(m, arity, pos, ll);
        assert(sl1 =~= sl.push(g));
        lemma_fold_reconstructs::<E, T, H>(m, arity, ll, pos);
        let mid = map_value::<E, T, H>(m, arity, ll, pl);
        lemma_proof_fold_push::<E, T, H>(arity, pos, leaf, sl, g);
        assert(sl.len() == ll);
        let b = branch_at(pos, arity, ll);
        lemma_branch_at_bound(pos, arity, ll);
        lemma_div_by_pow_step(pos, arity, ll);
        assert(pl as int / a == pl1 as int);
        lemma_fundamental_div_mod(pl as int, a);
        lemma_mod_division_less_than_divisor(pl as int, a);
        assert(b as int == (pl as int) % a);
        assert(pl as int == a * (pl as int / a) + (pl as int) % a);
        assert(pl as int == pl1 as int * a + b as int) by (nonlinear_arith)
            requires
                pl as int == a * (pl as int / a) + (pl as int) % a,
                pl as int / a == pl1 as int,
                b as int == (pl as int) % a,
        ;
        assert(pl == pl1 * arity + b);
        lemma_in_range_self(arity, level, pos);
        assert(occupied(m, arity, level, pl1));
        let children = map_children::<E, T, H>(m, arity, level, pl1);
        assert(map_value::<E, T, H>(m, arity, level, pl1) == H::spec_digest(children));
        assert forall|j: int| 0 <= j < arity implies assemble_children(arity, b, mid, g)[j]
            == children[j] by {
            assert(children[j] == map_value::<E, T, H>(
                m,
                arity,
                (level - 1) as nat,
                (pl1 * arity + j) as nat,
            ));
            let base = (pl / arity) * arity;
            assert(base == pl1 * arity);
            if j == b {
                assert(pl1 * arity + j == pl);
            } else if j < b {
                assert(g[j] == map_value::<E, T, H>(m, arity, ll, (base + j) as nat));
            } else {
                assert(g[j - 1] == map_value::<E, T, H>(m, arity, ll, (base + j) as nat));
            }
        }
        assert(assemble_children(arity, b, mid, g) =~= children);
    }
}

} // verus!
