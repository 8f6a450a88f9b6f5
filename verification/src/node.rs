//! The partially materialized node storage shared by the tree variants.
//!
//! Each node slot is an explicit tagged variant — populated leaf, forgotten
//! leaf (digest stub), unpopulated subtree, or internal branch — so that
//! root recomputation and proof reconstruction handle every case explicitly.

use vstd::prelude::*;
use vstd::arithmetic::power::pow;
use crate::merkle_traits::{Element, NodeValue, DigestAlgorithm, LookupResult};
use crate::model::{
    in_range, occupied, map_value, map_children, branch_at, sibling_group,
    lemma_child_step, lemma_not_occupied_child, lemma_in_range_div, lemma_range_subset,
    lemma_pow_pos,
};

verus! {

/// One slot of a partially materialized tree. A subtree that holds no leaf
/// is `Empty`; a leaf whose element was pruned from memory keeps only its
/// digest stub as `ForgottenLeaf`.
pub(crate) enum MerkleNode<E, T> {
    /// An unpopulated subtree; its digest is the canonical empty value.
    Empty,
    /// A materialized leaf: digest, position and element are resident.
    Leaf { value: T, pos: u64, elem: E },
    /// A leaf whose element was discarded; the digest stub is retained so
    /// that the root and the proofs of other leaves stay recomputable.
    ForgottenLeaf { value: T, pos: u64 },
    /// An internal node holding one child per branch.
    Branch { value: T, children: Vec<MerkleNode<E, T>> },
}

impl<E: Element, T: NodeValue> MerkleNode<E, T> {
    /// The digest this node contributes to its parent.
    pub(crate) open spec fn node_value(self) -> T {
        match self {
            MerkleNode::Empty => T::spec_empty(),
            MerkleNode::Leaf { value, .. } => value,
            MerkleNode::ForgottenLeaf { value, .. } => value,
            MerkleNode::Branch { value, .. } => value,
        }
    }

    /// Well-formedness of the subtree rooted at this node, sitting `level`
    /// levels above the leaves at horizontal offset `prefix`, against the
    /// committed leaf map `m`: the node shape mirrors the occupancy of its
    /// range, every stored digest is the canonical digest of its data, and
    /// branches carry exactly `arity` well-formed children.
    pub(crate) open spec fn wf<H: DigestAlgorithm<E, u64, T>>(
        self,
        arity: nat,
        level: nat,
        prefix: nat,
        m: Map<nat, E>,
    ) -> bool
        decreases level,
    {
        match self {
            MerkleNode::Empty => !occupied(m, arity, level, prefix),
            MerkleNode::Leaf { value, pos, elem } => {
                &&& level == 0
                &&& pos as nat == prefix
                &&& m.contains_key(prefix)
                &&& m[prefix] == elem
                &&& value == H::spec_digest_leaf(pos, elem)
            },
            MerkleNode::ForgottenLeaf { value, pos } => {
                &&& level == 0
                &&& pos as nat == prefix
                &&& m.contains_key(prefix)
                &&& value == H::spec_digest_leaf(pos, m[prefix])
            },
            MerkleNode::Branch { value, children } => {
                &&& level >= 1
                &&& occupied(m, arity, level, prefix)
                &&& children.len() == arity
                &&& (forall|j: int| 0 <= j < arity ==> children[j].wf::<H>(
                    arity,
                    (level - 1) as nat,
                    (prefix * arity + j) as nat,
                    m,
                ))
                &&& value == H::spec_digest(
                    Seq::new(arity, |j: int| children[j].node_value()),
                )
            },
        }
    }

    /// The three-way lookup status of `pos` under this node: present (with
    /// its element), forgotten, or never assigned.
    pub(crate) open spec fn find(self, arity: nat, level: nat, pos: nat) -> LookupResult<E, ()>
        decreases level,
    {
        match self {
            MerkleNode::Empty => LookupResult::EmptyLeaf,
            MerkleNode::Leaf { elem, .. } => LookupResult::Found(elem, ()),
            MerkleNode::ForgottenLeaf { .. } => LookupResult::NotInMemory,
            MerkleNode::Branch { children, .. } => {
                if level == 0 {
                    LookupResult::EmptyLeaf
                } else {
                    children[branch_at(pos, arity, (level - 1) as nat) as int].find(
                        arity,
                        (level - 1) as nat,
                        pos,
                    )
                }
            },
        }
    }

    /// A well-formed node's digest is the canonical digest of its range of
    /// the committed leaf map.
    pub(crate) proof fn lemma_wf_value<H: DigestAlgorithm<E, u64, T>>(
        self,
        arity: nat,
        level: nat,
        prefix: nat,
        m: Map<nat, E>,
    )
        requires
            arity >= 1,
            self.wf::<H>(arity, level, prefix, m),
        ensures
            self.node_value() == map_value::<E, T, H>(m, arity, level, prefix),
        decreases level,
    {
        assert(pow(arity as int, 0) == 1) by {
            reveal(pow);
        }
        match self {
            MerkleNode::Empty => {},
            MerkleNode::Leaf { value, pos, elem } => {
                assert(in_range(arity, 0, prefix, prefix));
                assert(occupied(m, arity, 0, prefix));
            },
            MerkleNode::ForgottenLeaf { value, pos } => {
                assert(in_range(arity, 0, prefix, prefix));
                assert(occupied(m, arity, 0, prefix));
            },
            MerkleNode::Branch { value, children } => {
                let ll = (level - 1) as nat;
                let cs = map_children::<E, T, H>(m, arity, level, prefix);
                assert forall|j: int| 0 <= j < arity implies #[trigger] children[j].node_value()
                    == cs[j] by {
                    children[j].lemma_wf_value::<H>(arity, ll, (prefix * arity + j) as nat, m);
                }
                assert(Seq::new(arity, |j: int| children[j].node_value()) =~= cs);
            },
        }
    }

    /// Well-formedness of a subtree depends only on the committed leaf
    /// map's restriction to the subtree's range.
    pub(crate) proof fn lemma_wf_frame<H: DigestAlgorithm<E, u64, T>>(
        self,
        arity: nat,
        level: nat,
        prefix: nat,
        m1: Map<nat, E>,
        m2: Map<nat, E>,
    )
        requires
            arity >= 1,
            self.wf::<H>(arity, level, prefix, m1),
            forall|k: nat| #[trigger] in_range(arity, level, prefix, k) ==> (m1.contains_key(k)
                <==> m2.contains_key(k)),
            forall|k: nat| #[trigger] in_range(arity, level, prefix, k) && m1.contains_key(k)
                ==> m1[k] == m2[k],
        ensures
            self.wf::<H>(arity, level, prefix, m2),
        decreases level,
    {
        assert(pow(arity as int, 0) == 1) by {
            reveal(pow);
        }
        match self {
            MerkleNode::Empty => {
                if occupied(m2, arity, level, prefix) {
                    let k = choose|k: nat| #[trigger] m2.contains_key(k) && in_range(
                        arity,
                        level,
                        prefix,
                        k,
                    );
                    assert(m1.contains_key(k));
                    assert(occupied(m1, arity, level, prefix));
                }
            },
            MerkleNode::Leaf { value, pos, elem } => {
                assert(in_range(arity, 0, prefix, prefix));
            },
            MerkleNode::ForgottenLeaf { value, pos } => {
                assert(in_range(arity, 0, prefix, prefix));
            },
            MerkleNode::Branch { value, children } => {
                let k = choose|k: nat| #[trigger] m1.contains_key(k) && in_range(
                    arity,
                    level,
                    prefix,
                    k,
                );
                assert(m2.contains_key(k));
                assert(occupied(m2, arity, level, prefix));
                let ll = (level - 1) as nat;
                assert forall|j: int| 0 <= j < arity implies children[j].wf::<H>(
                    arity,
                    ll,
                    (prefix * arity + j) as nat,
                    m2,
                ) by {
                    let cp = (prefix * arity + j) as nat;
                    assert forall|q: nat| #[trigger] in_range(arity, ll, cp, q) implies in_range(
                        arity,
                        level,
                        prefix,
                        q,
                    ) by {
                        lemma_range_subset(arity, level, prefix, j as nat, q);
                    }
                    children[j].lemma_wf_frame::<H>(arity, ll, cp, m1, m2);
                }
            },
        }
    }

    /// The digest this node contributes to its parent, read off the node.
    pub(crate) fn value_exec(&self) -> (r: T)
        ensures
            r == self.node_value(),
    {
        match self {
            MerkleNode::Empty => T::empty_value(),
            MerkleNode::Leaf { value, .. } => *value,
            MerkleNode::ForgottenLeaf { value, .. } => *value,
            MerkleNode::Branch { value, .. } => *value,
        }
    }

    /// The lookup status of a well-formed node agrees with the committed
    /// leaf map: present entries carry the committed element, and only
    /// committed positions can be present or forgotten.
    pub(crate) proof fn lemma_wf_find<H: DigestAlgorithm<E, u64, T>>(
        self,
        arity: nat,
        level: nat,
        prefix: nat,
        m: Map<nat, E>,
        pos: nat,
    )
        requires
            arity >= 1,
            self.wf::<H>(arity, level, prefix, m),
            in_range(arity, level, prefix, pos),
        ensures
            match self.find(arity, level, pos) {
                LookupResult::Found(e, _) => m.contains_key(pos) && m[pos] == e,
                LookupResult::NotInMemory => m.contains_key(pos),
                LookupResult::EmptyLeaf => !m.contains_key(pos),
            },
        decreases level,
    {
        assert(pow(arity as int, 0) == 1) by {
            reveal(pow);
        }
        match self {
            MerkleNode::Empty => {
                if m.contains_key(pos) {
                    assert(occupied(m, arity, level, prefix));
                }
            },
            MerkleNode::Leaf { value, pos: p, elem } => {
                assert(pos == prefix);
            },
            MerkleNode::ForgottenLeaf { value, pos: p } => {
                assert(pos == prefix);
            },
            MerkleNode::Branch { value, children } => {
                lemma_child_step(arity, level, prefix, pos);
                let b = branch_at(pos, arity, (level - 1) as nat);
                children[b as int].lemma_wf_find::<H>(
                    arity,
                    (level - 1) as nat,
                    prefix * arity + b,
                    m,
                    pos,
                );
            },
        }
    }

    /// Walk down to `pos` and report its status; when the leaf is present,
    /// also collect the sibling-digest groups along the path, bottom-up.
    pub(crate) fn node_lookup<H: DigestAlgorithm<E, u64, T>>(
        &self,
        arity: usize,
        level: usize,
        path: &Vec<usize>,
        Ghost(prefix): Ghost<nat>,
        Ghost(pos): Ghost<nat>,
        Ghost(m): Ghost<Map<nat, E>>,
    ) -> (r: (LookupResult<E, ()>, Vec<Vec<T>>))
        requires
            arity >= 1,
            self.wf::<H>(arity as nat, level as nat, prefix, m),
            in_range(arity as nat, level as nat, prefix, pos),
            path@.len() >= level,
            forall|l: int| 0 <= l < level ==> #[trigger] path@[l] as nat == branch_at(
                pos,
                arity as nat,
                l as nat,
            ),
        ensures
            r.0 == self.find(arity as nat, level as nat, pos),
            r.0 is Found ==> r.1@.len() == level,
            r.0 is Found ==> forall|l: int| 0 <= l < level ==> #[trigger] r.1@[l]@
                == sibling_group::<E, T, H>(m, arity as nat, pos, l as nat),
        decreases level,
    {
        match self {
            MerkleNode::Empty => (LookupResult::EmptyLeaf, Vec::new()),
            MerkleNode::Leaf { elem, .. } => (LookupResult::Found(*elem, ()), Vec::new()),
            MerkleNode::ForgottenLeaf { .. } => (LookupResult::NotInMemory, Vec::new()),
            MerkleNode::Branch { value, children } => {
                proof {
                    lemma_child_step(arity as nat, level as nat, prefix, pos);
                }
                let ghost ll = (level - 1) as nat;
                let b: usize = path[level - 1];
                assert(b as nat == branch_at(pos, arity as nat, ll));
                let (st, mut sibs) = children[b].node_lookup::<H>(
                    arity,
                    level - 1,
                    path,
                    Ghost(prefix * (arity as nat) + b as nat),
                    Ghost(pos),
                    Ghost(m),
                );
                match st {
                    LookupResult::Found(_, _) => {
                        let mut group: Vec<T> = Vec::new();
                        let mut j: usize = 0;
                        while j < arity
                            invariant
                                j <= arity,
                                b < arity,
                                children@.len() == arity,
                                group@.len() == (if j <= b {
                                    j as int
                                } else {
                                    j - 1
                                }),
                                forall|k: int| 0 <= k < group@.len() ==> #[trigger] group@[k]
                                    == children@[if k < b {
                                    k
                                } else {
                                    k + 1
                                }].node_value(),
                            decreases arity - j,
                        {
                            if j != b {
                                group.push(children[j].value_exec());
                            }
                            j = j + 1;
                        }
                        proof {
                            let an = arity as nat;
                            let sg = sibling_group::<E, T, H>(m, an, pos, ll);
                            let p = (pos as int / pow(an as int, ll)) as nat;
                            assert(p == prefix * an + b as nat);
                            assert(p / an == prefix);
                            assert(p % an == b as nat);
                            assert forall|k: int| 0 <= k < an - 1 implies group@[k] == sg[k] by {
                                let sel: int = if k < b {
                                    k
                                } else {
                                    k + 1
                                };
                                assert(group@[k] == children@[sel].node_value());
                                assert(children@[sel].wf::<H>(
                                    an,
                                    ll,
                                    (prefix * an + sel) as nat,
                                    m,
                                ));
                                children@[sel].lemma_wf_value::<H>(
                                    an,
                                    ll,
                                    (prefix * an + sel) as nat,
                                    m,
                                );
                                assert((p / an) * an == prefix * an);
                            }
                            assert(group@ =~= sg);
                        }
                        sibs.push(group);
                        (st, sibs)
                    },
                    _ => (st, sibs),
                }
            },
        }
    }

    /// Assign `elem` to position `pos`, materializing the path down to it.
    /// Returns the rebuilt subtree together with the prior status of the
    /// position, phrased in the same three-way vocabulary as lookup.
    pub(crate) fn node_update<H: DigestAlgorithm<E, u64, T>>(
        self,
        arity: usize,
        level: usize,
        path: &Vec<usize>,
        pos: u64,
        elem: E,
        Ghost(prefix): Ghost<nat>,
        Ghost(m): Ghost<Map<nat, E>>,
    ) -> (r: (MerkleNode<E, T>, LookupResult<E, ()>))
        requires
            arity >= 1,
            self.wf::<H>(arity as nat, level as nat, prefix, m),
            in_range(arity as nat, level as nat, prefix, pos as nat),
            path@.len() >= level,
            forall|l: int| 0 <= l < level ==> #[trigger] path@[l] as nat == branch_at(
                pos as nat,
                arity as nat,
                l as nat,
            ),
        ensures
            r.0.wf::<H>(arity as nat, level as nat, prefix, m.insert(pos as nat, elem)),
            r.1 == self.find(arity as nat, level as nat, pos as nat),
            r.0.find(arity as nat, level as nat, pos as nat) == LookupResult::<E, ()>::Found(
                elem,
                (),
            ),
            forall|q: nat| in_range(arity as nat, level as nat, prefix, q) && q != pos as nat
                ==> #[trigger] r.0.find(arity as nat, level as nat, q) == self.find(
                arity as nat,
                level as nat,
                q,
            ),
        decreases level,
    {
        let ghost an = arity as nat;
        let ghost m2 = m.insert(pos as nat, elem);
        if level == 0 {
            proof {
                assert(pow(an as int, 0) == 1) by {
                    reveal(pow);
                }
                assert(prefix == pos as nat);
            }
            let value = H::digest_leaf(&pos, &elem);
            let prev = match &self {
                MerkleNode::Empty => LookupResult::EmptyLeaf,
                MerkleNode::Leaf { elem: e, .. } => LookupResult::Found(*e, ()),
                MerkleNode::ForgottenLeaf { .. } => LookupResult::NotInMemory,
                MerkleNode::Branch { .. } => {
                    proof {
                        assert(false);
                    }
                    LookupResult::EmptyLeaf
                },
            };
            let node = MerkleNode::Leaf { value, pos, elem };
            (node, prev)
        } else {
            proof {
                lemma_child_step(an, level as nat, prefix, pos as nat);
            }
            let ghost ll = (level - 1) as nat;
            let b: usize = path[level - 1];
            assert(b as nat == branch_at(pos as nat, an, ll));
            let mut children: Vec<MerkleNode<E, T>> = match self {
                MerkleNode::Branch { children, .. } => children,
                MerkleNode::Empty => {
                    let mut c: Vec<MerkleNode<E, T>> = Vec::new();
                    let mut i: usize = 0;
                    while i < arity
                        invariant
                            i <= arity,
                            c@.len() == i,
                            forall|k: int| 0 <= k < i ==> c@[k] == MerkleNode::<E, T>::Empty,
                        decreases arity - i,
                    {
                        c.push(MerkleNode::Empty);
                        i = i + 1;
                    }
                    c
                },
                _ => {
                    proof {
                        assert(false);
                    }
                    Vec::new()
                },
            };
            let ghost base = children@;
            proof {
                assert(base.len() == an);
                if self is Empty {
                    assert forall|j: int| 0 <= j < an implies base[j].wf::<H>(
                        an,
                        ll,
                        (prefix * an + j) as nat,
                        m,
                    ) by {
                        lemma_not_occupied_child(m, an, level as nat, prefix, j as nat);
                    }
                }
                assert forall|q: nat| in_range(an, level as nat, prefix, q) implies self.find(
                    an,
                    level as nat,
                    q,
                ) == base[branch_at(q, an, ll) as int].find(an, ll, q) by {
                    lemma_child_step(an, level as nat, prefix, q);
                }
            }
            let child = children.remove(b);
            let (child2, prev) = child.node_update::<H>(
                arity,
                level - 1,
                path,
                pos,
                elem,
                Ghost(prefix * an + b as nat),
                Ghost(m),
            );
            children.insert(b, child2);
            proof {
                base.remove_ensures(b as int);
                base.remove(b as int).insert_ensures(b as int, child2);
                assert forall|j: int| 0 <= j < an && j != b implies children@[j] == base[j] by {
                    if j < b {
                        assert(children@[j] == base.remove(b as int)[j]);
                    } else {
                        assert(children@[j] == base.remove(b as int)[j - 1]);
                    }
                }
                assert(children@[b as int] == child2);
                assert(children@.len() == an);
            }
            let mut vals: Vec<T> = Vec::new();
            let mut j: usize = 0;
            while j < arity
                invariant
                    j <= arity,
                    children@.len() == arity,
                    vals@.len() == j,
                    forall|k: int| 0 <= k < j ==> #[trigger] vals@[k] == children@[
                        k
                    ].node_value(),
                decreases arity - j,
            {
                vals.push(children[j].value_exec());
                j = j + 1;
            }
            let value = H::digest(vals.as_slice());
            let node = MerkleNode::Branch { value, children };
            proof {
                assert(vals@ =~= Seq::new(an, |k: int| children@[k].node_value()));
                assert(m2.contains_key(pos as nat));
                assert(occupied(m2, an, level as nat, prefix));
                assert forall|j2: int| 0 <= j2 < an implies children@[j2].wf::<H>(
                    an,
                    ll,
                    (prefix * an + j2) as nat,
                    m2,
                ) by {
                    if j2 == b {
                        assert(children@[j2].wf::<H>(an, ll, (prefix * an + j2) as nat, m2));
                    } else {
                        let cp = (prefix * an + j2) as nat;
                        assert forall|k: nat| #[trigger] in_range(an, ll, cp, k) implies k
                            != pos as nat by {
                            if k == pos as nat {
                                lemma_in_range_div(an, ll, cp, k);
                                lemma_in_range_div(an, ll, prefix * an + b as nat, k);
                            }
                        }
                        base[j2].lemma_wf_frame::<H>(an, ll, cp, m, m2);
                    }
                }
                assert(node.wf::<H>(an, level as nat, prefix, m2));
                assert forall|q: nat| in_range(an, level as nat, prefix, q) && q != pos as nat
                    implies node.find(an, level as nat, q) == self.find(an, level as nat, q) by {
                    lemma_child_step(an, level as nat, prefix, q);
                    let bq = branch_at(q, an, ll);
                    assert(node.find(an, level as nat, q) == children@[bq as int].find(
                        an,
                        ll,
                        q,
                    ));
                    if bq == b as nat {
                        assert(children@[bq as int].find(an, ll, q) == base[bq as int].find(
                            an,
                            ll,
                            q,
                        ));
                    } else {
                        assert(children@[bq as int] == base[bq as int]);
                    }
                }
            }
            (node, prev)
        }
    }

    /// Discard the element stored at `pos`, keeping its digest stub. All
    /// digests, the committed contents, and every other position's status
    /// are untouched; a position that is not materialized is left as it is.
    pub(crate) fn node_forget<H: DigestAlgorithm<E, u64, T>>(
        self,
        arity: usize,
        level: usize,
        path: &Vec<usize>,
        Ghost(prefix): Ghost<nat>,
        Ghost(pos): Ghost<nat>,
        Ghost(m): Ghost<Map<nat, E>>,
    ) -> (r: MerkleNode<E, T>)
        requires
            arity >= 1,
            self.wf::<H>(arity as nat, level as nat, prefix, m),
            in_range(arity as nat, level as nat, prefix, pos),
            path@.len() >= level,
            forall|l: int| 0 <= l < level ==> #[trigger] path@[l] as nat == branch_at(
                pos,
                arity as nat,
                l as nat,
            ),
        ensures
            r.wf::<H>(arity as nat, level as nat, prefix, m),
            r.node_value() == self.node_value(),
            r.find(arity as nat, level as nat, pos) == (
            if self.find(arity as nat, level as nat, pos) is Found {
                LookupResult::<E, ()>::NotInMemory
            } else {
                self.find(arity as nat, level as nat, pos)
            }),
            forall|q: nat| in_range(arity as nat, level as nat, prefix, q) && q != pos
                ==> #[trigger] r.find(arity as nat, level as nat, q) == self.find(
                arity as nat,
                level as nat,
                q,
            ),
        decreases level,
    {
        let ghost an = arity as nat;
        if level == 0 {
            proof {
                assert(pow(an as int, 0) == 1) by {
                    reveal(pow);
                }
                assert(prefix == pos);
            }
            match self {
                MerkleNode::Leaf { value, pos: p, elem } => MerkleNode::ForgottenLeaf {
                    value,
                    pos: p,
                },
                other => other,
            }
        } else {
            match self {
                MerkleNode::Branch { value, children } => {
                    let ghost selfn = MerkleNode::Branch { value, children };
                    proof {
                        lemma_child_step(an, level as nat, prefix, pos);
                    }
                    let ghost ll = (level - 1) as nat;
                    let mut children = children;
                    let ghost base = children@;
                    proof {
                        assert forall|q: nat| in_range(an, level as nat, prefix, q) implies
                            selfn.find(an, level as nat, q) == base[branch_at(
                            q,
                            an,
                            ll,
                        ) as int].find(an, ll, q) by {
                            lemma_child_step(an, level as nat, prefix, q);
                        }
                    }
                    let b: usize = path[level - 1];
                    let child = children.remove(b);
                    let child2 = child.node_forget::<H>(
                        arity,
                        level - 1,
                        path,
                        Ghost(prefix * an + b as nat),
                        Ghost(pos),
                        Ghost(m),
                    );
                    children.insert(b, child2);
                    proof {
                        base.remove_ensures(b as int);
                        base.remove(b as int).insert_ensures(b as int, child2);
                        assert forall|j: int| 0 <= j < an && j != b implies children@[j]
                            == base[j] by {
                            if j < b {
                                assert(children@[j] == base.remove(b as int)[j]);
                            } else {
                                assert(children@[j] == base.remove(b as int)[j - 1]);
                            }
                        }
                        assert(children@[b as int] == child2);
                        assert(children@.len() == an);
                        assert(Seq::new(an, |k: int| children@[k].node_value()) =~= Seq::new(
                            an,
                            |k: int| base[k].node_value(),
                        ));
                        assert forall|q: nat| in_range(an, level as nat, prefix, q) && q != pos
                            implies MerkleNode::Branch { value, children }.find(
                            an,
                            level as nat,
                            q,
                        ) == selfn.find(an, level as nat, q) by {
                            lemma_child_step(an, level as nat, prefix, q);
                            let bq = branch_at(q, an, ll);
                            assert(MerkleNode::Branch { value, children }.find(
                                an,
                                level as nat,
                                q,
                            ) == children@[bq as int].find(an, ll, q));
                            assert(selfn.find(an, level as nat, q) == base[bq as int].find(
                                an,
                                ll,
                                q,
                            ));
                            if bq == b as nat {
                                assert(in_range(an, ll, prefix * an + b as nat, q));
                                assert(child2.find(an, ll, q) == base[b as int].find(
                                    an,
                                    ll,
                                    q,
                                ));
                            } else {
                                assert(children@[bq as int] == base[bq as int]);
                            }
                        }
                    }
                    MerkleNode::Branch { value, children }
                },
                other => other,
            }
        }
    }

    /// Reinstall `elem` at `pos` when its digest matches the stub the tree
    /// has retained for that position; on a mismatch, or when the position
    /// was never assigned, leave everything untouched and report failure.
    pub(crate) fn node_remember<H: DigestAlgorithm<E, u64, T>>(
        self,
        arity: usize,
        level: usize,
        path: &Vec<usize>,
        pos: u64,
        elem: E,
        Ghost(prefix): Ghost<nat>,
        Ghost(m): Ghost<Map<nat, E>>,
    ) -> (r: (MerkleNode<E, T>, bool))
        requires
            arity >= 1,
            self.wf::<H>(arity as nat, level as nat, prefix, m),
            in_range(arity as nat, level as nat, prefix, pos as nat),
            path@.len() >= level,
            forall|l: int| 0 <= l < level ==> #[trigger] path@[l] as nat == branch_at(
                pos as nat,
                arity as nat,
                l as nat,
            ),
        ensures
            r.1 <==> (m.contains_key(pos as nat) && H::spec_digest_leaf(pos, elem)
                == H::spec_digest_leaf(pos, m[pos as nat])),
            r.0.node_value() == self.node_value(),
            r.1 ==> r.0.wf::<H>(arity as nat, level as nat, prefix, m.insert(pos as nat, elem)),
            r.1 ==> r.0.find(arity as nat, level as nat, pos as nat)
                == LookupResult::<E, ()>::Found(elem, ()),
            r.1 ==> forall|q: nat| in_range(arity as nat, level as nat, prefix, q) && q
                != pos as nat ==> #[trigger] r.0.find(arity as nat, level as nat, q) == self.find(
                arity as nat,
                level as nat,
                q,
            ),
            !r.1 ==> r.0.wf::<H>(arity as nat, level as nat, prefix, m),
            !r.1 ==> forall|q: nat| in_range(arity as nat, level as nat, prefix, q)
                ==> #[trigger] r.0.find(arity as nat, level as nat, q) == self.find(
                arity as nat,
                level as nat,
                q,
            ),
        decreases level,
    {
        let ghost an = arity as nat;
        let ghost m2 = m.insert(pos as nat, elem);
        if level == 0 {
            proof {
                assert(pow(an as int, 0) == 1) by {
                    reveal(pow);
                }
                assert(prefix == pos as nat);
            }
            match self {
                MerkleNode::Leaf { value, pos: p, elem: e } => {
                    let d = H::digest_leaf(&pos, &elem);
                    if d.eq_value(&value) {
                        (MerkleNode::Leaf { value, pos: p, elem }, true)
                    } else {
                        (MerkleNode::Leaf { value, pos: p, elem: e }, false)
                    }
                },
                MerkleNode::ForgottenLeaf { value, pos: p } => {
                    let d = H::digest_leaf(&pos, &elem);
                    if d.eq_value(&value) {
                        (MerkleNode::Leaf { value, pos: p, elem }, true)
                    } else {
                        (MerkleNode::ForgottenLeaf { value, pos: p }, false)
                    }
                },
                MerkleNode::Empty => {
                    proof {
                        if m.contains_key(pos as nat) {
                            assert(in_range(an, 0, prefix, pos as nat));
                            assert(occupied(m, an, 0, prefix));
                        }
                    }
                    (MerkleNode::Empty, false)
                },
                MerkleNode::Branch { value, children } => {
                    proof {
                        assert(false);
                    }
                    (MerkleNode::Branch { value, children }, false)
                },
            }
        } else {
            match self {
                MerkleNode::Branch { value, children } => {
                    let ghost selfn = MerkleNode::Branch { value, children };
                    proof {
                        lemma_child_step(an, level as nat, prefix, pos as nat);
                    }
                    let ghost ll = (level - 1) as nat;
                    let mut children = children;
                    let ghost base = children@;
                    proof {
                        assert forall|q: nat| in_range(an, level as nat, prefix, q) implies
                            selfn.find(an, level as nat, q) == base[branch_at(
                            q,
                            an,
                            ll,
                        ) as int].find(an, ll, q) by {
                            lemma_child_step(an, level as nat, prefix, q);
                        }
                    }
                    let b: usize = path[level - 1];
                    let child = children.remove(b);
                    let (child2, ok) = child.node_remember::<H>(
                        arity,
                        level - 1,
                        path,
                        pos,
                        elem,
                        Ghost(prefix * an + b as nat),
                        Ghost(m),
                    );
                    children.insert(b, child2);
                    proof {
                        base.remove_ensures(b as int);
                        base.remove(b as int).insert_ensures(b as int, child2);
                        assert forall|j: int| 0 <= j < an && j != b implies children@[j]
                            == base[j] by {
                            if j < b {
                                assert(children@[j] == base.remove(b as int)[j]);
                            } else {
                                assert(children@[j] == base.remove(b as int)[j - 1]);
                            }
                        }
                        assert(children@[b as int] == child2);
                        assert(children@.len() == an);
                        assert(Seq::new(an, |k: int| children@[k].node_value()) =~= Seq::new(
                            an,
                            |k: int| base[k].node_value(),
                        ));
                        if ok {
                            assert(m2.contains_key(pos as nat));
                            assert(occupied(m2, an, level as nat, prefix));
                            assert forall|j2: int| 0 <= j2 < an implies children@[j2].wf::<H>(
                                an,
                                ll,
                                (prefix * an + j2) as nat,
                                m2,
                            ) by {
                                if j2 == b {
                                    assert(children@[j2].wf::<H>(
                                        an,
                                        ll,
                                        (prefix * an + j2) as nat,
                                        m2,
                                    ));
                                } else {
                                    let cp = (prefix * an + j2) as nat;
                                    assert forall|k: nat| #[trigger] in_range(an, ll, cp, k)
                                        implies k != pos as nat by {
                                        if k == pos as nat {
                                            lemma_in_range_div(an, ll, cp, k);
                                            lemma_in_range_div(
                                                an,
                                                ll,
                                                prefix * an + b as nat,
                                                k,
                                            );
                                        }
                                    }
                                    base[j2].lemma_wf_frame::<H>(an, ll, cp, m, m2);
                                }
                            }
                        }
                        assert forall|q: nat| in_range(an, level as nat, prefix, q) && q
                            != pos as nat implies MerkleNode::Branch { value, children }.find(
                            an,
                            level as nat,
                            q,
                        ) == selfn.find(an, level as nat, q) by {
                            lemma_child_step(an, level as nat, prefix, q);
                            let bq = branch_at(q, an, ll);
                            assert(MerkleNode::Branch { value, children }.find(
                                an,
                                level as nat,
                                q,
                            ) == children@[bq as int].find(an, ll, q));
                            assert(selfn.find(an, level as nat, q) == base[bq as int].find(
                                an,
                                ll,
                                q,
                            ));
                            if bq == b as nat {
                                assert(in_range(an, ll, prefix * an + b as nat, q));
                                assert(child2.find(an, ll, q) == base[b as int].find(
                                    an,
                                    ll,
                                    q,
                                ));
                            } else {
                                assert(children@[bq as int] == base[bq as int]);
                            }
                        }
                    }
                    (MerkleNode::Branch { value, children }, ok)
                },
                MerkleNode::Empty => {
                    proof {
                        if m.contains_key(pos as nat) {
                            assert(occupied(m, an, level as nat, prefix));
                        }
                    }
                    (MerkleNode::Empty, false)
                },
                other => {
                    proof {
                        assert(false);
                    }
                    (other, false)
                },
            }
        }
    }
}

} // verus!
