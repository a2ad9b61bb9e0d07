//! The data structure and its mathematical model: the set of keys a node
//! holds, and the well-formedness invariant that every operation preserves.

use vstd::prelude::*;

verus! {

use vstd::arithmetic::power2::{pow2, lemma2_to64};
use vstd::set_lib::{set_int_range, lemma_int_range, lemma_len_subset};
use crate::arith::{
    lo_bits, hi_bits, high_part, low_part, combine, lemma_split_bits, lemma_combine,
};

/// Base-case node: a universe of two values, `{0, 1}`, cached as a
/// min/max pair with no further recursion.
pub struct Leaf {
    pub min: Option<usize>,
    pub max: Option<usize>,
}

/// General recursive node for magnitude `>= 2`: cached bounds, one cluster
/// per high-bits value, and a summary tree of the non-empty clusters.
pub struct InnerNode {
    pub magnitude: usize,
    pub min: Option<usize>,
    pub max: Option<usize>,
    pub clusters: Vec<VEBNode>,
    pub summary: Box<VEBNode>,
}

/// A node of the recursive structure: either the general case or the leaf
/// base case.
pub enum VEBNode {
    InnerNode(InnerNode),
    Leaf(Leaf),
}

/// The public handle: fixes the magnitude at construction, owns the root
/// node, and tracks the element count.
pub struct VEBTree {
    pub magnitude: usize,
    pub size: usize,
    pub node: VEBNode,
}

/// The set of keys a leaf holds.
pub open spec fn leaf_elems(l: Leaf) -> Set<int> {
    match (l.min, l.max) {
        (Some(mn), Some(mx)) => set![mn as int, mx as int],
        _ => Set::empty(),
    }
}

/// A leaf is well formed when its bounds are either both absent or both
/// present, ordered, and within the two-value universe.
pub open spec fn leaf_wf(l: Leaf) -> bool {
    match (l.min, l.max) {
        (None, None) => true,
        (Some(mn), Some(mx)) => mn <= mx && mx <= 1,
        _ => false,
    }
}

/// The magnitude a node is built for: a leaf always covers `[0, 2)`.
pub open spec fn node_mag(n: VEBNode) -> nat {
    match n {
        VEBNode::Leaf(_) => 1,
        VEBNode::InnerNode(i) => i.magnitude as nat,
    }
}

/// Key `y` is recorded inside the recursive cluster structure of `i`: its
/// cluster holds its offset. The cached minimum is deliberately never
/// recorded this way.
pub open spec fn cluster_holds(i: InnerNode, m: nat, y: int) -> bool
    decreases m, 0int,
{
    m >= 2 && {
        let c = high_part(y, m);
        &&& 0 <= c < i.clusters@.len()
        &&& node_elems(i.clusters@[c], lo_bits(m)).contains(low_part(y, m))
    }
}

/// The set of cluster indices whose cluster is non-empty: what the summary
/// tree must hold.
pub open spec fn summary_set(i: InnerNode, m: nat) -> Set<int>
    decreases m, 1int,
{
    if m < 2 {
        Set::empty()
    } else {
        Set::new(
            |c: int|
                0 <= c < i.clusters@.len() && !node_elems(
                    i.clusters@[c],
                    lo_bits(m),
                ).is_empty(),
        )
    }
}

/// The set of keys an inner node holds: its cached minimum plus every key
/// recorded in its clusters.
pub open spec fn inner_elems(i: InnerNode, m: nat) -> Set<int>
    decreases m, 1int,
{
    if m < 2 {
        Set::empty()
    } else {
        match i.min {
            None => Set::empty(),
            Some(mn) => Set::new(
                |y: int| 0 <= y < pow2(m) && (y == mn as int || cluster_holds(i, m, y)),
            ),
        }
    }
}

/// The set of keys a node holds.
pub open spec fn node_elems(n: VEBNode, m: nat) -> Set<int>
    decreases m, 2int,
{
    match n {
        VEBNode::Leaf(l) => leaf_elems(l),
        VEBNode::InnerNode(i) => inner_elems(i, m),
    }
}

/// The bounds invariant of an inner node: when empty, every cluster is
/// empty; when non-empty, the cached bounds are the true minimum and
/// maximum, and the minimum is excluded from the cluster structure.
pub open spec fn inner_bounds_ok(i: InnerNode, m: nat) -> bool
    decreases m, 2int,
{
    m >= 2 && match (i.min, i.max) {
        (None, None) => forall|c: int|
            0 <= c < i.clusters@.len() ==> (#[trigger] node_elems(
                i.clusters@[c],
                lo_bits(m),
            )).is_empty(),
        (Some(mn), Some(mx)) => {
            &&& mn <= mx
            &&& (mx as nat) < pow2(m)
            &&& !cluster_holds(i, m, mn as int)
            &&& (forall|y: int| #[trigger] cluster_holds(i, m, y) ==> mn as int <= y <= mx as int)
            &&& (mx == mn || cluster_holds(i, m, mx as int))
        },
        _ => false,
    }
}

/// Well-formedness of an inner node of magnitude `m`.
pub open spec fn inner_wf(i: InnerNode, m: nat) -> bool
    decreases m, 3int,
{
    m >= 2 && {
        &&& i.magnitude == m
        &&& pow2(m) <= usize::MAX as nat + 1
        &&& i.clusters@.len() == pow2(hi_bits(m))
        &&& (forall|c: int|
            0 <= c < i.clusters@.len() ==> node_wf(#[trigger] i.clusters@[c], lo_bits(m)))
        &&& node_wf(*i.summary, hi_bits(m))
        &&& node_elems(*i.summary, hi_bits(m)) == summary_set(i, m)
        &&& inner_bounds_ok(i, m)
    }
}

/// Well-formedness of a node of magnitude `m`.
pub open spec fn node_wf(n: VEBNode, m: nat) -> bool
    decreases m, 4int,
{
    match n {
        VEBNode::Leaf(l) => m == 1 && leaf_wf(l),
        VEBNode::InnerNode(i) => m >= 2 && inner_wf(i, m),
    }
}

/// `r` is the minimum of `s`, or absent when `s` is empty.
pub open spec fn is_min_of(s: Set<int>, r: Option<usize>) -> bool {
    match r {
        Some(v) => s.contains(v as int) && (forall|y: int| #[trigger] s.contains(y) ==> v as int
            <= y),
        None => forall|y: int| !(#[trigger] s.contains(y)),
    }
}

/// `r` is the maximum of `s`, or absent when `s` is empty.
pub open spec fn is_max_of(s: Set<int>, r: Option<usize>) -> bool {
    match r {
        Some(v) => s.contains(v as int) && (forall|y: int| #[trigger] s.contains(y) ==> y
            <= v as int),
        None => forall|y: int| !(#[trigger] s.contains(y)),
    }
}

/// `r` is the least element of `s` strictly greater than `x`, or absent
/// when no element of `s` exceeds `x`.
pub open spec fn is_succ_of(s: Set<int>, x: int, r: Option<usize>) -> bool {
    match r {
        Some(v) => s.contains(v as int) && x < v as int && (forall|y: int|
            #[trigger] s.contains(y) && y > x ==> v as int <= y),
        None => forall|y: int| #[trigger] s.contains(y) ==> y <= x,
    }
}

/// `r` is the greatest element of `s` strictly less than `x`, or absent
/// when no element of `s` is below `x`.
pub open spec fn is_pred_of(s: Set<int>, x: int, r: Option<usize>) -> bool {
    match r {
        Some(v) => s.contains(v as int) && (v as int) < x && (forall|y: int|
            #[trigger] s.contains(y) && y < x ==> y <= v as int),
        None => forall|y: int| #[trigger] s.contains(y) ==> y >= x,
    }
}

impl Leaf {
    /// The model of this leaf: the keys it holds.
    pub open spec fn elems(self) -> Set<int> {
        leaf_elems(self)
    }

    /// Well-formedness.
    pub open spec fn wf(self) -> bool {
        leaf_wf(self)
    }
}

impl InnerNode {
    /// The magnitude this node is built for.
    pub open spec fn m(self) -> nat {
        self.magnitude as nat
    }

    /// The model of this node: the keys it holds.
    pub open spec fn elems(self) -> Set<int> {
        inner_elems(self, self.m())
    }

    /// Well-formedness.
    pub open spec fn wf(self) -> bool {
        inner_wf(self, self.m())
    }
}

impl VEBNode {
    /// The magnitude this node is built for.
    pub open spec fn mag(self) -> nat {
        node_mag(self)
    }

    /// The model of this node: the keys it holds.
    pub open spec fn elems(self) -> Set<int> {
        node_elems(self, node_mag(self))
    }

    /// Well-formedness.
    pub open spec fn inv(self) -> bool {
        node_wf(self, node_mag(self))
    }
}

impl VEBTree {
    /// The universe magnitude fixed at construction.
    pub open spec fn mag(self) -> nat {
        self.magnitude as nat
    }

    /// The model of the tree: the set of keys currently present.
    pub open spec fn elems(self) -> Set<int> {
        node_elems(self.node, self.magnitude as nat)
    }

    /// Well-formedness: the root is a well-formed node of the fixed
    /// magnitude, the universe fits the machine, and `size` counts the
    /// elements present.
    pub open spec fn wf(self) -> bool {
        &&& node_wf(self.node, self.magnitude as nat)
        &&& pow2(self.magnitude as nat) <= usize::MAX as nat
        &&& self.size as nat == self.elems().len()
    }
}

/// A well-formed node's magnitude field agrees with the magnitude it is
/// well formed for.
pub proof fn lemma_wf_mag(n: VEBNode, m: nat)
    requires
        node_wf(n, m),
    ensures
        node_mag(n) == m,
        n.inv(),
        n.elems() == node_elems(n, m),
{
}

/// Every key a well-formed node holds lies in its universe.
pub proof fn lemma_elems_range(n: VEBNode, m: nat)
    requires
        node_wf(n, m),
    ensures
        forall|y: int| node_elems(n, m).contains(y) ==> 0 <= y < pow2(m),
{
    match n {
        VEBNode::Leaf(l) => {
            lemma2_to64();
        },
        VEBNode::InnerNode(i) => {
        },
    }
}

/// The structural facts every operation starts from, for a non-empty node:
/// the cached bounds are members and bound every element.
pub proof fn lemma_inner_facts(i: InnerNode, m: nat)
    requires
        inner_wf(i, m),
    ensures
        match (i.min, i.max) {
            (None, None) => inner_elems(i, m) == Set::<int>::empty(),
            (Some(mn), Some(mx)) => inner_elems(i, m).contains(mn as int) && inner_elems(
                i,
                m,
            ).contains(mx as int) && (forall|y: int| #[trigger] inner_elems(i, m).contains(y)
                ==> mn as int <= y <= mx as int),
            _ => false,
        },
{
    match (i.min, i.max) {
        (None, None) => {
            assert(inner_elems(i, m) =~= Set::<int>::empty());
        },
        (Some(mn), Some(mx)) => {
            assert(inner_elems(i, m).contains(mn as int));
            assert(inner_elems(i, m).contains(mx as int));
            assert forall|y: int| #[trigger] inner_elems(i, m).contains(y) implies mn as int <= y
                <= mx as int by {
                if y != mn as int {
                    assert(cluster_holds(i, m, y));
                }
            }
        },
        _ => {
        },
    }
}

/// A key recorded in the cluster structure lies in the universe.
pub proof fn lemma_cluster_holds_range(i: InnerNode, m: nat, y: int)
    requires
        inner_wf(i, m),
        cluster_holds(i, m, y),
    ensures
        0 <= y < pow2(m),
        y == combine(high_part(y, m), low_part(y, m), m),
        0 <= low_part(y, m) < pow2(lo_bits(m)),
{
    let c = high_part(y, m);
    let o = low_part(y, m);
    lemma_split_bits(m);
    lemma_elems_range(i.clusters@[c], lo_bits(m));
    vstd::arithmetic::div_mod::lemma_fundamental_div_mod(y, pow2(lo_bits(m)) as int);
    assert((pow2(lo_bits(m)) as int) * c == c * (pow2(lo_bits(m)) as int)) by (nonlinear_arith);
    lemma_combine(c, o, m);
}

/// A node holding exactly one key has every cluster empty.
pub proof fn lemma_singleton_clusters_empty(i: InnerNode, m: nat)
    requires
        inner_wf(i, m),
        i.min is Some,
        i.min == i.max,
    ensures
        forall|y: int| !(#[trigger] cluster_holds(i, m, y)),
{
    let mn = i.min->0;
    assert forall|y: int| !(#[trigger] cluster_holds(i, m, y)) by {
        if cluster_holds(i, m, y) {
            assert(mn as int <= y <= mn as int);
        }
    }
}

/// The model of a well-formed node is a finite set of at most `2^m` keys.
pub proof fn lemma_elems_finite(n: VEBNode, m: nat)
    requires
        node_wf(n, m),
    ensures
        node_elems(n, m).finite(),
        node_elems(n, m).len() <= pow2(m),
{
    lemma_elems_range(n, m);
    let rng = set_int_range(0, pow2(m) as int);
    lemma_int_range(0, pow2(m) as int);
    assert(node_elems(n, m).subset_of(rng));
    lemma_len_subset(node_elems(n, m), rng);
}

} // verus!
