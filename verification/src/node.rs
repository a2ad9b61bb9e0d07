//! The node sum type: every operation dispatches on the variant and
//! delegates to the inner-node or leaf implementation.

use vstd::prelude::*;

verus! {

use vstd::arithmetic::power2::{pow2, lemma2_to64};
use crate::model::{
    VEBNode, InnerNode, Leaf, node_mag, is_min_of, is_max_of, is_succ_of, is_pred_of,
};

impl VEBNode {
    /// A node of the given magnitude holding exactly `elem`.
    pub fn new(magnitude: usize, elem: usize) -> (r: VEBNode)
        requires
            1 <= magnitude,
            (elem as nat) < pow2(magnitude as nat),
            pow2(magnitude as nat) <= usize::MAX as nat + 1,
        ensures
            r.inv(),
            r.mag() == magnitude,
            r.elems() == set![elem as int],
    {
        if magnitude == 1 {
            proof {
                lemma2_to64();
            }
            VEBNode::Leaf(Leaf::new(elem))
        } else {
            VEBNode::InnerNode(InnerNode::new(magnitude, elem))
        }
    }

    /// A node of the given magnitude holding nothing.
    pub fn new_empty(magnitude: usize) -> (r: VEBNode)
        requires
            1 <= magnitude,
            pow2(magnitude as nat) <= usize::MAX as nat + 1,
        ensures
            r.inv(),
            r.mag() == magnitude,
            r.elems() == Set::<int>::empty(),
        decreases magnitude, 1int,
    {
        if magnitude == 1 {
            VEBNode::Leaf(Leaf::new_empty())
        } else {
            VEBNode::InnerNode(InnerNode::new_empty(magnitude))
        }
    }

    /// True iff the node holds nothing.
    pub fn empty(&self) -> (r: bool)
        requires
            self.inv(),
        ensures
            r == self.elems().is_empty(),
    {
        match self {
            VEBNode::InnerNode(n) => n.empty(),
            VEBNode::Leaf(n) => n.empty(),
        }
    }

    /// The least key present, or absent if the node is empty.
    pub fn min(&self) -> (r: Option<usize>)
        requires
            self.inv(),
        ensures
            is_min_of(self.elems(), r),
    {
        match self {
            VEBNode::InnerNode(n) => n.min(),
            VEBNode::Leaf(n) => n.min(),
        }
    }

    /// The greatest key present, or absent if the node is empty.
    pub fn max(&self) -> (r: Option<usize>)
        requires
            self.inv(),
        ensures
            is_max_of(self.elems(), r),
    {
        match self {
            VEBNode::InnerNode(n) => n.max(),
            VEBNode::Leaf(n) => n.max(),
        }
    }

    /// True iff `x` is present.
    pub fn member(&self, x: usize) -> (r: bool)
        requires
            self.inv(),
            (x as nat) < pow2(self.mag()),
        ensures
            r == self.elems().contains(x as int),
        decreases node_mag(*self), 1int,
    {
        match self {
            VEBNode::InnerNode(n) => n.member(x),
            VEBNode::Leaf(n) => n.member(x),
        }
    }

    /// The least key present strictly greater than `x`, or absent.
    pub fn successor(&self, x: usize) -> (r: Option<usize>)
        requires
            self.inv(),
            (x as nat) < pow2(self.mag()),
        ensures
            is_succ_of(self.elems(), x as int, r),
        decreases node_mag(*self), 1int,
    {
        match self {
            VEBNode::InnerNode(n) => n.successor(x),
            VEBNode::Leaf(n) => n.successor(x),
        }
    }

    /// The greatest key present strictly less than `x`, or absent.
    pub fn predecessor(&self, x: usize) -> (r: Option<usize>)
        requires
            self.inv(),
            (x as nat) < pow2(self.mag()),
        ensures
            is_pred_of(self.elems(), x as int, r),
        decreases node_mag(*self), 1int,
    {
        match self {
            VEBNode::InnerNode(n) => n.predecessor(x),
            VEBNode::Leaf(n) => n.predecessor(x),
        }
    }

    /// Add `x`; no effect if already present.
    pub fn insert(&mut self, x: usize)
        requires
            old(self).inv(),
            (x as nat) < pow2(old(self).mag()),
        ensures
            final(self).inv(),
            final(self).mag() == old(self).mag(),
            final(self).elems() == old(self).elems().insert(x as int),
        decreases node_mag(*old(self)), 1int,
    {
        match self {
            VEBNode::InnerNode(n) => n.insert(x),
            VEBNode::Leaf(n) => {
                proof {
                    lemma2_to64();
                }
                n.insert(x)
            },
        }
    }

    /// Remove `x`; no effect if absent.
    pub fn delete(&mut self, x: usize)
        requires
            old(self).inv(),
            (x as nat) < pow2(old(self).mag()),
        ensures
            final(self).inv(),
            final(self).mag() == old(self).mag(),
            final(self).elems() == old(self).elems().remove(x as int),
        decreases node_mag(*old(self)), 1int,
    {
        match self {
            VEBNode::InnerNode(n) => n.delete(x),
            VEBNode::Leaf(n) => n.delete(x),
        }
    }
}

} // verus!
