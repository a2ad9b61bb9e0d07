//! The public handle: fixes the magnitude at construction, delegates every
//! operation to the root node, and keeps the element count.

use vstd::prelude::*;

verus! {

use vstd::arithmetic::power2::pow2;
use crate::model::{
    VEBTree, VEBNode, is_min_of, is_max_of, is_succ_of, is_pred_of, lemma_wf_mag,
    lemma_elems_finite,
};

impl VEBTree {
    /// A tree over the universe `[0, 2^magnitude)` containing exactly
    /// `initial`.
    pub fn new(magnitude: usize, initial: usize) -> (r: VEBTree)
        requires
            1 <= magnitude,
            (initial as nat) < pow2(magnitude as nat),
            pow2(magnitude as nat) <= usize::MAX as nat,
        ensures
            r.wf(),
            r.mag() == magnitude,
            r.elems() == set![initial as int],
    {
        let node = VEBNode::new(magnitude, initial);
        proof {
            assert(set![initial as int].len() == 1);
        }
        VEBTree { magnitude, size: 1, node }
    }

    /// The count of keys currently present.
    pub fn len(&self) -> (r: usize)
        requires
            self.wf(),
        ensures
            r as nat == self.elems().len(),
    {
        self.size
    }

    /// True iff no key is present.
    pub fn empty(&self) -> (r: bool)
        requires
            self.wf(),
        ensures
            r == self.elems().is_empty(),
    {
        proof {
            lemma_wf_mag(self.node, self.mag());
        }
        self.node.empty()
    }

    /// True iff `x` is present.
    pub fn member(&self, x: usize) -> (r: bool)
        requires
            self.wf(),
            (x as nat) < pow2(self.mag()),
        ensures
            r == self.elems().contains(x as int),
    {
        proof {
            lemma_wf_mag(self.node, self.mag());
        }
        self.node.member(x)
    }

    /// The least key present, or absent when the tree is empty.
    pub fn min(&self) -> (r: Option<usize>)
        requires
            self.wf(),
        ensures
            is_min_of(self.elems(), r),
    {
        proof {
            lemma_wf_mag(self.node, self.mag());
        }
        self.node.min()
    }

    /// The greatest key present, or absent when the tree is empty.
    pub fn max(&self) -> (r: Option<usize>)
        requires
            self.wf(),
        ensures
            is_max_of(self.elems(), r),
    {
        proof {
            lemma_wf_mag(self.node, self.mag());
        }
        self.node.max()
    }

    /// The least key present strictly greater than `x`, or absent.
    pub fn successor(&self, x: usize) -> (r: Option<usize>)
        requires
            self.wf(),
            (x as nat) < pow2(self.mag()),
        ensures
            is_succ_of(self.elems(), x as int, r),
    {
        proof {
            lemma_wf_mag(self.node, self.mag());
        }
        self.node.successor(x)
    }

    /// The greatest key present strictly less than `x`, or absent.
    pub fn predecessor(&self, x: usize) -> (r: Option<usize>)
        requires
            self.wf(),
            (x as nat) < pow2(self.mag()),
        ensures
            is_pred_of(self.elems(), x as int, r),
    {
        proof {
            lemma_wf_mag(self.node, self.mag());
        }
        self.node.predecessor(x)
    }

    /// Add `x`; the count grows exactly when `x` was absent.
    pub fn insert(&mut self, x: usize)
        requires
            old(self).wf(),
            (x as nat) < pow2(old(self).mag()),
        ensures
            final(self).wf(),
            final(self).mag() == old(self).mag(),
            final(self).elems() == old(self).elems().insert(x as int),
    {
        proof {
            lemma_wf_mag(self.node, self.mag());
            lemma_elems_finite(self.node, self.mag());
        }
        let was = self.node.member(x);
        self.node.insert(x);
        proof {
            lemma_elems_finite(self.node, self.mag());
            if was {
                assert(old(self).elems().insert(x as int) =~= old(self).elems());
            } else {
                assert(old(self).elems().insert(x as int).len() == old(self).elems().len() + 1);
            }
        }
        if !was {
            self.size = self.size + 1;
        }
    }

    /// Remove `x`; the count shrinks exactly when `x` was present.
    pub fn delete(&mut self, x: usize)
        requires
            old(self).wf(),
            (x as nat) < pow2(old(self).mag()),
        ensures
            final(self).wf(),
            final(self).mag() == old(self).mag(),
            final(self).elems() == old(self).elems().remove(x as int),
    {
        proof {
            lemma_wf_mag(self.node, self.mag());
            lemma_elems_finite(self.node, self.mag());
        }
        let was = self.node.member(x);
        self.node.delete(x);
        proof {
            lemma_elems_finite(self.node, self.mag());
            if was {
                assert(old(self).elems().remove(x as int).len() == old(self).elems().len() - 1);
            } else {
                assert(old(self).elems().remove(x as int) =~= old(self).elems());
            }
        }
        if was {
            self.size = self.size - 1;
        }
    }
}

} // verus!
