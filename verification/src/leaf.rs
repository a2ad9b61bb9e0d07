//! Operations on the base-case node: a two-value universe needs no
//! recursion, only the cached min/max pair.

use vstd::prelude::*;

verus! {

use crate::model::{Leaf, is_min_of, is_max_of, is_succ_of, is_pred_of};

impl Leaf {
    /// A leaf holding exactly `elem`.
    pub fn new(elem: usize) -> (r: Leaf)
        requires
            elem <= 1,
        ensures
            r.wf(),
            r.elems() == set![elem as int],
    {
        let r = Leaf { min: Some(elem), max: Some(elem) };
        proof {
            assert(r.elems() =~= set![elem as int]);
        }
        r
    }

    /// A leaf holding nothing.
    pub fn new_empty() -> (r: Leaf)
        ensures
            r.wf(),
            r.elems() == Set::<int>::empty(),
    {
        Leaf { min: None, max: None }
    }

    /// True iff no value is cached.
    pub fn empty(&self) -> (r: bool)
        requires
            self.wf(),
        ensures
            r == self.elems().is_empty(),
    {
        proof {
            if self.min is Some {
                assert(self.elems().contains(self.min->0 as int));
            } else {
                assert(self.elems() =~= Set::<int>::empty());
            }
        }
        self.min.is_none()
    }

    /// The least cached value, or absent if empty.
    pub fn min(&self) -> (r: Option<usize>)
        requires
            self.wf(),
        ensures
            is_min_of(self.elems(), r),
    {
        self.min
    }

    /// The greatest cached value, or absent if empty.
    pub fn max(&self) -> (r: Option<usize>)
        requires
            self.wf(),
        ensures
            is_max_of(self.elems(), r),
    {
        self.max
    }

    /// True iff `x` is one of the cached values.
    pub fn member(&self, x: usize) -> (r: bool)
        requires
            self.wf(),
        ensures
            r == self.elems().contains(x as int),
    {
        match (self.min, self.max) {
            (Some(mn), Some(mx)) => x == mn || x == mx,
            _ => false,
        }
    }

    /// The least cached value strictly greater than `x`, or absent.
    pub fn successor(&self, x: usize) -> (r: Option<usize>)
        requires
            self.wf(),
        ensures
            is_succ_of(self.elems(), x as int, r),
    {
        match (self.min, self.max) {
            (Some(mn), Some(mx)) => if mn > x {
                Some(mn)
            } else if mx > x {
                Some(mx)
            } else {
                None
            },
            _ => None,
        }
    }

    /// The greatest cached value strictly less than `x`, or absent.
    pub fn predecessor(&self, x: usize) -> (r: Option<usize>)
        requires
            self.wf(),
        ensures
            is_pred_of(self.elems(), x as int, r),
    {
        match (self.min, self.max) {
            (Some(mn), Some(mx)) => if mx < x {
                Some(mx)
            } else if mn < x {
                Some(mn)
            } else {
                None
            },
            _ => None,
        }
    }

    /// Add `x` to the cached pair.
    pub fn insert(&mut self, x: usize)
        requires
            old(self).wf(),
            x <= 1,
        ensures
            final(self).wf(),
            final(self).elems() == old(self).elems().insert(x as int),
    {
        match (self.min, self.max) {
            (Some(mn), Some(mx)) => {
                if x < mn {
                    self.min = Some(x);
                } else if x > mx {
                    self.max = Some(x);
                }
            },
            _ => {
                self.min = Some(x);
                self.max = Some(x);
            },
        }
        proof {
            assert(self.elems() =~= old(self).elems().insert(x as int));
        }
    }

    /// Remove `x` from the cached pair; no effect if `x` is absent.
    pub fn delete(&mut self, x: usize)
        requires
            old(self).wf(),
        ensures
            final(self).wf(),
            final(self).elems() == old(self).elems().remove(x as int),
    {
        match (self.min, self.max) {
            (Some(mn), Some(mx)) => {
                if x == mn && x == mx {
                    self.min = None;
                    self.max = None;
                } else if x == mn {
                    self.min = Some(mx);
                } else if x == mx {
                    self.max = Some(mn);
                }
            },
            _ => {
            },
        }
        proof {
            assert(self.elems() =~= old(self).elems().remove(x as int));
        }
    }
}

} // verus!
