//! Operations on the general recursive node. Every operation consults the
//! cached bounds first and recurses into at most one cluster and the
//! summary, keeping the cached minimum out of the recursive structure.

use vstd::prelude::*;

verus! {

use vstd::arithmetic::power2::pow2;
use vstd::set_lib::lemma_set_empty_equivalency_len;
use crate::arith::{
    lo_bits, hi_bits, high_part, low_part, combine, lemma_split_bits, lemma_parts, lemma_combine,
    lemma_combine_lt, lemma_recombine, pow2_exec,
};
use crate::model::{
    VEBNode, InnerNode, node_wf, node_elems, cluster_holds, summary_set, inner_elems,
    inner_bounds_ok, is_min_of, is_max_of, is_succ_of, is_pred_of, lemma_wf_mag,
    lemma_elems_range, lemma_inner_facts, lemma_cluster_holds_range,
    lemma_singleton_clusters_empty, lemma_elems_finite,
};

impl InnerNode {
    /// An inner node of the given magnitude holding nothing: every cluster
    /// and the summary are empty.
    #[verifier::loop_isolation(false)]
    pub fn new_empty(magnitude: usize) -> (r: InnerNode)
        requires
            2 <= magnitude,
            pow2(magnitude as nat) <= usize::MAX as nat + 1,
        ensures
            r.wf(),
            r.magnitude == magnitude,
            r.min is None,
            r.max is None,
            r.elems() == Set::<int>::empty(),
        decreases magnitude, 0int,
    {
        let ghost m = magnitude as nat;
        proof {
            lemma_split_bits(m);
        }
        let h = magnitude / 2;
        let hb = magnitude - magnitude / 2;
        let n_clusters = pow2_exec(hb);
        let mut clusters: Vec<VEBNode> = Vec::new();
        while clusters.len() < n_clusters
            invariant
                clusters@.len() <= pow2(hi_bits(m)),
                forall|j: int|
                    0 <= j < clusters@.len() ==> node_wf(#[trigger] clusters@[j], lo_bits(m))
                        && node_elems(clusters@[j], lo_bits(m)) == Set::<int>::empty(),
            decreases pow2(hi_bits(m)) - clusters@.len(),
        {
            let node = VEBNode::new_empty(h);
            clusters.push(node);
        }
        let summary = Box::new(VEBNode::new_empty(hb));
        let r = InnerNode { magnitude, min: None, max: None, clusters, summary };
        proof {
            assert(node_elems(*r.summary, hi_bits(m)) =~= summary_set(r, m));
            assert(r.elems() =~= Set::<int>::empty());
        }
        r
    }

    /// An inner node of the given magnitude holding exactly `elem`, cached
    /// in the bounds with every cluster still empty.
    pub fn new(magnitude: usize, elem: usize) -> (r: InnerNode)
        requires
            2 <= magnitude,
            (elem as nat) < pow2(magnitude as nat),
            pow2(magnitude as nat) <= usize::MAX as nat + 1,
        ensures
            r.wf(),
            r.magnitude == magnitude,
            r.elems() == set![elem as int],
    {
        let ghost m = magnitude as nat;
        let mut r = InnerNode::new_empty(magnitude);
        let ghost r0 = r;
        r.min = Some(elem);
        r.max = Some(elem);
        proof {
            assert forall|y: int| !(#[trigger] cluster_holds(r, m, y)) by {
                if cluster_holds(r, m, y) {
                    let c = high_part(y, m);
                    assert(node_elems(r0.clusters@[c], lo_bits(m)) == Set::<int>::empty());
                }
            }
            assert(summary_set(r, m) =~= summary_set(r0, m));
            assert(r.elems().contains(elem as int));
            assert forall|z: int| r.elems().contains(z) implies z == elem as int by {
                assert(!cluster_holds(r, m, z));
            }
            assert(r.elems() =~= set![elem as int]);
            assert(r.wf());
        }
        r
    }

    /// The cluster index of `x`: its high-order bit half.
    pub fn high(&self, x: usize) -> (r: usize)
        requires
            2 <= self.magnitude,
            pow2(self.m()) <= usize::MAX as nat + 1,
            (x as nat) < pow2(self.m()),
        ensures
            r as int == high_part(x as int, self.m()),
            (r as int) < pow2(hi_bits(self.m())),
    {
        proof {
            lemma_split_bits(self.m());
            lemma_parts(x as int, self.m());
        }
        let p = pow2_exec(self.magnitude / 2);
        x / p
    }

    /// The offset of `x` within its cluster: its low-order bit half.
    pub fn low(&self, x: usize) -> (r: usize)
        requires
            2 <= self.magnitude,
            pow2(self.m()) <= usize::MAX as nat + 1,
            (x as nat) < pow2(self.m()),
        ensures
            r as int == low_part(x as int, self.m()),
            (r as int) < pow2(lo_bits(self.m())),
    {
        proof {
            lemma_split_bits(self.m());
            lemma_parts(x as int, self.m());
        }
        let p = pow2_exec(self.magnitude / 2);
        x % p
    }

    /// Rebuild a key from a cluster index `x` and an offset `y`.
    pub fn index(&self, x: usize, y: usize) -> (r: usize)
        requires
            2 <= self.magnitude,
            pow2(self.m()) <= usize::MAX as nat + 1,
            (x as int) < pow2(hi_bits(self.m())),
            (y as int) < pow2(lo_bits(self.m())),
        ensures
            r as int == combine(x as int, y as int, self.m()),
            (r as nat) < pow2(self.m()),
    {
        proof {
            lemma_split_bits(self.m());
            lemma_combine(x as int, y as int, self.m());
        }
        let p = pow2_exec(self.magnitude / 2);
        x * p + y
    }

    /// True iff the node holds nothing.
    pub fn empty(&self) -> (r: bool)
        requires
            self.wf(),
        ensures
            r == self.elems().is_empty(),
    {
        proof {
            lemma_inner_facts(*self, self.m());
            if self.min is None {
                assert(self.elems() =~= Set::<int>::empty());
            }
        }
        self.min.is_none()
    }

    /// The least key present: the cached minimum.
    pub fn min(&self) -> (r: Option<usize>)
        requires
            self.wf(),
        ensures
            is_min_of(self.elems(), r),
    {
        proof {
            lemma_inner_facts(*self, self.m());
            if self.min is None {
                assert(self.elems() =~= Set::<int>::empty());
            }
        }
        self.min
    }

    /// The greatest key present: the cached maximum.
    pub fn max(&self) -> (r: Option<usize>)
        requires
            self.wf(),
        ensures
            is_max_of(self.elems(), r),
    {
        proof {
            lemma_inner_facts(*self, self.m());
            if self.max is None {
                assert(self.elems() =~= Set::<int>::empty());
            }
        }
        self.max
    }

    /// True iff `x` is present: either cached, or recorded in its cluster
    /// (checked only when the summary confirms that cluster is non-empty).
    pub fn member(&self, x: usize) -> (r: bool)
        requires
            self.wf(),
            (x as nat) < pow2(self.m()),
        ensures
            r == self.elems().contains(x as int),
        decreases self.magnitude, 0int,
    {
        let ghost m = self.m();
        proof {
            lemma_inner_facts(*self, m);
        }
        match (self.min, self.max) {
            (Some(mn), Some(mx)) => {
                if x == mn || x == mx {
                    true
                } else {
                    let c = self.high(x);
                    let lo = self.low(x);
                    proof {
                        lemma_split_bits(m);
                        lemma_parts(x as int, m);
                        lemma_wf_mag(*self.summary, hi_bits(m));
                    }
                    if self.summary.member(c) {
                        proof {
                            lemma_wf_mag(self.clusters@[c as int], lo_bits(m));
                        }
                        let r = self.clusters[c].member(lo);
                        proof {
                            assert(self.elems().contains(x as int) == cluster_holds(
                                *self,
                                m,
                                x as int,
                            ));
                        }
                        r
                    } else {
                        proof {
                            assert(!summary_set(*self, m).contains(c as int));
                            assert(!cluster_holds(*self, m, x as int));
                        }
                        false
                    }
                }
            },
            _ => {
                proof {
                    assert(self.elems() =~= Set::<int>::empty());
                }
                false
            },
        }
    }

    /// The least key present strictly greater than `x`, or absent.
    #[verifier::rlimit(50)]
    pub fn successor(&self, x: usize) -> (r: Option<usize>)
        requires
            self.wf(),
            (x as nat) < pow2(self.m()),
        ensures
            is_succ_of(self.elems(), x as int, r),
        decreases self.magnitude, 0int,
    {
        let ghost m = self.m();
        let ghost s = self.elems();
        proof {
            lemma_inner_facts(*self, m);
        }
        match (self.min, self.max) {
            (Some(mn), Some(mx)) => {
                if x < mn {
                    return Some(mn);
                }
                let c = self.high(x);
                let lo = self.low(x);
                proof {
                    lemma_split_bits(m);
                    lemma_parts(x as int, m);
                    lemma_wf_mag(*self.summary, hi_bits(m));
                    lemma_elems_range(*self.summary, hi_bits(m));
                    lemma_wf_mag(self.clusters@[c as int], lo_bits(m));
                    lemma_elems_range(self.clusters@[c as int], lo_bits(m));
                }
                let ghost cset = node_elems(self.clusters@[c as int], lo_bits(m));
                let mut within: Option<usize> = None;
                if self.summary.member(c) {
                    match self.clusters[c].max() {
                        Some(cm) => {
                            if lo < cm {
                                within = self.clusters[c].successor(lo);
                                proof {
                                    if within is None {
                                        assert(cset.contains(cm as int));
                                        assert(false);
                                    }
                                }
                            }
                        },
                        None => {
                        },
                    }
                }
                proof {
                    if within is None {
                        assert forall|o: int| cset.contains(o) implies o <= lo as int by {
                            if !summary_set(*self, m).contains(c as int) {
                                assert(cset.is_empty());
                            }
                        }
                    }
                }
                match within {
                    Some(off) => {
                        let v = self.index(c, off);
                        proof {
                            lemma_combine(c as int, off as int, m);
                            assert(cluster_holds(*self, m, v as int));
                            assert(s.contains(v as int));
                            lemma_combine_lt(c as int, lo as int, c as int, off as int, m);
                            assert forall|y: int| s.contains(y) && y > x as int implies v as int
                                <= y by {
                                lemma_parts(y, m);
                                let cy = high_part(y, m);
                                let oy = low_part(y, m);
                                assert(cluster_holds(*self, m, y));
                                lemma_combine_lt(c as int, lo as int, cy, oy, m);
                                lemma_combine_lt(cy, oy, c as int, off as int, m);
                            }
                        }
                        Some(v)
                    },
                    None => {
                        match self.summary.successor(c) {
                            Some(sc) => {
                                proof {
                                    assert(summary_set(*self, m).contains(sc as int));
                                    lemma_wf_mag(self.clusters@[sc as int], lo_bits(m));
                                    lemma_elems_range(self.clusters@[sc as int], lo_bits(m));
                                }
                                match self.clusters[sc].min() {
                                    Some(off2) => {
                                        let v = self.index(sc, off2);
                                        proof {
                                            lemma_combine(sc as int, off2 as int, m);
                                            assert(cluster_holds(*self, m, v as int));
                                            assert(s.contains(v as int));
                                            lemma_combine_lt(
                                                c as int,
                                                lo as int,
                                                sc as int,
                                                off2 as int,
                                                m,
                                            );
                                            assert forall|y: int|
                                                s.contains(y) && y > x as int implies v as int
                                                <= y by {
                                                lemma_parts(y, m);
                                                let cy = high_part(y, m);
                                                let oy = low_part(y, m);
                                                assert(cluster_holds(*self, m, y));
                                                lemma_combine_lt(c as int, lo as int, cy, oy, m);
                                                if cy == c as int {
                                                    assert(false);
                                                } else {
                                                    assert(summary_set(*self, m).contains(cy));
                                                    lemma_combine_lt(
                                                        cy,
                                                        oy,
                                                        sc as int,
                                                        off2 as int,
                                                        m,
                                                    );
                                                }
                                            }
                                        }
                                        Some(v)
                                    },
                                    None => {
                                        proof {
                                            assert(!node_elems(
                                                self.clusters@[sc as int],
                                                lo_bits(m),
                                            ).is_empty());
                                            assert(false);
                                        }
                                        None
                                    },
                                }
                            },
                            None => {
                                proof {
                                    assert forall|y: int| s.contains(y) implies y <= x as int by {
                                        if y != mn as int {
                                            lemma_parts(y, m);
                                            let cy = high_part(y, m);
                                            let oy = low_part(y, m);
                                            assert(cluster_holds(*self, m, y));
                                            lemma_combine_lt(c as int, lo as int, cy, oy, m);
                                            if cy > c as int {
                                                assert(summary_set(*self, m).contains(cy));
                                                assert(false);
                                            }
                                        }
                                    }
                                }
                                None
                            },
                        }
                    },
                }
            },
            _ => {
                proof {
                    assert(self.elems() =~= Set::<int>::empty());
                }
                None
            },
        }
    }

    /// The greatest key present strictly less than `x`, or absent. The
    /// cached minimum is not recorded in any cluster, so it is the final
    /// fallback answer when the clusters hold nothing below `x`.
    #[verifier::rlimit(50)]
    pub fn predecessor(&self, x: usize) -> (r: Option<usize>)
        requires
            self.wf(),
            (x as nat) < pow2(self.m()),
        ensures
            is_pred_of(self.elems(), x as int, r),
        decreases self.magnitude, 0int,
    {
        let ghost m = self.m();
        let ghost s = self.elems();
        proof {
            lemma_inner_facts(*self, m);
        }
        match (self.min, self.max) {
            (Some(mn), Some(mx)) => {
                if x > mx {
                    return Some(mx);
                }
                let c = self.high(x);
                let lo = self.low(x);
                proof {
                    lemma_split_bits(m);
                    lemma_parts(x as int, m);
                    lemma_wf_mag(*self.summary, hi_bits(m));
                    lemma_elems_range(*self.summary, hi_bits(m));
                    lemma_wf_mag(self.clusters@[c as int], lo_bits(m));
                    lemma_elems_range(self.clusters@[c as int], lo_bits(m));
                }
                let ghost cset = node_elems(self.clusters@[c as int], lo_bits(m));
                let mut within: Option<usize> = None;
                if self.summary.member(c) {
                    match self.clusters[c].min() {
                        Some(cm) => {
                            if cm < lo {
                                within = self.clusters[c].predecessor(lo);
                                proof {
                                    if within is None {
                                        assert(cset.contains(cm as int));
                                        assert(false);
                                    }
                                }
                            }
                        },
                        None => {
                        },
                    }
                }
                proof {
                    if within is None {
                        assert forall|o: int| cset.contains(o) implies o >= lo as int by {
                            if !summary_set(*self, m).contains(c as int) {
                                assert(cset.is_empty());
                            }
                        }
                    }
                }
                match within {
                    Some(off) => {
                        let v = self.index(c, off);
                        proof {
                            lemma_combine(c as int, off as int, m);
                            assert(cluster_holds(*self, m, v as int));
                            assert(s.contains(v as int));
                            lemma_combine_lt(c as int, off as int, c as int, lo as int, m);
                            assert forall|y: int| s.contains(y) && y < x as int implies y
                                <= v as int by {
                                if y == mn as int {
                                    assert(mn as int <= v as int);
                                } else {
                                    lemma_parts(y, m);
                                    let cy = high_part(y, m);
                                    let oy = low_part(y, m);
                                    assert(cluster_holds(*self, m, y));
                                    lemma_combine_lt(cy, oy, c as int, lo as int, m);
                                    lemma_combine_lt(c as int, off as int, cy, oy, m);
                                }
                            }
                        }
                        Some(v)
                    },
                    None => {
                        match self.summary.predecessor(c) {
                            Some(sc) => {
                                proof {
                                    assert(summary_set(*self, m).contains(sc as int));
                                    lemma_wf_mag(self.clusters@[sc as int], lo_bits(m));
                                    lemma_elems_range(self.clusters@[sc as int], lo_bits(m));
                                }
                                match self.clusters[sc].max() {
                                    Some(off2) => {
                                        let v = self.index(sc, off2);
                                        proof {
                                            lemma_combine(sc as int, off2 as int, m);
                                            assert(cluster_holds(*self, m, v as int));
                                            assert(s.contains(v as int));
                                            lemma_combine_lt(
                                                sc as int,
                                                off2 as int,
                                                c as int,
                                                lo as int,
                                                m,
                                            );
                                            assert forall|y: int|
                                                s.contains(y) && y < x as int implies y
                                                <= v as int by {
                                                if y != mn as int {
                                                    lemma_parts(y, m);
                                                    let cy = high_part(y, m);
                                                    let oy = low_part(y, m);
                                                    assert(cluster_holds(*self, m, y));
                                                    lemma_combine_lt(cy, oy, c as int, lo as int, m);
                                                    if cy == c as int {
                                                        assert(false);
                                                    } else if cy < c as int {
                                                        assert(summary_set(*self, m).contains(cy));
                                                        lemma_combine_lt(
                                                            sc as int,
                                                            off2 as int,
                                                            cy,
                                                            oy,
                                                            m,
                                                        );
                                                    }
                                                }
                                            }
                                        }
                                        Some(v)
                                    },
                                    None => {
                                        proof {
                                            assert(!node_elems(
                                                self.clusters@[sc as int],
                                                lo_bits(m),
                                            ).is_empty());
                                            assert(false);
                                        }
                                        None
                                    },
                                }
                            },
                            None => {
                                proof {
                                    assert forall|y: int|
                                        s.contains(y) && y < x as int implies y <= mn as int by {
                                        if y != mn as int {
                                            lemma_parts(y, m);
                                            let cy = high_part(y, m);
                                            let oy = low_part(y, m);
                                            assert(cluster_holds(*self, m, y));
                                            lemma_combine_lt(cy, oy, c as int, lo as int, m);
                                            if cy < c as int {
                                                assert(summary_set(*self, m).contains(cy));
                                                assert(false);
                                            }
                                        }
                                    }
                                }
                                if x > mn {
                                    Some(mn)
                                } else {
                                    None
                                }
                            },
                        }
                    },
                }
            },
            _ => {
                proof {
                    assert(self.elems() =~= Set::<int>::empty());
                }
                None
            },
        }
    }

    /// Add `x`. The smaller of `x` and the cached minimum stays cached; the
    /// larger is recorded in its cluster, after registering that cluster in
    /// the summary when it was empty.
    #[verifier::rlimit(100)]
    pub fn insert(&mut self, x: usize)
        requires
            old(self).wf(),
            (x as nat) < pow2(old(self).m()),
        ensures
            final(self).wf(),
            final(self).magnitude == old(self).magnitude,
            final(self).elems() == old(self).elems().insert(x as int),
        decreases old(self).magnitude, 0int,
    {
        let ghost m = self.m();
        let ghost i0 = *self;
        let ghost xi = x as int;
        proof {
            lemma_split_bits(m);
            lemma_inner_facts(i0, m);
        }
        match (self.min, self.max) {
            (Some(mn0), Some(mx0)) => {
                if x == mn0 {
                    proof {
                        assert(i0.elems().insert(xi) =~= i0.elems());
                    }
                    return;
                }
                let (y, new_mn) = if x < mn0 {
                    (mn0, x)
                } else {
                    (x, mn0)
                };
                let c = self.high(y);
                let lo = self.low(y);
                proof {
                    lemma_parts(y as int, m);
                    lemma_wf_mag(*self.summary, hi_bits(m));
                    lemma_wf_mag(self.clusters@[c as int], lo_bits(m));
                    lemma_elems_range(self.clusters@[c as int], lo_bits(m));
                }
                let ghost old_cset = node_elems(i0.clusters@[c as int], lo_bits(m));
                let ghost old_sumset = node_elems(*i0.summary, hi_bits(m));
                let was_empty = self.clusters[c].empty();
                if was_empty {
                    self.summary.insert(c);
                }
                self.min = Some(new_mn);
                if y > mx0 {
                    self.max = Some(y);
                }
                let cl = &mut self.clusters[c];
                cl.insert(lo);
                proof {
                    let i1 = *self;
                    let yv = y as int;
                    assert(node_elems(i1.clusters@[c as int], lo_bits(m)) == old_cset.insert(
                        lo as int,
                    ));
                    lemma_combine(c as int, lo as int, m);
                    assert forall|z: int|
                        #![trigger cluster_holds(i1, m, z)]
                        #![trigger cluster_holds(i0, m, z)]
                        cluster_holds(i1, m, z) == (cluster_holds(i0, m, z) || z == yv) by {
                        lemma_recombine(z, m);
                        let cz = high_part(z, m);
                        let oz = low_part(z, m);
                        if 0 <= cz < i1.clusters@.len() && cz != c as int {
                            assert(i1.clusters@[cz] == i0.clusters@[cz]);
                        }
                    }
                    assert forall|z: int|
                        #![trigger inner_elems(i1, m).contains(z)]
                        #![trigger inner_elems(i0, m).contains(z)]
                        inner_elems(i1, m).contains(z) == (inner_elems(i0, m).contains(z) || z
                            == xi) by {
                        assert(cluster_holds(i1, m, z) == (cluster_holds(i0, m, z) || z == yv));
                    }
                    assert(inner_elems(i1, m) =~= inner_elems(i0, m).insert(xi));
                    assert forall|j: int| 0 <= j < i1.clusters@.len() implies node_wf(
                        #[trigger] i1.clusters@[j],
                        lo_bits(m),
                    ) by {
                        if j != c as int {
                            assert(i1.clusters@[j] == i0.clusters@[j]);
                        }
                    }
                    lemma_elems_range(*i0.summary, hi_bits(m));
                    assert forall|cc: int|
                        #![trigger node_elems(*i1.summary, hi_bits(m)).contains(cc)]
                        #![trigger summary_set(i1, m).contains(cc)]
                        node_elems(*i1.summary, hi_bits(m)).contains(cc) == summary_set(
                            i1,
                            m,
                        ).contains(cc) by {
                        if cc != c as int {
                            if 0 <= cc < i1.clusters@.len() {
                                assert(i1.clusters@[cc] == i0.clusters@[cc]);
                            }
                            assert(old_sumset.contains(cc) == summary_set(i0, m).contains(cc));
                        } else {
                            assert(node_elems(i1.clusters@[cc], lo_bits(m)).contains(lo as int));
                        }
                    }
                    assert(node_elems(*i1.summary, hi_bits(m)) =~= summary_set(i1, m));
                    assert(!cluster_holds(i1, m, new_mn as int)) by {
                        if cluster_holds(i0, m, new_mn as int) {
                            assert(mn0 as int <= new_mn as int);
                        }
                    }
                    assert forall|z: int| #[trigger] cluster_holds(i1, m, z) implies new_mn as int
                        <= z <= i1.max->0 as int by {
                        if cluster_holds(i0, m, z) {
                            assert(mn0 as int <= z <= mx0 as int);
                        }
                    }
                    if y <= mx0 {
                        if mx0 == mn0 {
                            assert(y as int >= mn0 as int);
                            assert(yv == mx0 as int);
                            assert(cluster_holds(i1, m, mx0 as int));
                        } else {
                            assert(cluster_holds(i0, m, mx0 as int));
                        }
                    }
                    assert(inner_bounds_ok(i1, m));
                    assert(i1.wf());
                }
            },
            _ => {
                self.min = Some(x);
                self.max = Some(x);
                proof {
                    let i1 = *self;
                    assert forall|z: int| !(#[trigger] cluster_holds(i1, m, z)) by {
                        if cluster_holds(i1, m, z) {
                            let cz = high_part(z, m);
                            assert(node_elems(i0.clusters@[cz], lo_bits(m)).is_empty());
                        }
                    }
                    assert(summary_set(i1, m) =~= summary_set(i0, m));
                    assert(i0.elems() =~= Set::<int>::empty());
                    assert(i1.elems().contains(xi));
                    assert forall|z: int| i1.elems().contains(z) implies z == xi by {
                        assert(!cluster_holds(i1, m, z));
                    }
                    assert(i1.elems() =~= i0.elems().insert(xi));
                    assert(i1.wf());
                }
            },
        }
    }

    /// Remove `x`; no effect if absent. When the cached minimum is removed,
    /// the least key recorded in the clusters replaces it and is deleted
    /// from its cluster; a cluster that becomes empty leaves the summary;
    /// a removed maximum is recomputed from the summary.
    #[verifier::rlimit(100)]
    pub fn delete(&mut self, x: usize)
        requires
            old(self).wf(),
            (x as nat) < pow2(old(self).m()),
        ensures
            final(self).wf(),
            final(self).magnitude == old(self).magnitude,
            final(self).elems() == old(self).elems().remove(x as int),
        decreases old(self).magnitude, 0int,
    {
        let ghost m = self.m();
        let ghost i0 = *self;
        let ghost xi = x as int;
        proof {
            lemma_split_bits(m);
            lemma_inner_facts(i0, m);
        }
        match (self.min, self.max) {
            (Some(mn0), Some(mx0)) => {
                if mn0 == mx0 {
                    if x == mn0 {
                        self.min = None;
                        self.max = None;
                        proof {
                            lemma_singleton_clusters_empty(i0, m);
                            let i1 = *self;
                            assert forall|cc: int| 0 <= cc < i1.clusters@.len() implies (
                            #[trigger] node_elems(i1.clusters@[cc], lo_bits(m))).is_empty() by {
                                let cs = node_elems(i0.clusters@[cc], lo_bits(m));
                                if !cs.is_empty() {
                                    lemma_elems_finite(i0.clusters@[cc], lo_bits(m));
                                    lemma_set_empty_equivalency_len(cs);
                                    let o = cs.choose();
                                    assert(cs.contains(o));
                                    lemma_elems_range(i0.clusters@[cc], lo_bits(m));
                                    lemma_combine(cc, o, m);
                                    assert(cluster_holds(i0, m, combine(cc, o, m)));
                                }
                            }
                            assert(summary_set(i1, m) =~= summary_set(i0, m));
                            assert(i1.elems() =~= i0.elems().remove(xi));
                            assert(i1.wf());
                        }
                    } else {
                        proof {
                            if cluster_holds(i0, m, xi) {
                                assert(mn0 as int <= xi <= mx0 as int);
                            }
                            assert(!i0.elems().contains(xi));
                            assert(i0.elems().remove(xi) =~= i0.elems());
                        }
                    }
                    return;
                }
                proof {
                    lemma_wf_mag(*self.summary, hi_bits(m));
                    lemma_elems_range(*self.summary, hi_bits(m));
                    assert(cluster_holds(i0, m, mx0 as int));
                    lemma_cluster_holds_range(i0, m, mx0 as int);
                    assert(summary_set(i0, m).contains(high_part(mx0 as int, m)));
                    assert(node_elems(*i0.summary, hi_bits(m)).contains(high_part(mx0 as int, m)));
                }
                let ghost old_sumset = node_elems(*i0.summary, hi_bits(m));
                if x == mn0 {
                    let sc = match self.summary.min() {
                        Some(sc) => sc,
                        None => {
                            proof {
                                assert(false);
                            }
                            0
                        },
                    };
                    proof {
                        assert(old_sumset.contains(sc as int));
                        assert(summary_set(i0, m).contains(sc as int));
                        lemma_wf_mag(i0.clusters@[sc as int], lo_bits(m));
                        lemma_elems_range(i0.clusters@[sc as int], lo_bits(m));
                    }
                    let ghost old_cset = node_elems(i0.clusters@[sc as int], lo_bits(m));
                    let off = match self.clusters[sc].min() {
                        Some(off) => off,
                        None => {
                            proof {
                                assert(old_cset =~= Set::<int>::empty());
                                assert(false);
                            }
                            0
                        },
                    };
                    let newmin = self.index(sc, off);
                    proof {
                        lemma_combine(sc as int, off as int, m);
                    }
                    self.min = Some(newmin);
                    let cl = &mut self.clusters[sc];
                    cl.delete(off);
                    let emptied = self.clusters[sc].empty();
                    if emptied {
                        self.summary.delete(sc);
                    }
                    proof {
                        let i1 = *self;
                        let nmi = newmin as int;
                        assert(node_elems(i1.clusters@[sc as int], lo_bits(m)) == old_cset.remove(
                            off as int,
                        ));
                        assert forall|z: int|
                            #![trigger cluster_holds(i1, m, z)]
                            #![trigger cluster_holds(i0, m, z)]
                            cluster_holds(i1, m, z) == (cluster_holds(i0, m, z) && z != nmi) by {
                            lemma_recombine(z, m);
                            let cz = high_part(z, m);
                            let oz = low_part(z, m);
                            if 0 <= cz < i1.clusters@.len() && cz != sc as int {
                                assert(i1.clusters@[cz] == i0.clusters@[cz]);
                            }
                        }
                        assert(cluster_holds(i0, m, nmi));
                        assert forall|z: int| #[trigger] cluster_holds(i0, m, z) implies nmi
                            <= z by {
                            lemma_cluster_holds_range(i0, m, z);
                            let cz = high_part(z, m);
                            let oz = low_part(z, m);
                            assert(summary_set(i0, m).contains(cz));
                            assert(old_sumset.contains(cz));
                            lemma_combine_lt(cz, oz, sc as int, off as int, m);
                        }
                        assert forall|z: int|
                            #![trigger inner_elems(i1, m).contains(z)]
                            #![trigger inner_elems(i0, m).contains(z)]
                            inner_elems(i1, m).contains(z) == (inner_elems(i0, m).contains(z) && z
                                != xi) by {
                            assert(cluster_holds(i1, m, z) == (cluster_holds(i0, m, z) && z != nmi));
                            if cluster_holds(i0, m, z) {
                                assert(z != xi);
                            }
                        }
                        assert(inner_elems(i1, m) =~= inner_elems(i0, m).remove(xi));
                        assert forall|j: int| 0 <= j < i1.clusters@.len() implies node_wf(
                            #[trigger] i1.clusters@[j],
                            lo_bits(m),
                        ) by {
                            if j != sc as int {
                                assert(i1.clusters@[j] == i0.clusters@[j]);
                            }
                        }
                        assert forall|cc: int|
                            #![trigger node_elems(*i1.summary, hi_bits(m)).contains(cc)]
                            #![trigger summary_set(i1, m).contains(cc)]
                            node_elems(*i1.summary, hi_bits(m)).contains(cc) == summary_set(
                                i1,
                                m,
                            ).contains(cc) by {
                            if cc != sc as int {
                                if 0 <= cc < i1.clusters@.len() {
                                    assert(i1.clusters@[cc] == i0.clusters@[cc]);
                                }
                                assert(old_sumset.contains(cc) == summary_set(i0, m).contains(cc));
                            }
                        }
                        assert(node_elems(*i1.summary, hi_bits(m)) =~= summary_set(i1, m));
                        assert(!cluster_holds(i1, m, nmi));
                        assert forall|z: int| #[trigger] cluster_holds(i1, m, z) implies nmi <= z
                            <= mx0 as int by {
                            assert(mn0 as int <= z <= mx0 as int);
                        }
                        assert(nmi <= mx0 as int);
                        if mx0 as int != nmi {
                            assert(cluster_holds(i1, m, mx0 as int));
                        }
                        assert(inner_bounds_ok(i1, m));
                        assert(i1.wf());
                    }
                } else {
                    let c = self.high(x);
                    let lo = self.low(x);
                    proof {
                        lemma_parts(xi, m);
                        lemma_wf_mag(self.clusters@[c as int], lo_bits(m));
                        lemma_elems_range(self.clusters@[c as int], lo_bits(m));
                    }
                    let ghost old_cset = node_elems(i0.clusters@[c as int], lo_bits(m));
                    let cl = &mut self.clusters[c];
                    cl.delete(lo);
                    let emptied = self.clusters[c].empty();
                    if emptied {
                        self.summary.delete(c);
                    }
                    proof {
                        let imid = *self;
                        assert(node_elems(imid.clusters@[c as int], lo_bits(m)) == old_cset.remove(
                            lo as int,
                        ));
                        assert forall|z: int|
                            #![trigger cluster_holds(imid, m, z)]
                            #![trigger cluster_holds(i0, m, z)]
                            cluster_holds(imid, m, z) == (cluster_holds(i0, m, z) && z != xi) by {
                            lemma_recombine(z, m);
                            let cz = high_part(z, m);
                            let oz = low_part(z, m);
                            if 0 <= cz < imid.clusters@.len() && cz != c as int {
                                assert(imid.clusters@[cz] == i0.clusters@[cz]);
                            }
                        }
                        assert forall|j: int| 0 <= j < imid.clusters@.len() implies node_wf(
                            #[trigger] imid.clusters@[j],
                            lo_bits(m),
                        ) by {
                            if j != c as int {
                                assert(imid.clusters@[j] == i0.clusters@[j]);
                            }
                        }
                        assert forall|cc: int|
                            #![trigger node_elems(*imid.summary, hi_bits(m)).contains(cc)]
                            #![trigger summary_set(imid, m).contains(cc)]
                            node_elems(*imid.summary, hi_bits(m)).contains(cc) == summary_set(
                                imid,
                                m,
                            ).contains(cc) by {
                            if cc != c as int {
                                if 0 <= cc < imid.clusters@.len() {
                                    assert(imid.clusters@[cc] == i0.clusters@[cc]);
                                }
                                assert(old_sumset.contains(cc) == summary_set(i0, m).contains(cc));
                            }
                        }
                        assert(node_elems(*imid.summary, hi_bits(m)) =~= summary_set(imid, m));
                    }
                    if x == mx0 {
                        proof {
                            lemma_wf_mag(*self.summary, hi_bits(m));
                        }
                        match self.summary.max() {
                            Some(sc2) => {
                                proof {
                                    assert(summary_set(*self, m).contains(sc2 as int));
                                    lemma_wf_mag(self.clusters@[sc2 as int], lo_bits(m));
                                    lemma_elems_range(self.clusters@[sc2 as int], lo_bits(m));
                                }
                                let off2 = match self.clusters[sc2].max() {
                                    Some(off2) => off2,
                                    None => {
                                        proof {
                                            assert(node_elems(
                                                self.clusters@[sc2 as int],
                                                lo_bits(m),
                                            ) =~= Set::<int>::empty());
                                            assert(false);
                                        }
                                        0
                                    },
                                };
                                let nm = self.index(sc2, off2);
                                proof {
                                    lemma_combine(sc2 as int, off2 as int, m);
                                }
                                self.max = Some(nm);
                                proof {
                                    let i1 = *self;
                                    assert forall|z: int| #[trigger] cluster_holds(i1, m, z)
                                        implies z <= nm as int by {
                                        lemma_recombine(z, m);
                                        let cz = high_part(z, m);
                                        let oz = low_part(z, m);
                                        lemma_elems_range(i1.clusters@[cz], lo_bits(m));
                                        assert(summary_set(i1, m).contains(cz));
                                        assert(node_elems(*i1.summary, hi_bits(m)).contains(cz));
                                        lemma_combine_lt(cz, oz, sc2 as int, off2 as int, m);
                                    }
                                    assert(cluster_holds(i1, m, nm as int));
                                }
                            },
                            None => {
                                self.max = Some(mn0);
                            },
                        }
                    }
                    proof {
                        let i1 = *self;
                        assert forall|z: int|
                            #![trigger cluster_holds(i1, m, z)]
                            #![trigger cluster_holds(i0, m, z)]
                            cluster_holds(i1, m, z) == (cluster_holds(i0, m, z) && z != xi) by {
                            lemma_recombine(z, m);
                            let cz = high_part(z, m);
                            let oz = low_part(z, m);
                            if 0 <= cz < i1.clusters@.len() && cz != c as int {
                                assert(i1.clusters@[cz] == i0.clusters@[cz]);
                            }
                        }
                        assert forall|z: int|
                            #![trigger inner_elems(i1, m).contains(z)]
                            #![trigger inner_elems(i0, m).contains(z)]
                            inner_elems(i1, m).contains(z) == (inner_elems(i0, m).contains(z) && z
                                != xi) by {
                            assert(cluster_holds(i1, m, z) == (cluster_holds(i0, m, z) && z != xi));
                        }
                        assert(inner_elems(i1, m) =~= inner_elems(i0, m).remove(xi));
                        assert forall|j: int| 0 <= j < i1.clusters@.len() implies node_wf(
                            #[trigger] i1.clusters@[j],
                            lo_bits(m),
                        ) by {
                            if j != c as int {
                                assert(i1.clusters@[j] == i0.clusters@[j]);
                            }
                        }
                        assert forall|cc: int|
                            #![trigger node_elems(*i1.summary, hi_bits(m)).contains(cc)]
                            #![trigger summary_set(i1, m).contains(cc)]
                            node_elems(*i1.summary, hi_bits(m)).contains(cc) == summary_set(
                                i1,
                                m,
                            ).contains(cc) by {
                            if cc != c as int {
                                if 0 <= cc < i1.clusters@.len() {
                                    assert(i1.clusters@[cc] == i0.clusters@[cc]);
                                }
                                assert(old_sumset.contains(cc) == summary_set(i0, m).contains(cc));
                            }
                        }
                        assert(node_elems(*i1.summary, hi_bits(m)) =~= summary_set(i1, m));
                        assert(!cluster_holds(i1, m, mn0 as int));
                        let mxv = i1.max->0 as int;
                        assert forall|z: int| #[trigger] cluster_holds(i1, m, z) implies mn0 as int
                            <= z <= mxv by {
                            assert(mn0 as int <= z <= mx0 as int);
                            if x == mx0 {
                                lemma_recombine(z, m);
                                let cz = high_part(z, m);
                                let oz = low_part(z, m);
                                lemma_elems_range(i1.clusters@[cz], lo_bits(m));
                                assert(summary_set(i1, m).contains(cz));
                                assert(node_elems(*i1.summary, hi_bits(m)).contains(cz));
                            }
                        }
                        if x != mx0 {
                            assert(cluster_holds(i0, m, mx0 as int));
                            assert(cluster_holds(i1, m, mx0 as int));
                        }
                        assert(inner_bounds_ok(i1, m));
                        assert(i1.wf());
                    }
                }
            },
            _ => {
                proof {
                    assert(i0.elems() =~= Set::<int>::empty());
                    assert(i0.elems().remove(xi) =~= i0.elems());
                }
            },
        }
    }
}

} // verus!
