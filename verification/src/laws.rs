//! Laws that relate several operations, stated over the model that every
//! operation's contract speaks of.

use vstd::prelude::*;

verus! {

use vstd::arithmetic::power2::pow2;
use crate::model::{VEBTree, is_succ_of, is_pred_of, lemma_elems_range};

/// One mutation of an ordered set: the model of `VEBTree::insert` or
/// `VEBTree::delete`.
pub enum SetOp {
    Insert(usize),
    Delete(usize),
}

/// The model after a sequence of mutations applied to an initial model,
/// exactly as the contracts of `insert` and `delete` evolve `elems()`.
pub open spec fn apply_ops(init: Set<int>, ops: Seq<SetOp>) -> Set<int>
    decreases ops.len(),
{
    if ops.len() == 0 {
        init
    } else {
        match ops.last() {
            SetOp::Insert(v) => apply_ops(init, ops.drop_last()).insert(v as int),
            SetOp::Delete(v) => apply_ops(init, ops.drop_last()).remove(v as int),
        }
    }
}

/// `x` was present initially or inserted at some point, and not deleted
/// afterwards.
pub open spec fn inserted_not_deleted(init: Set<int>, ops: Seq<SetOp>, x: usize) -> bool
    decreases ops.len(),
{
    if ops.len() == 0 {
        init.contains(x as int)
    } else {
        match ops.last() {
            SetOp::Insert(v) => v == x || inserted_not_deleted(init, ops.drop_last(), x),
            SetOp::Delete(v) => v != x && inserted_not_deleted(init, ops.drop_last(), x),
        }
    }
}

/// After any sequence of inserts and deletes, a key is a member exactly
/// when it was inserted (or initially present) and not subsequently
/// deleted. Together with the contracts of `member`, `insert` and
/// `delete`, which evolve `elems()` by exactly these set operations, this
/// pins membership down for every operation sequence; it also shows both
/// operations idempotent, since repeating the last operation changes
/// nothing here.
pub proof fn lemma_membership_history(init: Set<int>, ops: Seq<SetOp>, x: usize)
    ensures
        apply_ops(init, ops).contains(x as int) == inserted_not_deleted(init, ops, x),
    decreases ops.len(),
{
    if ops.len() > 0 {
        lemma_membership_history(init, ops.drop_last(), x);
    }
}

/// Repeating an insert or a delete changes nothing: both mutations are
/// idempotent on the model.
pub proof fn lemma_ops_idempotent(s: Set<int>, x: usize)
    ensures
        s.insert(x as int).insert(x as int) == s.insert(x as int),
        s.remove(x as int).remove(x as int) == s.remove(x as int),
{
    assert(s.insert(x as int).insert(x as int) =~= s.insert(x as int));
    assert(s.remove(x as int).remove(x as int) =~= s.remove(x as int));
}

/// For a present key `x` with predecessor `p`, the successor of `p` is
/// exactly `x`: nothing lies strictly between a key and its predecessor.
pub proof fn lemma_succ_of_pred(s: Set<int>, x: usize, p: usize)
    requires
        s.contains(x as int),
        is_pred_of(s, x as int, Some(p)),
    ensures
        is_succ_of(s, p as int, Some(x)),
{
}

/// For a present key `x` with successor `v`, the predecessor of `v` is
/// exactly `x`: nothing lies strictly between a key and its successor.
pub proof fn lemma_pred_of_succ(s: Set<int>, x: usize, v: usize)
    requires
        s.contains(x as int),
        is_succ_of(s, x as int, Some(v)),
    ensures
        is_pred_of(s, v as int, Some(x)),
{
}

/// Inserting an absent key and deleting it right away restores the model
/// exactly: same members, hence the same count.
pub proof fn lemma_insert_delete_roundtrip(s: Set<int>, x: usize)
    requires
        !s.contains(x as int),
    ensures
        s.insert(x as int).remove(x as int) == s,
{
    assert(s.insert(x as int).remove(x as int) =~= s);
}

/// Whether or not `x` was present, inserting `x` and deleting it right
/// away leaves every other key exactly as it was.
pub proof fn lemma_insert_delete_others(s: Set<int>, x: usize, y: int)
    requires
        y != x as int,
    ensures
        s.insert(x as int).remove(x as int).contains(y) == s.contains(y),
{
}

/// At the top edge of the universe the successor is always absent: every
/// key of a well-formed tree lies below `2^magnitude`.
pub proof fn lemma_no_successor_at_top(t: VEBTree, r: Option<usize>)
    requires
        t.wf(),
        pow2(t.mag()) >= 1,
        is_succ_of(t.elems(), pow2(t.mag()) - 1, r),
    ensures
        r is None,
{
    lemma_elems_range(t.node, t.mag());
}

/// At the bottom edge of the universe the predecessor is always absent:
/// no key of a well-formed tree is negative.
pub proof fn lemma_no_predecessor_at_zero(t: VEBTree, r: Option<usize>)
    requires
        t.wf(),
        is_pred_of(t.elems(), 0, r),
    ensures
        r is None,
{
    lemma_elems_range(t.node, t.mag());
}

} // verus!
