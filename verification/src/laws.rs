//! Properties of the list that relate several operations or hold of every
//! well-formed state, stated and proved over the structural model. The
//! sorted-insertion law lives beside its model in `order`.

use crate::list::List;
use vstd::prelude::*;

verus! {

/// Partition invariant: in a well-formed list the free chain and the
/// occupied chain together cover the full index range, each index appearing
/// on exactly one chain, exactly once.
pub proof fn lemma_partition(l: List)
    requires
        l.wf(),
    ensures
        forall|k: u8| (k as int) < l.cap() ==> (l.occupied@.contains(k) <==> !l.free@.contains(k)),
        l.occupied@.no_duplicates(),
        l.free@.no_duplicates(),
{
    assert forall|k: u8| (k as int) < l.cap() implies (l.occupied@.contains(k) <==> !l.free@
        .contains(k)) by {
        if l.occupied@.contains(k) {
            let m = choose|m: int| 0 <= m < l.occupied@.len() && l.occupied@[m] == k;
            assert(!l.free@.contains(l.occupied@[m]));
        }
    }
}

/// Exhaustion boundary: in a well-formed list the free chain is empty
/// exactly when the live values fill the whole capacity. Every allocating
/// operation consumes one free slot and reports `Exhaustion` exactly when
/// the free chain is empty, so on a list of capacity `N` the first `N`
/// allocating calls succeed and the next one fails, changing nothing.
pub proof fn lemma_exhaustion_boundary(l: List)
    requires
        l.wf(),
    ensures
        (l@.len() == l.cap()) <==> (l.free@.len() == 0),
{
}

/// Push/pop round trip: a successful `push_front` of `x` followed at once
/// by `pop_front` pops `x` back out and restores the structural state
/// exactly — both heads, both chains and every link are as before the pair
/// of calls, and the list reads the same. Only the scratch storage of the
/// slot that made the round trip now holds `x`.
pub proof fn lemma_push_pop_round_trip(pre: List, mid: List, post: List, x: i64)
    requires
        pre.wf(),
        List::push_spec(pre, mid, x),
        List::pop_spec(mid, post),
    ensures
        mid@[0] == x,
        post@ == pre@,
        post.head == pre.head,
        post.free_head == pre.free_head,
        post.occupied@ == pre.occupied@,
        post.free@ == pre.free@,
        post.slots@.len() == pre.slots@.len(),
        forall|k: int| 0 <= k < pre.slots@.len() ==> post.slots@[k].next == pre.slots@[k].next,
{
    let f = pre.free@[0];
    assert(mid.occupied@[0] == f);
    assert(post.occupied@ =~= pre.occupied@);
    assert(post.free@ =~= pre.free@);
    assert forall|m: int| 0 <= m < pre.occupied@.len() implies pre.occupied@[m] != f by {
        assert(!pre.free@.contains(pre.occupied@[m]));
    }
    assert forall|k: int| 0 <= k < pre.slots@.len() implies post.slots@[k].next == pre.slots@[
        k].next by {}
    assert(post@ =~= pre@);
}

} // verus!
