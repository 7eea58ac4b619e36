//! The ordering model of sorted insertion: where a new value lands in a
//! non-decreasing sequence, and why the sequence stays non-decreasing.

use vstd::prelude::*;

verus! {

/// `s` is non-decreasing from head to tail.
pub open spec fn sorted(s: Seq<i64>) -> bool {
    forall|p: int, q: int| 0 <= p <= q < s.len() ==> s[p] <= s[q]
}

/// The position at which sorted insertion places `v` into `s`: just before
/// the first value not less than `v`, or at the end when every value is
/// less. Among equal values the new one therefore lands before the existing
/// ones.
pub open spec fn insert_pos(s: Seq<i64>, v: i64) -> int
    decreases s.len(),
{
    if s.len() == 0 {
        0
    } else if s[0] >= v {
        0
    } else {
        1 + insert_pos(s.drop_first(), v)
    }
}

/// `insert_pos` lies within the sequence, everything before it is strictly
/// less than the new value, and the value at it (when it exists) is not.
pub proof fn lemma_insert_pos_bounds(s: Seq<i64>, v: i64)
    ensures
        0 <= insert_pos(s, v) <= s.len(),
        forall|k: int| 0 <= k < insert_pos(s, v) ==> s[k] < v,
        insert_pos(s, v) < s.len() ==> s[insert_pos(s, v)] >= v,
    decreases s.len(),
{
    if s.len() == 0 {
    } else if s[0] >= v {
    } else {
        lemma_insert_pos_bounds(s.drop_first(), v);
        assert forall|k: int| 0 <= k < insert_pos(s, v) implies s[k] < v by {
            if k > 0 {
                assert(s.drop_first()[k - 1] == s[k]);
            }
        }
    }
}

/// Any position with the properties of `lemma_insert_pos_bounds` is
/// `insert_pos`: the stopping rule determines the position uniquely.
pub proof fn lemma_insert_pos_unique(s: Seq<i64>, v: i64, j: int)
    requires
        0 <= j <= s.len(),
        forall|k: int| 0 <= k < j ==> s[k] < v,
        j < s.len() ==> s[j] >= v,
    ensures
        j == insert_pos(s, v),
    decreases s.len(),
{
    if s.len() == 0 {
    } else if s[0] >= v {
        assert(j == 0);
    } else {
        assert(j >= 1);
        assert forall|k: int| 0 <= k < j - 1 implies s.drop_first()[k] < v by {
            assert(s.drop_first()[k] == s[k + 1]);
        }
        assert(j - 1 < s.drop_first().len() ==> s.drop_first()[j - 1] >= v);
        lemma_insert_pos_unique(s.drop_first(), v, j - 1);
    }
}

/// Sorted insertion keeps a sequence non-decreasing: inserting any value
/// `v` at `insert_pos(s, v)` into a sorted `s` yields a sorted sequence.
pub proof fn lemma_insert_keeps_sorted(s: Seq<i64>, v: i64)
    requires
        sorted(s),
    ensures
        sorted(s.insert(insert_pos(s, v), v)),
{
    lemma_insert_pos_bounds(s, v);
    let j = insert_pos(s, v);
    let t = s.insert(j, v);
    assert forall|p: int, q: int| 0 <= p <= q < t.len() implies t[p] <= t[q] by {
        assert(forall|k: int| 0 <= k < j ==> t[k] == s[k]);
        assert(t[j] == v);
        assert(forall|k: int| j < k < t.len() ==> t[k] == s[k - 1]);
    }
}

} // verus!
