//! The slot arena and the list operations built on it.
//!
//! A `List` owns a fixed backing array of `Slot`s. Each slot carries an
//! optional value and a `next` index, and belongs at any moment to exactly
//! one of two chains: the free chain (headed by `free_head`) or the occupied
//! chain (headed by `head`). Allocation pops the free chain's head; release
//! pushes onto it. The occupied chain holds the live values in list order.
//!
//! The two ghost fields `occupied` and `free` record the two chains as
//! sequences of slot indices, head to tail; `wf` ties them to the concrete
//! `next` links and states the partition invariant: every slot index is on
//! exactly one chain.

use crate::order::insert_pos;
use crate::order::lemma_insert_keeps_sorted;
use crate::order::lemma_insert_pos_unique;
use crate::order::sorted;
use vstd::prelude::*;

verus! {

/// One arena slot: optional stored value plus the index of the next slot in
/// whichever chain currently contains this slot (`None` ends the chain).
#[derive(Clone, Copy, Debug)]
pub struct Slot {
    pub value: Option<i64>,
    pub next: Option<u8>,
}

/// The two failure conditions of the list operations.
#[derive(Clone, Copy, Debug, PartialEq, Eq, Structural)]
pub enum ListError {
    /// An allocating operation found the free chain empty.
    Exhaustion,
    /// A removal was attempted while the occupied chain was empty.
    EmptyList,
}

/// Fixed-capacity list over an arena of slots, with a structural view of
/// both chains: all fields are public for diagnostic inspection, but only
/// states reachable through the methods satisfy `wf`.
pub struct List {
    /// The backing array; its length is the permanent capacity.
    pub slots: Vec<Slot>,
    /// Head of the occupied chain, `None` when the list is empty.
    pub head: Option<u8>,
    /// Head of the free chain, `None` when every slot is occupied.
    pub free_head: Option<u8>,
    /// Ghost: the occupied chain as a sequence of indices, head to tail.
    pub occupied: Ghost<Seq<u8>>,
    /// Ghost: the free chain as a sequence of indices, head to tail.
    pub free: Ghost<Seq<u8>>,
}

/// `ch` lists exactly the indices found by following `next` links from
/// `head`, in order, ending at `None`.
pub open spec fn chain_linked(slots: Seq<Slot>, head: Option<u8>, ch: Seq<u8>) -> bool {
    &&& (ch.len() == 0 <==> head is None)
    &&& (ch.len() > 0 ==> head == Some(ch[0]))
    &&& (forall|j: int| 0 <= j < ch.len() ==> (ch[j] as int) < slots.len())
    &&& (forall|j: int| 0 <= j < ch.len() - 1 ==> slots[ch[j] as int].next == Some(ch[j + 1]))
    &&& (ch.len() > 0 ==> slots[ch.last() as int].next is None)
}

impl View for List {
    type V = Seq<i64>;

    /// The abstract value of the list: the live values in chain order.
    open spec fn view(&self) -> Seq<i64> {
        Seq::new(self.occupied@.len(), |j: int| self.slots@[self.occupied@[j] as int].value.unwrap())
    }
}

impl List {
    /// The permanent capacity: the length of the backing array.
    pub open spec fn cap(self) -> nat {
        self.slots@.len()
    }

    /// Both chains are linked as their ghost sequences say, never overlap,
    /// and every occupied slot holds a value.
    pub open spec fn chains_ok(self) -> bool {
        &&& self.slots@.len() <= 255
        &&& chain_linked(self.slots@, self.head, self.occupied@)
        &&& chain_linked(self.slots@, self.free_head, self.free@)
        &&& self.occupied@.no_duplicates()
        &&& self.free@.no_duplicates()
        &&& (forall|j: int| 0 <= j < self.occupied@.len() ==> !self.free@.contains(self.occupied@[j]))
        &&& (forall|j: int| 0 <= j < self.occupied@.len()
            ==> self.slots@[self.occupied@[j] as int].value is Some)
    }

    /// Well-formedness: the chains are intact and partition the full index
    /// range, so every slot is on exactly one chain.
    pub open spec fn wf(self) -> bool {
        &&& self.chains_ok()
        &&& self.occupied@.len() + self.free@.len() == self.slots@.len()
        &&& (forall|k: u8| (k as int) < self.slots@.len()
            ==> self.occupied@.contains(k) || self.free@.contains(k))
    }

    /// Well-formedness with one slot detached: `i` is on neither chain (it
    /// has just been allocated and not yet spliced in, or just unlinked and
    /// not yet released), and every other slot is on exactly one chain.
    pub open spec fn wf_detached(self, i: u8) -> bool {
        &&& self.chains_ok()
        &&& (i as int) < self.slots@.len()
        &&& !self.occupied@.contains(i)
        &&& !self.free@.contains(i)
        &&& self.occupied@.len() + self.free@.len() + 1 == self.slots@.len()
        &&& (forall|k: u8| (k as int) < self.slots@.len() && k != i
            ==> self.occupied@.contains(k) || self.free@.contains(k))
    }

    /// The structural effect of a successful `push_front` of `v`: the old
    /// free head is written with `v`, linked in front of the old occupied
    /// head, and becomes the new occupied head.
    pub open spec fn push_spec(pre: List, post: List, v: i64) -> bool {
        &&& pre.free@.len() > 0
        &&& post.occupied@ == seq![pre.free@[0]] + pre.occupied@
        &&& post.free@ == pre.free@.drop_first()
        &&& post.slots@ == pre.slots@.update(pre.free@[0] as int, (Slot {
            value: Some(v),
            next: pre.head,
        }))
        &&& post.head == Some(pre.free@[0])
        &&& post.free_head == pre.slots@[pre.free@[0] as int].next
    }

    /// The structural effect of a successful `pop_front`: the old occupied
    /// head is unlinked, its `next` is redirected to the old free head, and
    /// it becomes the new free head. Its stored value is not cleared.
    pub open spec fn pop_spec(pre: List, post: List) -> bool {
        &&& pre.occupied@.len() > 0
        &&& post.occupied@ == pre.occupied@.drop_first()
        &&& post.free@ == seq![pre.occupied@[0]] + pre.free@
        &&& post.slots@ == pre.slots@.update(pre.occupied@[0] as int, (Slot {
            value: pre.slots@[pre.occupied@[0] as int].value,
            next: pre.free_head,
        }))
        &&& post.head == pre.slots@[pre.occupied@[0] as int].next
        &&& post.free_head == Some(pre.occupied@[0])
    }

    /// Builds a list over the given backing array: all slots are linked
    /// consecutively into the free chain and the occupied chain is empty.
    pub fn new(slots: Vec<Slot>) -> (r: List)
        requires
            slots@.len() <= 255,
        ensures
            r.wf(),
            r@ == Seq::<i64>::empty(),
            r.cap() == slots@.len(),
            r.head is None,
            r.occupied@ == Seq::<u8>::empty(),
            r.free@ == Seq::new(slots@.len(), |k: int| k as u8),
    {
        let n = slots.len();
        let mut slots = slots;
        let mut i: usize = 0;
        while i < n
            invariant
                i <= n,
                n == slots@.len() <= 255,
                forall|j: int| 0 <= j < i ==> slots@[j].next == (if j + 1 < n {
                    Some((j + 1) as u8)
                } else {
                    None::<u8>
                }),
            decreases n - i,
        {
            let mut s = slots[i];
            s.next = if i + 1 < n { Some((i + 1) as u8) } else { None };
            slots.set(i, s);
            i = i + 1;
        }
        let r = List {
            slots,
            head: None,
            free_head: if n == 0 { None } else { Some(0) },
            occupied: Ghost(Seq::empty()),
            free: Ghost(Seq::new(n as nat, |k: int| k as u8)),
        };
        proof {
            assert forall|k: u8| (k as int) < r.slots@.len() implies r.free@.contains(k) by {
                assert(r.free@[k as int] == k);
            }
            assert(r@ =~= Seq::<i64>::empty());
        }
        r
    }

    /// Pops the head of the free chain and returns its index; the slot is
    /// then on neither chain until released or spliced into the occupied
    /// chain. Fails with `Exhaustion` exactly when the list is full, and
    /// then changes nothing.
    pub fn allocate(&mut self) -> (r: Result<u8, ListError>)
        requires
            old(self).wf(),
        ensures
            final(self).cap() == old(self).cap(),
            match r {
                Ok(i) => {
                    &&& old(self).free@.len() > 0
                    &&& i == old(self).free@[0]
                    &&& final(self).wf_detached(i)
                    &&& final(self).occupied@ == old(self).occupied@
                    &&& final(self).free@ == old(self).free@.drop_first()
                    &&& final(self).slots@ == old(self).slots@
                    &&& final(self).head == old(self).head
                    &&& final(self)@ == old(self)@
                },
                Err(e) => {
                    &&& e == ListError::Exhaustion
                    &&& old(self)@.len() == old(self).cap()
                    &&& *final(self) == *old(self)
                },
            },
    {
        match self.free_head {
            None => Err(ListError::Exhaustion),
            Some(i) => {
                self.free_head = self.slots[i as usize].next;
                proof {
                    self.free@ = self.free@.drop_first();
                    let pre = *old(self);
                    assert(pre.free@[0] == i);
                    assert(pre.free@.contains(i));
                    assert forall|j: int| 0 <= j < pre.occupied@.len() implies pre.occupied@[j] != i by {
                        assert(!pre.free@.contains(pre.occupied@[j]));
                    }
                    assert forall|j: int| 0 <= j < self.free@.len() implies pre.free@[j + 1]
                        == self.free@[j] by {}
                    assert forall|k: u8| (k as int) < self.slots@.len() && k != i implies self
                        .occupied@.contains(k) || self.free@.contains(k) by {
                        if pre.free@.contains(k) {
                            let j = choose|j: int|
                                0 <= j < pre.free@.len() && pre.free@[j] == k;
                            assert(self.free@[j - 1] == k);
                        }
                    }
                    assert(self@ =~= pre@);
                }
                Ok(i)
            }
        }
    }

    /// Pushes the detached slot `i` onto the head of the free chain,
    /// setting its `next` to the prior free head. The occupied chain and
    /// the stored values are untouched. The caller must ensure `i` is on
    /// neither chain: releasing a slot that is still linked would corrupt
    /// the partition.
    #[verifier::rlimit(80)]
    pub fn free(&mut self, i: u8)
        requires
            old(self).wf_detached(i),
        ensures
            final(self).wf(),
            final(self).cap() == old(self).cap(),
            final(self)@ == old(self)@,
            final(self).occupied@ == old(self).occupied@,
            final(self).head == old(self).head,
            final(self).free@ == seq![i] + old(self).free@,
            final(self).free_head == Some(i),
            final(self).slots@ == old(self).slots@.update(i as int, (Slot {
                value: old(self).slots@[i as int].value,
                next: old(self).free_head,
            })),
    {
        let idx = i as usize;
        let mut s = self.slots[idx];
        s.next = self.free_head;
        self.slots.set(idx, s);
        self.free_head = Some(i);
        proof {
            self.free@ = seq![i] + self.free@;
            let pre = *old(self);
            assert forall|j: int| 0 <= j < pre.occupied@.len() implies pre.occupied@[j] != i by {}
            assert forall|j: int| 0 <= j < pre.free@.len() implies pre.free@[j] != i by {}
            assert(self.free@[0] == i);
            assert forall|j: int| 1 <= j < self.free@.len() implies self.free@[j]
                == pre.free@[j - 1] by {}
            assert(self.free@.no_duplicates());
            assert forall|k: u8| (k as int) < self.slots@.len() implies self.occupied@.contains(k)
                || self.free@.contains(k) by {
                if k == i {
                    assert(self.free@[0] == k);
                } else if pre.free@.contains(k) {
                    let j = choose|j: int| 0 <= j < pre.free@.len() && pre.free@[j] == k;
                    assert(self.free@[j + 1] == k);
                }
            }
            assert(chain_linked(self.slots@, self.free_head, self.free@));
            assert(chain_linked(self.slots@, self.head, self.occupied@));
            assert(self.chains_ok());
            assert(self.wf());
            assert(self@ =~= pre@);
        }
    }

    /// Inserts `v` at the front of the list: allocates a slot, writes `v`
    /// into it, and links it in front of the current occupied head. Fails
    /// with `Exhaustion` exactly when the list is full, and then changes
    /// nothing.
    pub fn push_front(&mut self, v: i64) -> (r: Result<(), ListError>)
        requires
            old(self).wf(),
        ensures
            final(self).wf(),
            final(self).cap() == old(self).cap(),
            match r {
                Ok(()) => {
                    &&& List::push_spec(*old(self), *final(self), v)
                    &&& final(self)@ == seq![v] + old(self)@
                },
                Err(e) => {
                    &&& e == ListError::Exhaustion
                    &&& old(self)@.len() == old(self).cap()
                    &&& *final(self) == *old(self)
                },
            },
    {
        let ghost pre = *old(self);
        let i = match self.allocate() {
            Ok(i) => i,
            Err(e) => {
                return Err(e);
            },
        };
        let idx = i as usize;
        let mut s = self.slots[idx];
        s.value = Some(v);
        s.next = self.head;
        self.slots.set(idx, s);
        self.head = Some(i);
        proof {
            self.occupied@ = seq![i] + self.occupied@;
            assert forall|j: int| 0 <= j < pre.occupied@.len() implies pre.occupied@[j] != i by {}
            assert forall|j: int| 0 <= j < self.free@.len() implies self.free@[j] != i by {}
            assert(self.occupied@[0] == i);
            assert forall|j: int| 1 <= j < self.occupied@.len() implies self.occupied@[j]
                == pre.occupied@[j - 1] by {}
            assert(self.occupied@.no_duplicates());
            assert forall|k: u8| (k as int) < self.slots@.len() implies self.occupied@.contains(k)
                || self.free@.contains(k) by {
                if k == i {
                    assert(self.occupied@[0] == k);
                } else if pre.occupied@.contains(k) {
                    let j = choose|j: int| 0 <= j < pre.occupied@.len() && pre.occupied@[j] == k;
                    assert(self.occupied@[j + 1] == k);
                }
            }
            assert(self@ =~= seq![v] + pre@);
        }
        Ok(())
    }

    /// Removes and returns the value at the front of the list: unlinks the
    /// occupied head and releases its slot back to the free chain. Fails
    /// with `EmptyList` exactly when the list is empty, and then changes
    /// nothing.
    pub fn pop_front(&mut self) -> (r: Result<i64, ListError>)
        requires
            old(self).wf(),
        ensures
            final(self).wf(),
            final(self).cap() == old(self).cap(),
            match r {
                Ok(v) => {
                    &&& old(self)@.len() > 0
                    &&& v == old(self)@[0]
                    &&& List::pop_spec(*old(self), *final(self))
                    &&& final(self)@ == old(self)@.drop_first()
                },
                Err(e) => {
                    &&& e == ListError::EmptyList
                    &&& old(self)@.len() == 0
                    &&& *final(self) == *old(self)
                },
            },
    {
        let ghost pre = *old(self);
        match self.head {
            None => Err(ListError::EmptyList),
            Some(h) => {
                let idx = h as usize;
                proof {
                    assert(pre.occupied@[0] == h);
                    assert(pre.slots@[h as int].value is Some);
                }
                let v = match self.slots[idx].value {
                    Some(c) => c,
                    None => vstd::pervasive::unreached(),
                };
                self.head = self.slots[idx].next;
                proof {
                    self.occupied@ = self.occupied@.drop_first();
                    assert(pre.occupied@.contains(h));
                    assert(!pre.free@.contains(h));
                    assert forall|j: int| 0 <= j < self.occupied@.len() implies pre.occupied@[j + 1]
                        == self.occupied@[j] by {}
                    assert(!self.occupied@.contains(h));
                    assert forall|k: u8| (k as int) < self.slots@.len() && k != h implies self
                        .occupied@.contains(k) || self.free@.contains(k) by {
                        if pre.occupied@.contains(k) {
                            let j = choose|j: int|
                                0 <= j < pre.occupied@.len() && pre.occupied@[j] == k;
                            assert(self.occupied@[j - 1] == k);
                        }
                    }
                    assert(self.wf_detached(h));
                    assert(self@ =~= pre@.drop_first());
                }
                self.free(h);
                proof {
                    assert(self@ =~= pre@.drop_first());
                }
                Ok(v)
            }
        }
    }

    /// Inserts `v` in sorted position: allocates a slot, writes `v` into
    /// it, walks the occupied chain to the first value not less than `v`,
    /// and splices the new slot in just before it (so a new value lands
    /// before existing equal ones). A chain that was non-decreasing stays
    /// non-decreasing. Fails with `Exhaustion` exactly when the list is
    /// full, and then changes nothing.
    #[verifier::rlimit(100)]
    pub fn insert_sorted(&mut self, v: i64) -> (r: Result<(), ListError>)
        requires
            old(self).wf(),
        ensures
            final(self).wf(),
            final(self).cap() == old(self).cap(),
            match r {
                Ok(()) => {
                    &&& old(self).free@.len() > 0
                    &&& final(self).occupied@ == old(self).occupied@.insert(
                        insert_pos(old(self)@, v),
                        old(self).free@[0],
                    )
                    &&& final(self).free@ == old(self).free@.drop_first()
                    &&& final(self)@ == old(self)@.insert(insert_pos(old(self)@, v), v)
                    &&& (sorted(old(self)@) ==> sorted(final(self)@))
                },
                Err(e) => {
                    &&& e == ListError::Exhaustion
                    &&& old(self)@.len() == old(self).cap()
                    &&& *final(self) == *old(self)
                },
            },
    {
        let ghost pre = *old(self);
        let i = match self.allocate() {
            Ok(i) => i,
            Err(e) => {
                return Err(e);
            },
        };
        let idx = i as usize;
        let ghost occ = pre.occupied@;
        let mut prev: Option<u8> = None;
        let mut cur: Option<u8> = self.head;
        let ghost mut j: int = 0;
        loop
            invariant
                self.wf_detached(i),
                self.occupied@ == occ,
                self.slots@ == pre.slots@,
                self.head == pre.head,
                self.free@ == pre.free@.drop_first(),
                self@ == pre@,
                0 <= j <= occ.len(),
                cur == (if j < occ.len() {
                    Some(occ[j])
                } else {
                    None::<u8>
                }),
                prev == (if j == 0 {
                    None::<u8>
                } else {
                    Some(occ[j - 1])
                }),
                forall|k: int| 0 <= k < j ==> pre@[k] < v,
            ensures
                self.wf_detached(i),
                self.occupied@ == occ,
                self.slots@ == pre.slots@,
                self.head == pre.head,
                self.free@ == pre.free@.drop_first(),
                self@ == pre@,
                0 <= j <= occ.len(),
                cur == (if j < occ.len() {
                    Some(occ[j])
                } else {
                    None::<u8>
                }),
                prev == (if j == 0 {
                    None::<u8>
                } else {
                    Some(occ[j - 1])
                }),
                forall|k: int| 0 <= k < j ==> pre@[k] < v,
                j < occ.len() ==> pre@[j] >= v,
            decreases occ.len() - j,
        {
            match cur {
                None => {
                    break;
                },
                Some(e) => {
                    proof {
                        assert(self.slots@[occ[j] as int].value is Some);
                    }
                    let ev = match self.slots[e as usize].value {
                        Some(c) => c,
                        None => vstd::pervasive::unreached(),
                    };
                    if ev >= v {
                        proof {
                            assert(pre@[j] == ev);
                        }
                        break;
                    }
                    prev = cur;
                    cur = self.slots[e as usize].next;
                    proof {
                        assert(pre@[j] == ev);
                        j = j + 1;
                    }
                },
            }
        }
        proof {
            lemma_insert_pos_unique(pre@, v, j);
        }
        let ghost mid = *self;
        let mut ns = self.slots[idx];
        ns.value = Some(v);
        ns.next = cur;
        self.slots.set(idx, ns);
        match prev {
            None => {
                self.head = Some(i);
            },
            Some(p) => {
                let mut ps = self.slots[p as usize];
                ps.next = Some(i);
                self.slots.set(p as usize, ps);
            },
        }
        proof {
            self.occupied@ = occ.insert(j, i);
            assert forall|k: int| 0 <= k < occ.len() implies occ[k] != i by {}
            assert(self.slots@[i as int].value == Some(v));
            assert(self.slots@[i as int].next == cur);
            assert forall|k: int|
                0 <= k < mid.slots@.len() && k != i as int && !(j > 0 && k == occ[j - 1] as int)
                    implies self.slots@[k] == mid.slots@[k] by {}
            lemma_splice(mid, *self, i, j, v);
            if sorted(pre@) {
                lemma_insert_keeps_sorted(pre@, v);
            }
        }
        Ok(())
    }

    /// Collects the current values, head to tail, without touching any
    /// state: the returned vector reads exactly as the list.
    pub fn to_vec(&self) -> (r: Vec<i64>)
        requires
            self.wf(),
        ensures
            r@ == self@,
    {
        let mut out: Vec<i64> = Vec::new();
        let mut cur: Option<u8> = self.head;
        let ghost mut j: int = 0;
        while cur.is_some()
            invariant
                self.wf(),
                0 <= j <= self.occupied@.len(),
                cur == (if j < self.occupied@.len() {
                    Some(self.occupied@[j])
                } else {
                    None::<u8>
                }),
                out@ == self@.subrange(0, j),
            decreases self.occupied@.len() - j,
        {
            let e = match cur {
                Some(e) => e,
                None => vstd::pervasive::unreached(),
            };
            proof {
                assert(self.slots@[self.occupied@[j] as int].value is Some);
            }
            let val = match self.slots[e as usize].value {
                Some(c) => c,
                None => vstd::pervasive::unreached(),
            };
            out.push(val);
            cur = self.slots[e as usize].next;
            proof {
                j = j + 1;
                assert(out@ =~= self@.subrange(0, j));
            }
        }
        proof {
            assert(out@ =~= self@);
        }
        out
    }
}

/// The new slot `i`, already holding `v` and pointing at position `j` of
/// the old occupied chain, has been linked in after position `j - 1` (or
/// made the head when `j` is 0): the chains are well formed again and the
/// list reads as the old values with `v` inserted at `j`.
#[verifier::rlimit(100)]
proof fn lemma_splice(mid: List, post: List, i: u8, j: int, v: i64)
    requires
        mid.wf_detached(i),
        0 <= j <= mid.occupied@.len(),
        post.occupied@ == mid.occupied@.insert(j, i),
        post.free@ == mid.free@,
        post.free_head == mid.free_head,
        post.head == (if j == 0 {
            Some(i)
        } else {
            mid.head
        }),
        post.slots@.len() == mid.slots@.len(),
        post.slots@[i as int].value == Some(v),
        post.slots@[i as int].next == (if j < mid.occupied@.len() {
            Some(mid.occupied@[j])
        } else {
            None::<u8>
        }),
        j > 0 ==> post.slots@[mid.occupied@[j - 1] as int].next == Some(i),
        j > 0 ==> post.slots@[mid.occupied@[j - 1] as int].value == mid.slots@[mid.occupied@[j
            - 1] as int].value,
        forall|k: int|
            0 <= k < mid.slots@.len() && k != i as int && !(j > 0 && k == mid.occupied@[j
                - 1] as int) ==> post.slots@[k] == mid.slots@[k],
    ensures
        post.wf(),
        post@ == mid@.insert(j, v),
{
    let occ = mid.occupied@;
    assert forall|k: int| 0 <= k < occ.len() implies occ[k] != i by {}
    assert forall|k: int| 0 <= k < mid.free@.len() implies mid.free@[k] != i by {}
    assert(post.occupied@.len() == occ.len() + 1);
    assert(post.occupied@[j] == i);
    assert forall|k: int| 0 <= k < j implies post.occupied@[k] == occ[k] by {}
    assert forall|k: int| j < k < post.occupied@.len() implies post.occupied@[k] == occ[k - 1] by {}
    assert(post.occupied@.no_duplicates());
    assert forall|k: int| 0 <= k < post.occupied@.len() - 1 implies post.slots@[post.occupied@[
        k] as int].next == Some(post.occupied@[k + 1]) by {
        if k < j - 1 {
            assert(occ[k] != occ[j - 1]);
        } else if k > j {
            assert(j > 0 ==> occ[k - 1] != occ[j - 1]);
        }
    }
    assert(chain_linked(post.slots@, post.head, post.occupied@));
    assert(chain_linked(post.slots@, post.free_head, post.free@));
    assert forall|k: u8| (k as int) < post.slots@.len() implies post.occupied@.contains(k)
        || post.free@.contains(k) by {
        if k == i {
            assert(post.occupied@[j] == k);
        } else if occ.contains(k) {
            let m = choose|m: int| 0 <= m < occ.len() && occ[m] == k;
            if m < j {
                assert(post.occupied@[m] == k);
            } else {
                assert(post.occupied@[m + 1] == k);
            }
        }
    }
    assert(post.chains_ok());
    assert(post.wf());
    assert(post@ =~= mid@.insert(j, v));
}

} // verus!
