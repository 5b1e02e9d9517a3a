//! The append/pop ordered log.
//!
//! A `TransactionLog` keeps its entries as a doubly-linked chain of nodes.
//! Nodes live in an arena of slots and name their neighbours by stable
//! handles (slot indices); freed slots are recycled through a free list, so
//! a node's storage is released exactly when `pop` removes it. A ghost
//! sequence records the handles of the chain in order, head to tail, and the
//! well-formedness predicate `wf` ties the handles, the links, the `head`
//! and `tail` slots and the `length` field together: back-links mirror
//! forward links, the head node has no predecessor, the tail node has no
//! successor, and `length` counts the chain.

use vstd::prelude::*;

use crate::cursor::ListIterator;
use crate::cursor::start_back;
use crate::cursor::start_front;

verus! {

/// One cell of the chain: an entry value and optional handles to the
/// neighbouring nodes.
pub struct Node {
    value: String,
    prev: Option<usize>,
    next: Option<usize>,
}

impl Node {
    fn new(value: String) -> (node: Node)
        ensures
            node.value == value,
            node.prev is None,
            node.next is None,
    {
        Node { value, prev: None, next: None }
    }
}

/// An ordered log of text entries: append at the tail, pop at the head,
/// traverse in either direction.
///
/// The view `self@` is the sequence of entry values from head to tail.
pub struct TransactionLog {
    slots: Vec<Option<Node>>,
    free: Vec<usize>,
    head: Option<usize>,
    tail: Option<usize>,
    pub length: usize,
    chain: Ghost<Seq<usize>>,
}

impl View for TransactionLog {
    type V = Seq<Seq<char>>;

    closed spec fn view(&self) -> Seq<Seq<char>> {
        Seq::new(self.chain@.len(), |k: int| self.node_at(k).value@)
    }
}

impl TransactionLog {
    /// The value of the `length` field: the log's count of entries.
    pub closed spec fn spec_length(&self) -> usize {
        self.length
    }

    /// The node holding the `k`-th entry of the chain.
    closed spec fn node_at(&self, k: int) -> Node {
        self.slots@[self.chain@[k] as int]->0
    }

    /// The chain invariants: every handle in the ghost chain denotes an
    /// occupied slot, handles are distinct, `head`/`tail` name the ends,
    /// each node's links name its neighbours (back-link symmetry), `length`
    /// counts the chain, and the free list holds distinct handles of
    /// vacant slots.
    pub closed spec fn wf(&self) -> bool {
        let c = self.chain@;
        &&& self.length == c.len()
        &&& forall|k: int| #![trigger c[k]]
            0 <= k < c.len() ==> c[k] < self.slots@.len() && self.slots@[c[k] as int] is Some
        &&& forall|k1: int, k2: int| 0 <= k1 < k2 < c.len() ==> c[k1] != c[k2]
        &&& self.head == (if c.len() == 0 { None::<usize> } else { Some(c[0]) })
        &&& self.tail == (if c.len() == 0 { None::<usize> } else { Some(c[c.len() - 1]) })
        &&& forall|k: int| #![trigger self.node_at(k)]
            0 <= k < c.len() ==> {
                &&& self.node_at(k).prev == (if k == 0 { None::<usize> } else { Some(c[k - 1]) })
                &&& self.node_at(k).next == (if k + 1 == c.len() { None::<usize> } else { Some(c[k + 1]) })
            }
        &&& forall|j: int| #![trigger self.free@[j]]
            0 <= j < self.free@.len() ==> self.free@[j] < self.slots@.len()
                && self.slots@[self.free@[j] as int] is None
        &&& forall|j1: int, j2: int| 0 <= j1 < j2 < self.free@.len() ==> self.free@[j1] != self.free@[j2]
    }

    /// An empty log: no head, no tail, length zero.
    pub fn new() -> (log: TransactionLog)
        ensures
            log.wf(),
            log@ == Seq::<Seq<char>>::empty(),
            log.spec_length() == 0,
    {
        let log = TransactionLog {
            slots: Vec::new(),
            free: Vec::new(),
            head: None,
            tail: None,
            length: 0,
            chain: Ghost(Seq::empty()),
        };
        proof {
            assert(log@ =~= Seq::<Seq<char>>::empty());
        }
        log
    }

    /// Append a new value at the end of the log.
    ///
    /// The new node is linked after the current tail (the old tail's `next`
    /// and the new node's `prev` are set) and becomes the tail; an empty log
    /// gets the new node as both head and tail. No other node is touched,
    /// and the appended entry is visible at the end of the view.
    pub fn append(&mut self, value: String)
        requires
            old(self).wf(),
            old(self).spec_length() < usize::MAX,
        ensures
            final(self).wf(),
            final(self)@ == old(self)@.push(value@),
            final(self).spec_length() == old(self).spec_length() + 1,
    {
        let mut node = Node::new(value);
        let idx: usize = match self.free.pop() {
            Some(f) => f,
            None => {
                let fresh = self.slots.len();
                self.slots.push(None);
                fresh
            }
        };
        match self.tail {
            Some(t) => {
                let old_tail = self.slots[t].as_ref().unwrap();
                let relinked = Node {
                    value: old_tail.value.clone(),
                    prev: old_tail.prev,
                    next: Some(idx),
                };
                self.slots.set(t, Some(relinked));
                node.prev = Some(t);
            }
            None => {
                self.head = Some(idx);
            }
        }
        self.slots.set(idx, Some(node));
        self.tail = Some(idx);
        self.length = self.length + 1;
        proof {
            let c_old = old(self).chain@;
            self.chain@ = c_old.push(idx);
            let c = self.chain@;
            let s_old = old(self).slots@;
            let s = self.slots@;
            // The slot chosen for the new node held no chain node before.
            assert forall|k: int| 0 <= k < c_old.len() implies c_old[k] != idx by {
                assert(s_old[c_old[k] as int] is Some);
            }
            // Every node but the old tail and the new one is untouched.
            assert forall|k: int| 0 <= k < c_old.len() - 1 implies self.node_at(k) == old(
                self,
            ).node_at(k) by {
                assert(c_old[k] != c_old[c_old.len() - 1]);
            }
            // The old tail keeps its value and back-link; its forward link
            // now names the new node.
            if c_old.len() > 0 {
                let last = c_old.len() - 1;
                assert(old(self).tail == Some(c_old[last]));
                assert(self.node_at(last).value == old(self).node_at(last).value);
                assert(self.node_at(last).prev == old(self).node_at(last).prev);
                assert(self.node_at(last).next == Some(idx));
            }
            // The new node carries the appended value and closes the chain.
            assert(self.node_at(c.len() - 1) == s[idx as int]->0);
            assert(s[idx as int]->0.value@ == value@);
            assert(self@ =~= old(self)@.push(value@));
        }
    }

    /// Remove and return the value at the head of the log, or `None` if the
    /// log is empty (in which case nothing changes).
    ///
    /// The head node's slot is released for reuse; its successor, if any,
    /// becomes the head with its `prev` cleared, otherwise head and tail
    /// both become absent.
    pub fn pop(&mut self) -> (r: Option<String>)
        requires
            old(self).wf(),
        ensures
            final(self).wf(),
            old(self)@.len() == 0 ==> r is None && *final(self) == *old(self),
            old(self)@.len() > 0 ==> {
                &&& r matches Some(v) && v@ == old(self)@[0]
                &&& final(self)@ == old(self)@.drop_first()
                &&& final(self).spec_length() == old(self).spec_length() - 1
            },
    {
        match self.head {
            None => None,
            Some(h) => {
                proof {
                    assert(h == old(self).chain@[0]);
                    assert(old(self).node_at(0) == old(self).slots@[h as int]->0);
                }
                let popped = self.slots[h].as_ref().unwrap();
                let value = popped.value.clone();
                let next = popped.next;
                self.slots.set(h, None);
                self.free.push(h);
                match next {
                    Some(n) => {
                        proof {
                            // The head has a successor, so the chain has a
                            // second node, at a slot other than the head's.
                            assert(old(self).node_at(0).next == next);
                            assert(old(self).chain@.len() >= 2);
                            assert(n == old(self).chain@[1]);
                            assert(n != h);
                        }
                        let successor = self.slots[n].as_ref().unwrap();
                        let relinked = Node {
                            value: successor.value.clone(),
                            prev: None,
                            next: successor.next,
                        };
                        self.slots.set(n, Some(relinked));
                        self.head = Some(n);
                    }
                    None => {
                        self.head = None;
                        self.tail = None;
                    }
                }
                self.length = self.length - 1;
                proof {
                    let c_old = old(self).chain@;
                    self.chain@ = c_old.drop_first();
                    let c = self.chain@;
                    // Handles keep denoting the same nodes, except the new
                    // head, whose back-link was cleared.
                    assert forall|k: int| 0 <= k < c.len() implies c[k] == c_old[k + 1]
                        && c[k] != h by {
                        assert(c_old[k + 1] != c_old[0]);
                    }
                    assert forall|k: int| 1 <= k < c.len() implies self.node_at(k) == old(
                        self,
                    ).node_at(k + 1) by {
                        assert(c_old[k + 1] != c_old[1]);
                    }
                    if c.len() > 0 {
                        assert(self.node_at(0).value == old(self).node_at(1).value);
                        assert(self.node_at(0).prev is None);
                        assert(self.node_at(0).next == old(self).node_at(1).next);
                    }
                    // The freed slot is vacant and was no free-list member.
                    assert(self.slots@[h as int] is None);
                    assert forall|j: int| 0 <= j < old(self).free@.len() implies old(
                        self,
                    ).free@[j] != h by {
                        assert(old(self).slots@[old(self).free@[j] as int] is None);
                    }
                    assert(self@ =~= old(self)@.drop_first());
                }
                Some(value)
            }
        }
    }

    /// A cursor seeded at the head, independent of the log afterwards.
    pub fn iter(&self) -> (it: ListIterator)
        requires
            self.wf(),
        ensures
            it.wf(),
            it.entries() == self@,
            it.position() == start_front(self@),
    {
        let items = self.collect_values();
        let current: Option<usize> = if items.len() == 0 {
            None
        } else {
            Some(0)
        };
        let it = ListIterator::new(items, current);
        proof {
            assert(it.entries() =~= self@);
        }
        it
    }

    /// A cursor seeded at the tail, independent of the log afterwards.
    pub fn back_iter(&self) -> (it: ListIterator)
        requires
            self.wf(),
        ensures
            it.wf(),
            it.entries() == self@,
            it.position() == start_back(self@),
    {
        let items = self.collect_values();
        let current: Option<usize> = if items.len() == 0 {
            None
        } else {
            Some(items.len() - 1)
        };
        let it = ListIterator::new(items, current);
        proof {
            assert(it.entries() =~= self@);
        }
        it
    }

    /// Walk the chain from the head, collecting each entry value in order.
    fn collect_values(&self) -> (items: Vec<String>)
        requires
            self.wf(),
        ensures
            items@.len() == self@.len(),
            forall|k: int| 0 <= k < items@.len() ==> #[trigger] items@[k]@ == self@[k],
    {
        let ghost c = self.chain@;
        let mut items: Vec<String> = Vec::new();
        let mut cur: Option<usize> = self.head;
        let mut count: usize = 0;
        while cur.is_some()
            invariant
                self.wf(),
                c == self.chain@,
                count == items@.len(),
                count <= c.len(),
                forall|k: int| 0 <= k < count ==> #[trigger] items@[k]@ == self@[k],
                cur == (if count < c.len() { Some(c[count as int]) } else { None::<usize> }),
            decreases c.len() - count,
        {
            let i = cur.unwrap();
            let node = self.slots[i].as_ref().unwrap();
            proof {
                assert(self.node_at(count as int) == self.slots@[i as int]->0);
                assert(self@[count as int] == self.node_at(count as int).value@);
            }
            items.push(node.value.clone());
            cur = node.next;
            count = count + 1;
        }
        items
    }
}

/// The entries of a log after appending each of `values` in turn: the
/// composition of the effect `append` ensures, `self@ == old(self)@.push(value@)`.
pub open spec fn append_all(entries: Seq<Seq<char>>, values: Seq<Seq<char>>) -> Seq<Seq<char>>
    decreases values.len(),
{
    if values.len() == 0 {
        entries
    } else {
        append_all(entries.push(values.first()), values.drop_first())
    }
}

/// The values returned by popping a log until it is empty: the composition
/// of what `pop` ensures, returning `old(self)@[0]` and leaving
/// `old(self)@.drop_first()`.
pub open spec fn pop_all(entries: Seq<Seq<char>>) -> Seq<Seq<char>>
    decreases entries.len(),
{
    if entries.len() == 0 {
        Seq::empty()
    } else {
        seq![entries.first()] + pop_all(entries.drop_first())
    }
}

/// Appending `values` one by one adds exactly `values` at the end.
pub proof fn lemma_append_all_appends(entries: Seq<Seq<char>>, values: Seq<Seq<char>>)
    ensures
        append_all(entries, values) == entries + values,
    decreases values.len(),
{
    if values.len() == 0 {
        assert(append_all(entries, values) =~= entries + values);
    } else {
        lemma_append_all_appends(entries.push(values.first()), values.drop_first());
        assert(entries.push(values.first()) + values.drop_first() =~= entries + values);
    }
}

/// Popping a log until empty returns its entries in order.
pub proof fn lemma_pop_all_drains_in_order(entries: Seq<Seq<char>>)
    ensures
        pop_all(entries) == entries,
    decreases entries.len(),
{
    if entries.len() == 0 {
        assert(pop_all(entries) =~= entries);
    } else {
        lemma_pop_all_drains_in_order(entries.drop_first());
        assert(seq![entries.first()] + entries.drop_first() =~= entries);
    }
}

/// FIFO: appending any `values` to an empty log and then popping until the
/// log is empty returns the values in append order.
pub proof fn lemma_fifo(values: Seq<Seq<char>>)
    ensures
        pop_all(append_all(Seq::empty(), values)) == values,
{
    lemma_append_all_appends(Seq::empty(), values);
    assert(Seq::<Seq<char>>::empty() + values =~= values);
    lemma_pop_all_drains_in_order(values);
}

/// A well-formed log's `length` field counts exactly the entries it holds:
/// the number appended and not yet popped.
pub proof fn lemma_length_counts_entries(log: &TransactionLog)
    requires
        log.wf(),
    ensures
        log.spec_length() == log@.len(),
{
}

} // verus!
