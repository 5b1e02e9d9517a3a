//! Bidirectional cursor over a snapshot of the log's entries.
//!
//! A `ListIterator` is seeded by `TransactionLog::iter` (at the first entry)
//! or `TransactionLog::back_iter` (at the last entry) and is independent of
//! the log afterwards. Each advance reads the value at the current position
//! and then moves forward (`next`) or backward (`next_back`); once the
//! cursor has run off either end it is exhausted and every further advance,
//! in either direction, returns `None` and leaves the cursor unchanged.

use vstd::prelude::*;

verus! {

/// The position a cursor seeded at the first entry starts from.
pub open spec fn start_front(entries: Seq<Seq<char>>) -> Option<int> {
    if entries.len() == 0 {
        None
    } else {
        Some(0int)
    }
}

/// The position a cursor seeded at the last entry starts from.
pub open spec fn start_back(entries: Seq<Seq<char>>) -> Option<int> {
    if entries.len() == 0 {
        None
    } else {
        Some(entries.len() - 1)
    }
}

/// The values a cursor at `pos` yields when advanced forward until
/// exhausted: the composition of what `next` ensures at each step.
pub open spec fn forward_yield(entries: Seq<Seq<char>>, pos: Option<int>) -> Seq<Seq<char>>
    decreases (match pos {
        Some(i) => entries.len() - i,
        None => 0int,
    })
        when (pos matches Some(i) ==> 0 <= i < entries.len())
{
    match pos {
        None => Seq::empty(),
        Some(i) => seq![entries[i]] + forward_yield(
            entries,
            if i + 1 < entries.len() {
                Some(i + 1)
            } else {
                None
            },
        ),
    }
}

/// The values a cursor at `pos` yields when advanced backward until
/// exhausted: the composition of what `next_back` ensures at each step.
pub open spec fn backward_yield(entries: Seq<Seq<char>>, pos: Option<int>) -> Seq<Seq<char>>
    decreases (match pos {
        Some(i) => i + 1,
        None => 0int,
    })
        when (pos matches Some(i) ==> 0 <= i < entries.len())
{
    match pos {
        None => Seq::empty(),
        Some(i) => seq![entries[i]] + backward_yield(
            entries,
            if i > 0 {
                Some(i - 1)
            } else {
                None
            },
        ),
    }
}

/// A forward cursor at `i` yields the entries from `i` to the end.
pub proof fn lemma_forward_yield_collects(entries: Seq<Seq<char>>, i: int)
    requires
        0 <= i < entries.len(),
    ensures
        forward_yield(entries, Some(i)) == entries.skip(i),
    decreases entries.len() - i,
{
    if i + 1 < entries.len() {
        lemma_forward_yield_collects(entries, i + 1);
        assert(forward_yield(entries, Some(i)) == seq![entries[i]] + entries.skip(i + 1));
    } else {
        assert(forward_yield(entries, Some(i)) == seq![entries[i]] + forward_yield(
            entries,
            None::<int>,
        ));
    }
    assert(forward_yield(entries, Some(i)) =~= entries.skip(i));
}

/// A backward cursor at `i` yields the entries from `i` down to the start,
/// that is, the reverse of the first `i + 1` entries.
pub proof fn lemma_backward_yield_collects(entries: Seq<Seq<char>>, i: int)
    requires
        0 <= i < entries.len(),
    ensures
        backward_yield(entries, Some(i)) == entries.take(i + 1).reverse(),
    decreases i,
{
    if i > 0 {
        lemma_backward_yield_collects(entries, i - 1);
        assert(backward_yield(entries, Some(i)) == seq![entries[i]] + entries.take(i).reverse());
    } else {
        assert(backward_yield(entries, Some(i)) == seq![entries[i]] + backward_yield(
            entries,
            None::<int>,
        ));
    }
    assert(backward_yield(entries, Some(i)) =~= entries.take(i + 1).reverse());
}

/// Forward/backward duality: a cursor seeded at the first entry, collected
/// forward, yields exactly the reverse of what a cursor seeded at the last
/// entry yields when collected backward.
pub proof fn lemma_forward_backward_duality(entries: Seq<Seq<char>>)
    ensures
        forward_yield(entries, start_front(entries)) == backward_yield(
            entries,
            start_back(entries),
        ).reverse(),
{
    if entries.len() == 0 {
        assert(forward_yield(entries, start_front(entries)) =~= backward_yield(
            entries,
            start_back(entries),
        ).reverse());
    } else {
        lemma_forward_yield_collects(entries, 0);
        lemma_backward_yield_collects(entries, entries.len() - 1);
        assert(entries.skip(0) =~= entries);
        assert(entries.take(entries.len() as int) =~= entries);
        assert(entries.reverse().reverse() =~= entries);
    }
}

/// An independent, restartable bidirectional traversal over log entries.
///
/// `entries()` is the sequence of entry values the cursor was seeded with;
/// `position()` is the index of the entry the next advance will read, or
/// `None` once the cursor is exhausted.
pub struct ListIterator {
    items: Vec<String>,
    current: Option<usize>,
}

impl ListIterator {
    /// The entry values this cursor traverses.
    pub closed spec fn entries(&self) -> Seq<Seq<char>> {
        Seq::new(self.items@.len(), |k: int| self.items@[k]@)
    }

    /// The index of the entry the next advance reads, or `None` if exhausted.
    pub closed spec fn position(&self) -> Option<int> {
        match self.current {
            Some(i) => Some(i as int),
            None => None,
        }
    }

    /// The cursor's position, if present, denotes one of its entries.
    pub closed spec fn wf(&self) -> bool {
        self.current matches Some(i) ==> i < self.items@.len()
    }

    pub(crate) fn new(items: Vec<String>, current: Option<usize>) -> (it: ListIterator)
        requires
            current matches Some(i) ==> i < items@.len(),
        ensures
            it.wf(),
            it.entries() == Seq::new(items@.len(), |k: int| items@[k]@),
            it.position() == (match current {
                Some(i) => Some(i as int),
                None => None::<int>,
            }),
    {
        ListIterator { items, current }
    }

    /// Read the value at the current position and advance toward the tail.
    ///
    /// Advancing an exhausted cursor is idempotent: it returns `None` and
    /// changes nothing, however often it is repeated.
    pub fn next(&mut self) -> (r: Option<String>)
        requires
            old(self).wf(),
        ensures
            final(self).wf(),
            final(self).entries() == old(self).entries(),
            old(self).position() is None ==> r is None && *final(self) == *old(self),
            old(self).position() matches Some(i) ==> {
                &&& r matches Some(v) && v@ == old(self).entries()[i]
                &&& final(self).position() == (if i + 1 < old(self).entries().len() {
                    Some(i + 1)
                } else {
                    None::<int>
                })
            },
            forward_yield(old(self).entries(), old(self).position()) == (match r {
                Some(v) => seq![v@] + forward_yield(final(self).entries(), final(self).position()),
                None => Seq::<Seq<char>>::empty(),
            }),
    {
        match self.current {
            None => None,
            Some(i) => {
                let value = self.items[i].clone();
                let n = self.items.len();
                self.current = if i + 1 < n {
                    Some(i + 1)
                } else {
                    None
                };
                Some(value)
            }
        }
    }

    /// Read the value at the current position and advance toward the head.
    ///
    /// Advancing an exhausted cursor is idempotent: it returns `None` and
    /// changes nothing, however often it is repeated.
    pub fn next_back(&mut self) -> (r: Option<String>)
        requires
            old(self).wf(),
        ensures
            final(self).wf(),
            final(self).entries() == old(self).entries(),
            old(self).position() is None ==> r is None && *final(self) == *old(self),
            old(self).position() matches Some(i) ==> {
                &&& r matches Some(v) && v@ == old(self).entries()[i]
                &&& final(self).position() == (if i > 0 {
                    Some(i - 1)
                } else {
                    None::<int>
                })
            },
            backward_yield(old(self).entries(), old(self).position()) == (match r {
                Some(v) => seq![v@] + backward_yield(final(self).entries(), final(self).position()),
                None => Seq::<Seq<char>>::empty(),
            }),
    {
        match self.current {
            None => None,
            Some(i) => {
                let value = self.items[i].clone();
                self.current = if i > 0 { Some(i - 1) } else { None };
                Some(value)
            }
        }
    }
}

} // verus!
