//! The bounded relay queue between the capture stage and the resolution
//! stage: a fixed-capacity FIFO of captured hashes.
//!
//! The capacity is fixed at construction and `try_push` refuses — it never
//! drops — an element when the queue is full, so the queue never holds more
//! than its configured capacity of `TimedHash` values. A refused push is how
//! backpressure reaches the producer: the capture stage must wait and offer
//! the same element again once the consumer has popped.

use vstd::prelude::*;

use crate::timed_tx::TimedHash;

verus! {

/// A bounded FIFO of captured hashes. Elements come out in the order they
/// were pushed, so each hash keeps its place relative to its capture order.
pub struct RelayQueue {
    items: Vec<TimedHash>,
    capacity: usize,
}

impl View for RelayQueue {
    type V = Seq<TimedHash>;

    closed spec fn view(&self) -> Seq<TimedHash> {
        self.items@
    }
}

impl RelayQueue {
    /// The capacity the queue was configured with.
    pub closed spec fn cap(&self) -> nat {
        self.capacity as nat
    }

    /// The queue invariant: a positive capacity that the contents never
    /// exceed.
    pub open spec fn wf(&self) -> bool {
        self.cap() > 0 && self@.len() <= self.cap()
    }

    /// Creates an empty queue with the given capacity.
    pub fn new(capacity: usize) -> (q: Self)
        requires
            capacity > 0,
        ensures
            q.wf(),
            q.cap() == capacity,
            q@ == Seq::<TimedHash>::empty(),
    {
        RelayQueue { items: Vec::new(), capacity }
    }

    /// The configured capacity.
    pub fn capacity(&self) -> (c: usize)
        ensures
            c == self.cap(),
    {
        self.capacity
    }

    /// How many elements the queue currently holds.
    pub fn len(&self) -> (n: usize)
        ensures
            n == self@.len(),
    {
        self.items.len()
    }

    /// Whether the queue holds no elements.
    pub fn is_empty(&self) -> (b: bool)
        ensures
            b == (self@.len() == 0),
    {
        self.items.len() == 0
    }

    /// Whether the queue is at capacity, so that a push would be refused.
    pub fn is_full(&self) -> (b: bool)
        ensures
            b == (self@.len() == self.cap()),
    {
        self.items.len() == self.capacity
    }

    /// Appends an element unless the queue is full. A full queue leaves the
    /// contents untouched and reports `false`: the element is refused, not
    /// dropped, and the producer is expected to block and retry.
    pub fn try_push(&mut self, timed_hash: TimedHash) -> (ok: bool)
        requires
            old(self).wf(),
        ensures
            final(self).wf(),
            final(self).cap() == old(self).cap(),
            ok == (old(self)@.len() < old(self).cap()),
            ok ==> final(self)@ == old(self)@.push(timed_hash),
            !ok ==> final(self)@ == old(self)@,
    {
        if self.items.len() < self.capacity {
            self.items.push(timed_hash);
            true
        } else {
            false
        }
    }

    /// Removes and returns the oldest element, or `None` on an empty queue.
    pub fn pop_front(&mut self) -> (r: Option<TimedHash>)
        requires
            old(self).wf(),
        ensures
            final(self).wf(),
            final(self).cap() == old(self).cap(),
            old(self)@.len() == 0 ==> r is None && final(self)@ == old(self)@,
            old(self)@.len() > 0 ==> r == Some(old(self)@[0]) && final(self)@ == old(self)@.drop_first(),
    {
        if self.items.len() == 0 {
            None
        } else {
            let timed_hash = self.items.remove(0);
            proof {
                assert(final(self)@ =~= old(self)@.drop_first());
            }
            Some(timed_hash)
        }
    }
}

} // verus!
