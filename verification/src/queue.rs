//! A model of the host's per-type event queue: an append-only window of
//! retained events whose first element carries a monotonically increasing
//! sequence number. Old events leave the window from the front; the window
//! start only ever moves forward.

use vstd::prelude::*;

verus! {

/// The retained window of one event type's queue. `start_seq` is the
/// sequence number of the oldest retained event; the event at window index
/// `i` has sequence number `start_seq + i`.
pub struct EventQueue<E> {
    start: u64,
    items: Vec<E>,
}

impl<E> EventQueue<E> {
    /// Sequence number of the oldest retained event.
    pub closed spec fn start_seq(&self) -> u64 {
        self.start
    }

    /// The retained events, oldest first.
    pub closed spec fn events(&self) -> Seq<E> {
        self.items@
    }

    /// Sequence number one past the newest retained event; also the
    /// number of events ever published to this queue.
    pub open spec fn end_seq(&self) -> int {
        self.start_seq() + self.events().len()
    }

    /// Sequence numbers never outgrow `u64`.
    pub open spec fn well_formed(&self) -> bool {
        self.end_seq() <= u64::MAX
    }

    /// An empty queue whose first event will carry sequence number 0.
    pub fn new() -> (r: Self)
        ensures
            r.start_seq() == 0,
            r.events() == Seq::<E>::empty(),
            r.well_formed(),
    {
        EventQueue { start: 0, items: Vec::new() }
    }

    /// Publish one event: it is appended at the end of the window and
    /// receives the next sequence number.
    pub fn publish(&mut self, e: E)
        requires
            old(self).well_formed(),
            old(self).end_seq() < u64::MAX,
        ensures
            final(self).start_seq() == old(self).start_seq(),
            final(self).events() == old(self).events().push(e),
            final(self).well_formed(),
    {
        self.items.push(e);
    }

    /// How many events the window retains.
    pub fn len(&self) -> (r: usize)
        ensures
            r == self.events().len(),
    {
        self.items.len()
    }

    /// The sequence number of the oldest retained event.
    pub fn start(&self) -> (r: u64)
        ensures
            r == self.start_seq(),
    {
        self.start
    }

    /// The event at window index `i` (sequence number `start_seq + i`).
    pub fn get(&self, i: usize) -> (r: &E)
        requires
            i < self.events().len(),
        ensures
            *r == self.events()[i as int],
    {
        &self.items[i]
    }

    /// Drop the `k` oldest retained events from the front of the window;
    /// the window start moves forward by `k`. This models the host
    /// retiring events that every reader has had its chance to see.
    pub fn advance(&mut self, k: usize)
        requires
            old(self).well_formed(),
            k <= old(self).events().len(),
        ensures
            final(self).start_seq() == old(self).start_seq() + k,
            final(self).events() == old(self).events().skip(k as int),
            final(self).well_formed(),
    {
        let mut j: usize = 0;
        while j < k
            invariant
                j <= k,
                k <= old(self).events().len(),
                self.items@ == old(self).items@.skip(j as int),
                self.start == old(self).start,
                old(self).well_formed(),
            decreases k - j,
        {
            self.items.remove(0);
            j = j + 1;
            proof {
                assert(self.items@ =~= old(self).items@.skip(j as int));
            }
        }
        self.start = self.start + k as u64;
    }
}

} // verus!
