//! The processor registry: a table keyed by event-type identity, holding
//! one cursor-bearing processor per registered type, and the per-frame
//! driver that runs every installed processor once.

use vstd::prelude::*;
use crate::processor::{Processor, unread_start, caught_up};

verus! {

/// The process-wide registry of processors. Each entry pairs the key of
/// an event type with the processor installed for it; at most one
/// processor exists per type.
pub struct EventProcessors {
    entries: Vec<(u64, Processor)>,
}

impl EventProcessors {
    /// (type key, cursor) of each installed processor, in table order.
    pub closed spec fn entry_seq(&self) -> Seq<(u64, u64)> {
        Seq::new(self.entries@.len() as nat, |i: int| (self.entries@[i].0, self.entries@[i].1@))
    }

    /// The registered type keys, in table order.
    pub open spec fn keys(&self) -> Seq<u64> {
        Seq::new(self.entry_seq().len(), |i: int| self.entry_seq()[i].0)
    }

    /// Whether a processor is installed for the type keyed `tid`.
    pub open spec fn registered(&self, tid: u64) -> bool {
        self.keys().contains(tid)
    }

    /// The cursor of the processor installed for `tid`; meaningful only
    /// when `registered(tid)` holds.
    pub open spec fn cursor_of(&self, tid: u64) -> u64 {
        self.entry_seq()[self.keys().index_of(tid)].1
    }

    /// At most one processor per event type.
    pub open spec fn well_formed(&self) -> bool {
        forall|i: int, j: int|
            #![trigger self.keys()[i], self.keys()[j]]
            0 <= i < j < self.keys().len() ==> self.keys()[i] != self.keys()[j]
    }

    /// An empty registry.
    pub fn new() -> (r: Self)
        ensures
            r.entry_seq() == Seq::<(u64, u64)>::empty(),
            r.well_formed(),
    {
        let r = EventProcessors { entries: Vec::new() };
        proof {
            assert(r.entry_seq() =~= Seq::<(u64, u64)>::empty());
        }
        r
    }

    /// How many processors are installed.
    pub fn len(&self) -> (r: usize)
        ensures
            r == self.entry_seq().len(),
    {
        self.entries.len()
    }

    /// Table index of the processor for `tid`, if one is installed.
    fn find(&self, tid: u64) -> (r: Option<usize>)
        ensures
            match r {
                Some(i) => i < self.entry_seq().len() && self.entry_seq()[i as int].0 == tid
                    && forall|j: int| 0 <= j < i ==> #[trigger] self.entry_seq()[j].0 != tid,
                None => forall|j: int|
                    0 <= j < self.entry_seq().len() ==> #[trigger] self.entry_seq()[j].0 != tid,
            },
    {
        let n = self.entries.len();
        let mut i: usize = 0;
        while i < n
            invariant
                i <= n,
                n == self.entry_seq().len(),
                forall|j: int| 0 <= j < i ==> #[trigger] self.entry_seq()[j].0 != tid,
            decreases n - i,
        {
            if self.entries[i].0 == tid {
                return Some(i);
            }
            i = i + 1;
        }
        None
    }

    /// Install a fresh processor (cursor at the window start) for `tid`.
    /// A processor already installed for `tid` is discarded, cursor and
    /// all; every other entry is untouched. A type registered for the
    /// first time is appended at the end of the table.
    pub fn register(&mut self, tid: u64)
        requires
            old(self).well_formed(),
        ensures
            final(self).well_formed(),
            final(self).registered(tid),
            final(self).cursor_of(tid) == 0,
            forall|t: u64| t != tid ==>
                (#[trigger] final(self).registered(t) == old(self).registered(t)),
            forall|t: u64| t != tid && old(self).registered(t) ==>
                #[trigger] final(self).cursor_of(t) == old(self).cursor_of(t),
            final(self).keys() == if old(self).registered(tid) {
                old(self).keys()
            } else {
                old(self).keys().push(tid)
            },
    {
        match self.find(tid) {
            Some(i) => {
                let slot = &mut self.entries[i];
                slot.1 = Processor::new();
                proof {
                    lemma_after_replace(old(self), self, i as int, tid);
                }
            },
            None => {
                self.entries.push((tid, Processor::new()));
                proof {
                    lemma_after_append(old(self), self, tid);
                }
            },
        }
    }

    /// The cursor installed for `tid`, if any.
    pub fn cursor_lookup(&self, tid: u64) -> (r: Option<u64>)
        requires
            self.well_formed(),
        ensures
            r == if self.registered(tid) {
                Some(self.cursor_of(tid))
            } else {
                None::<u64>
            },
    {
        match self.find(tid) {
            Some(i) => {
                proof {
                    assert(self.keys()[i as int] == tid);
                    lemma_index_of_unique(self, i as int, tid);
                }
                Some(self.entries[i].1.cursor_value())
            },
            None => {
                proof {
                    assert(!self.registered(tid));
                }
                None
            },
        }
    }
}

/// The type keys of a queue directory, in directory order. A directory
/// entry `(tid, start, len)` describes the retained window of the queue
/// for the type keyed `tid`.
pub open spec fn dir_keys(qs: Seq<(u64, u64, usize)>) -> Seq<u64> {
    Seq::new(qs.len(), |i: int| qs[i].0)
}

/// A queue directory is well formed when each type's window appears at
/// most once and no window outgrows the sequence space.
pub open spec fn dir_well_formed(qs: Seq<(u64, u64, usize)>) -> bool {
    &&& forall|i: int, j: int|
        #![trigger dir_keys(qs)[i], dir_keys(qs)[j]]
        0 <= i < j < qs.len() ==> dir_keys(qs)[i] != dir_keys(qs)[j]
    &&& forall|i: int| 0 <= i < qs.len() ==> ((#[trigger] qs[i]).1 + qs[i].2 <= u64::MAX)
}

/// The window (start, length) the directory holds for `tid`, if any.
pub open spec fn dir_lookup(qs: Seq<(u64, u64, usize)>, tid: u64) -> Option<(u64, usize)> {
    if dir_keys(qs).contains(tid) {
        Some((qs[dir_keys(qs).index_of(tid)].1, qs[dir_keys(qs).index_of(tid)].2))
    } else {
        None
    }
}

/// With unique directory keys, any index holding `tid` is the one
/// `index_of` picks.
proof fn lemma_dir_index_of_unique(qs: Seq<(u64, u64, usize)>, i: int, tid: u64)
    requires
        dir_well_formed(qs),
        0 <= i < qs.len(),
        qs[i].0 == tid,
    ensures
        dir_keys(qs).contains(tid),
        dir_keys(qs).index_of(tid) == i,
{
    assert(dir_keys(qs)[i] == tid);
    let j = dir_keys(qs).index_of(tid);
    assert(0 <= j < qs.len() && dir_keys(qs)[j] == tid);
    if i < j {
        assert(dir_keys(qs)[i] != dir_keys(qs)[j]);
    } else if j < i {
        assert(dir_keys(qs)[j] != dir_keys(qs)[i]);
    }
}

/// The window a well-formed directory hands out never outgrows the
/// sequence space.
proof fn lemma_dir_lookup_bounded(qs: Seq<(u64, u64, usize)>, tid: u64)
    requires
        dir_well_formed(qs),
    ensures
        dir_lookup(qs, tid) matches Some(w) ==> w.0 + w.1 <= u64::MAX,
{
    if dir_keys(qs).contains(tid) {
        let i = dir_keys(qs).index_of(tid);
        assert(0 <= i < qs.len() && dir_keys(qs)[i] == tid);
        assert(qs[i].1 + qs[i].2 <= u64::MAX);
    }
}

/// The directory window for `tid`, if one is listed.
fn dir_find(queues: &Vec<(u64, u64, usize)>, tid: u64) -> (r: Option<(u64, usize)>)
    requires
        dir_well_formed(queues@),
    ensures
        r == dir_lookup(queues@, tid),
{
    let n = queues.len();
    let mut i: usize = 0;
    while i < n
        invariant
            i <= n,
            n == queues@.len(),
            dir_well_formed(queues@),
            forall|j: int| 0 <= j < i ==> (#[trigger] queues@[j]).0 != tid,
        decreases n - i,
    {
        if queues[i].0 == tid {
            proof {
                lemma_dir_index_of_unique(queues@, i as int, tid);
            }
            return Some((queues[i].1, queues[i].2));
        }
        i = i + 1;
    }
    proof {
        if dir_keys(queues@).contains(tid) {
            let j = dir_keys(queues@).index_of(tid);
            assert(0 <= j < queues@.len() && dir_keys(queues@)[j] == tid);
            assert(queues@[j].0 != tid);
        }
    }
    None
}

/// What one driver pass does for one registry entry `(tid, cursor)`: if
/// the directory lists a window for `tid`, the pass reports the window
/// indices of the unread events and the cursor catches up past the
/// window; a type absent from the directory has never seen a publish, so
/// its range is empty and its cursor is untouched.
pub open spec fn driver_step(
    entry: (u64, u64),
    qs: Seq<(u64, u64, usize)>,
    report: (u64, usize, usize),
    entry_after: (u64, u64),
) -> bool {
    match dir_lookup(qs, entry.0) {
        Some(w) => report == (entry.0, unread_start(entry.1, w.0, w.1 as nat) as usize, w.1)
            && entry_after == (entry.0, caught_up(entry.1, w.0, w.1 as nat) as u64),
        None => report == (entry.0, 0usize, 0usize) && entry_after == entry,
    }
}

/// One driver pass: every installed processor, in table order, reads its
/// type's queue window from the directory and advances over the unread
/// events. Returns, per processor, the type key and the half-open range
/// of window indices holding the events to deliver this pass, oldest
/// first. A type whose queue is absent from the directory has never seen
/// a publish: its processor is left as it is and its range is empty.
pub fn update_event_listeners(
    procs: &mut EventProcessors,
    queues: &Vec<(u64, u64, usize)>,
) -> (r: Vec<(u64, usize, usize)>)
    requires
        old(procs).well_formed(),
        dir_well_formed(queues@),
    ensures
        final(procs).well_formed(),
        final(procs).keys() == old(procs).keys(),
        r@.len() == old(procs).entry_seq().len(),
        forall|j: int|
            #![trigger r@[j]]
            0 <= j < r@.len() ==> driver_step(
                old(procs).entry_seq()[j],
                queues@,
                r@[j],
                final(procs).entry_seq()[j],
            ),
{
    let n = procs.entries.len();
    let mut out: Vec<(u64, usize, usize)> = Vec::new();
    let mut j: usize = 0;
    while j < n
        invariant
            j <= n,
            n == procs.entries@.len(),
            procs.entries@.len() == old(procs).entries@.len(),
            out@.len() == j,
            dir_well_formed(queues@),
            forall|k: int|
                j <= k < n ==> #[trigger] procs.entries@[k] == old(procs).entries@[k],
            forall|k: int|
                0 <= k < n ==> (#[trigger] procs.entries@[k]).0 == old(procs).entries@[k].0,
            forall|k: int|
                #![trigger out@[k]]
                0 <= k < j ==> driver_step(
                    (old(procs).entries@[k].0, old(procs).entries@[k].1@),
                    queues@,
                    out@[k],
                    (procs.entries@[k].0, procs.entries@[k].1@),
                ),
        decreases n - j,
    {
        let tid = procs.entries[j].0;
        match dir_find(queues, tid) {
            Some(w) => {
                proof {
                    lemma_dir_lookup_bounded(queues@, tid);
                }
                let mut p = procs.entries[j].1;
                let range = p.process_counts(w.0, w.1);
                let slot = &mut procs.entries[j];
                *slot = (tid, p);
                out.push((tid, range.0, range.1));
            },
            None => {
                out.push((tid, 0, 0));
            },
        }
        j = j + 1;
    }
    proof {
        assert(procs.keys() =~= old(procs).keys());
        assert forall|k: int|
            #![trigger out@[k]]
            0 <= k < out@.len() implies driver_step(
            old(procs).entry_seq()[k],
            queues@,
            out@[k],
            procs.entry_seq()[k],
        ) by {
            assert(old(procs).entry_seq()[k] == (old(procs).entries@[k].0, old(procs).entries@[k].1@));
            assert(procs.entry_seq()[k] == (procs.entries@[k].0, procs.entries@[k].1@));
        }
    }
    out
}

/// With unique keys, any table index holding `tid` is the one `index_of`
/// picks.
proof fn lemma_index_of_unique(procs: &EventProcessors, i: int, tid: u64)
    requires
        procs.well_formed(),
        0 <= i < procs.keys().len(),
        procs.keys()[i] == tid,
    ensures
        procs.registered(tid),
        procs.keys().index_of(tid) == i,
{
    assert(procs.registered(tid));
    let j = procs.keys().index_of(tid);
    assert(0 <= j < procs.keys().len() && procs.keys()[j] == tid);
    if i < j {
        assert(procs.keys()[i] != procs.keys()[j]);
    } else if j < i {
        assert(procs.keys()[j] != procs.keys()[i]);
    }
}

/// What `register` did to the table when it replaced the entry at `i`.
proof fn lemma_after_replace(
    before: &EventProcessors,
    after: &EventProcessors,
    i: int,
    tid: u64,
)
    requires
        before.well_formed(),
        0 <= i < before.entry_seq().len(),
        before.entry_seq()[i].0 == tid,
        after.entry_seq() =~= before.entry_seq().update(i, (tid, 0u64)),
    ensures
        after.well_formed(),
        after.registered(tid),
        after.cursor_of(tid) == 0,
        forall|t: u64| t != tid ==>
            (#[trigger] after.registered(t) == before.registered(t)),
        forall|t: u64| t != tid && before.registered(t) ==>
            #[trigger] after.cursor_of(t) == before.cursor_of(t),
        after.keys() == before.keys(),
{
    assert(after.keys() =~= before.keys());
    lemma_index_of_unique(after, i, tid);
    assert(after.cursor_of(tid) == 0);
    assert forall|t: u64| t != tid && before.registered(t) implies
        #[trigger] after.cursor_of(t) == before.cursor_of(t) by {
        let j = before.keys().index_of(t);
        assert(0 <= j < before.keys().len() && before.keys()[j] == t);
        lemma_index_of_unique(after, j, t);
        assert(j != i);
        assert(after.entry_seq()[j] == before.entry_seq()[j]);
        lemma_index_of_unique(before, j, t);
    }
}

/// What `register` did to the table when it appended a new entry.
proof fn lemma_after_append(before: &EventProcessors, after: &EventProcessors, tid: u64)
    requires
        before.well_formed(),
        forall|j: int|
            0 <= j < before.entry_seq().len() ==> #[trigger] before.entry_seq()[j].0 != tid,
        after.entry_seq() =~= before.entry_seq().push((tid, 0u64)),
    ensures
        after.well_formed(),
        after.registered(tid),
        after.cursor_of(tid) == 0,
        forall|t: u64| t != tid ==>
            (#[trigger] after.registered(t) == before.registered(t)),
        forall|t: u64| t != tid && before.registered(t) ==>
            #[trigger] after.cursor_of(t) == before.cursor_of(t),
        after.keys() == before.keys().push(tid),
{
    let n = before.entry_seq().len() as int;
    assert(after.keys() =~= before.keys().push(tid));
    assert(after.keys()[n] == tid);
    assert(after.registered(tid));
    lemma_index_of_unique(after, n, tid);
    assert(after.cursor_of(tid) == 0);
    assert forall|t: u64| t != tid implies
        (#[trigger] after.registered(t) == before.registered(t)) by {
        if before.registered(t) {
            let j = before.keys().index_of(t);
            assert(after.keys()[j] == t);
            assert(after.registered(t));
        }
        if after.registered(t) {
            let j = after.keys().index_of(t);
            assert(j != n);
            assert(before.keys()[j] == t);
            assert(before.registered(t));
        }
    }
    assert forall|t: u64| t != tid && before.registered(t) implies
        #[trigger] after.cursor_of(t) == before.cursor_of(t) by {
        let j = before.keys().index_of(t);
        assert(0 <= j < before.keys().len() && before.keys()[j] == t);
        lemma_index_of_unique(after, j, t);
        lemma_index_of_unique(before, j, t);
        assert(after.entry_seq()[j] == before.entry_seq()[j]);
    }
}

} // verus!
