//! The dispatch schedule of one processor pass: for every unread event in
//! publication order, for every entity of the listener snapshot in
//! snapshot order, one invocation per handler in order of addition. The
//! schedule fixes the exact order in which the host must invoke handlers;
//! the laws at the bottom pin down the delivery guarantees that order
//! carries.

use vstd::prelude::*;

verus! {

/// One handler invocation a pass owes: the window index of the delivered
/// event, the entity owning the listener list, and the handler's position
/// in that list (its order of addition).
#[derive(PartialEq, Eq, Structural, Clone, Copy, Debug)]
pub struct Invocation {
    pub event: usize,
    pub entity: u64,
    pub handler: usize,
}

/// The invocations one event owes one entity: every handler of its list,
/// in order of addition.
pub open spec fn handler_block(e: int, entity: u64, n_handlers: usize) -> Seq<Invocation> {
    Seq::new(
        n_handlers as nat,
        |h: int| Invocation { event: e as usize, entity, handler: h as usize },
    )
}

/// The invocations one event owes the whole snapshot: entity by entity,
/// in snapshot order.
pub open spec fn event_block(e: int, listeners: Seq<(u64, usize)>) -> Seq<Invocation>
    decreases listeners.len(),
{
    if listeners.len() == 0 {
        Seq::empty()
    } else {
        handler_block(e, listeners[0].0, listeners[0].1) + event_block(e, listeners.skip(1))
    }
}

/// The schedule of a pass that delivers the events at window indices
/// `lo..hi` to the snapshot `listeners` of (entity, handler count) pairs:
/// events in publication order, outermost.
pub open spec fn schedule(lo: int, hi: int, listeners: Seq<(u64, usize)>) -> Seq<Invocation>
    decreases hi - lo,
{
    if lo >= hi {
        Seq::empty()
    } else {
        event_block(lo, listeners) + schedule(lo + 1, hi, listeners)
    }
}

/// Taking one more listener into the snapshot appends its handler block
/// to an event's block.
proof fn lemma_event_block_snoc(e: int, listeners: Seq<(u64, usize)>, j: int)
    requires
        0 <= j < listeners.len(),
    ensures
        event_block(e, listeners.take(j + 1)) == event_block(e, listeners.take(j))
            + handler_block(e, listeners[j].0, listeners[j].1),
    decreases j,
{
    let hb = |i: int| handler_block(e, listeners[i].0, listeners[i].1);
    if j == 0 {
        assert(listeners.take(0) =~= Seq::<(u64, usize)>::empty());
        assert(listeners.take(1).skip(1) =~= Seq::<(u64, usize)>::empty());
        assert(listeners.take(1)[0] == listeners[0]);
        assert(event_block(e, listeners.take(1).skip(1)) =~= Seq::<Invocation>::empty());
        assert(event_block(e, listeners.take(1)) =~= hb(0));
        assert(event_block(e, listeners.take(0)) + hb(0) =~= hb(0));
    } else {
        let tl = listeners.skip(1);
        lemma_event_block_snoc(e, tl, j - 1);
        assert(listeners.take(j + 1).skip(1) =~= tl.take(j));
        assert(listeners.take(j).skip(1) =~= tl.take(j - 1));
        assert(tl[j - 1] == listeners[j]);
        assert(listeners.take(j + 1)[0] == listeners[0]);
        assert(listeners.take(j)[0] == listeners[0]);
        assert(event_block(e, listeners.take(j + 1)) == hb(0) + (event_block(e, tl.take(j - 1))
            + handler_block(e, listeners[j].0, listeners[j].1)));
        assert(hb(0) + (event_block(e, tl.take(j - 1)) + handler_block(
            e,
            listeners[j].0,
            listeners[j].1,
        )) =~= (hb(0) + event_block(e, tl.take(j - 1))) + handler_block(
            e,
            listeners[j].0,
            listeners[j].1,
        ));
    }
}

/// Delivering one more event appends its block to the schedule.
proof fn lemma_schedule_snoc(lo: int, hi: int, listeners: Seq<(u64, usize)>)
    requires
        lo <= hi,
    ensures
        schedule(lo, hi + 1, listeners) == schedule(lo, hi, listeners)
            + event_block(hi, listeners),
    decreases hi - lo,
{
    if lo == hi {
        assert(schedule(lo + 1, hi + 1, listeners) =~= Seq::<Invocation>::empty());
        assert(schedule(lo, hi, listeners) =~= Seq::<Invocation>::empty());
        assert(schedule(lo, hi + 1, listeners) =~= schedule(lo, hi, listeners) + event_block(
            hi,
            listeners,
        ));
    } else {
        lemma_schedule_snoc(lo + 1, hi, listeners);
        assert(event_block(lo, listeners) + (schedule(lo + 1, hi, listeners) + event_block(
            hi,
            listeners,
        )) =~= (event_block(lo, listeners) + schedule(lo + 1, hi, listeners)) + event_block(
            hi,
            listeners,
        ));
    }
}

/// The schedule a pass owes, computed for the host to walk: the exact
/// nested order of the specification — events `lo..hi` outermost, then
/// the snapshot's entities, then each entity's handlers.
pub fn dispatch_schedule(lo: usize, hi: usize, listeners: &Vec<(u64, usize)>) -> (r: Vec<
    Invocation,
>)
    requires
        lo <= hi,
    ensures
        r@ == schedule(lo as int, hi as int, listeners@),
{
    let mut r: Vec<Invocation> = Vec::new();
    let mut e: usize = lo;
    while e < hi
        invariant
            lo <= e <= hi,
            r@ == schedule(lo as int, e as int, listeners@),
        decreases hi - e,
    {
        let n = listeners.len();
        let mut j: usize = 0;
        while j < n
            invariant
                j <= n,
                n == listeners@.len(),
                lo <= e < hi,
                r@ == schedule(lo as int, e as int, listeners@) + event_block(
                    e as int,
                    listeners@.take(j as int),
                ),
            decreases n - j,
        {
            let (entity, count) = listeners[j];
            let ghost r_before = r@;
            let mut h: usize = 0;
            while h < count
                invariant
                    h <= count,
                    j < n,
                    n == listeners@.len(),
                    (entity, count) == listeners@[j as int],
                    r@ == r_before + handler_block(e as int, entity, count).take(h as int),
                decreases count - h,
            {
                r.push(Invocation { event: e, entity, handler: h });
                h = h + 1;
                proof {
                    assert(handler_block(e as int, entity, count).take(h as int)
                        =~= handler_block(e as int, entity, count).take(h - 1).push(
                        Invocation { event: e, entity, handler: (h - 1) as usize },
                    ));
                }
            }
            j = j + 1;
            proof {
                assert(handler_block(e as int, entity, count).take(count as int)
                    =~= handler_block(e as int, entity, count));
                lemma_event_block_snoc(e as int, listeners@, j - 1);
                assert(r@ =~= schedule(lo as int, e as int, listeners@) + event_block(
                    e as int,
                    listeners@.take(j as int),
                ));
            }
        }
        e = e + 1;
        proof {
            assert(listeners@.take(n as int) =~= listeners@);
            lemma_schedule_snoc(lo as int, e - 1, listeners@);
            assert(r@ =~= schedule(lo as int, e as int, listeners@));
        }
    }
    r
}

/// Law: with one entity owning a single handler, a pass delivering the
/// events at window indices `lo..hi` invokes that handler exactly once
/// per event — `hi - lo` times in all — in publication order.
pub proof fn law_single_handler_order(lo: int, hi: int, entity: u64)
    requires
        0 <= lo <= hi <= usize::MAX,
    ensures
        schedule(lo, hi, seq![(entity, 1usize)]).len() == hi - lo,
        forall|i: int|
            0 <= i < hi - lo ==> #[trigger] schedule(lo, hi, seq![(entity, 1usize)])[i]
                == (Invocation { event: (lo + i) as usize, entity, handler: 0usize }),
    decreases hi - lo,
{
    let ls = seq![(entity, 1usize)];
    if lo < hi {
        assert(ls.skip(1) =~= Seq::<(u64, usize)>::empty());
        assert(event_block(lo, ls.skip(1)) =~= Seq::<Invocation>::empty());
        assert(event_block(lo, ls) =~= handler_block(lo, entity, 1usize));
        assert(event_block(lo, ls).len() == 1);
        assert(event_block(lo, ls)[0] == (Invocation {
            event: lo as usize,
            entity,
            handler: 0usize,
        }));
        law_single_handler_order(lo + 1, hi, entity);
        assert forall|i: int| 0 <= i < hi - lo implies #[trigger] schedule(lo, hi, ls)[i]
            == (Invocation { event: (lo + i) as usize, entity, handler: 0usize }) by {
            if i > 0 {
                assert(schedule(lo, hi, ls)[i] == schedule(lo + 1, hi, ls)[i - 1]);
            }
        }
    }
}

/// Law: within one event's delivery to one entity, the handlers run in
/// the exact order they were added to the list: the pass invokes handler
/// position 0 first, then 1, and so on.
pub proof fn law_handlers_in_order(e: int, entity: u64, n_handlers: usize)
    requires
        0 <= e < usize::MAX,
    ensures
        schedule(e, e + 1, seq![(entity, n_handlers)]).len() == n_handlers,
        forall|h: int|
            0 <= h < n_handlers ==> #[trigger] schedule(e, e + 1, seq![(entity, n_handlers)])[h]
                == (Invocation { event: e as usize, entity, handler: h as usize }),
{
    let ls = seq![(entity, n_handlers)];
    assert(ls.skip(1) =~= Seq::<(u64, usize)>::empty());
    assert(event_block(e, ls.skip(1)) =~= Seq::<Invocation>::empty());
    assert(schedule(e + 1, e + 1, ls) =~= Seq::<Invocation>::empty());
    assert(schedule(e, e + 1, ls) =~= handler_block(e, entity, n_handlers));
}

/// Law: an entity that bears no listener list for the event type —
/// absent from the snapshot — receives no invocation from the pass. The
/// same shows that an entity removed (or despawned) before the pass, and
/// therefore missing from its snapshot, receives no further deliveries.
pub proof fn law_absent_entity_silent(lo: int, hi: int, listeners: Seq<(u64, usize)>, entity: u64)
    requires
        forall|j: int| 0 <= j < listeners.len() ==> (#[trigger] listeners[j]).0 != entity,
    ensures
        forall|i: int|
            0 <= i < schedule(lo, hi, listeners).len() ==> (#[trigger] schedule(
                lo,
                hi,
                listeners,
            )[i]).entity != entity,
    decreases hi - lo,
{
    if lo < hi {
        lemma_event_block_absent(lo, listeners, entity);
        law_absent_entity_silent(lo + 1, hi, listeners, entity);
        assert forall|i: int| 0 <= i < schedule(lo, hi, listeners).len() implies (
        #[trigger] schedule(lo, hi, listeners)[i]).entity != entity by {
            let eb = event_block(lo, listeners);
            if i >= eb.len() {
                assert(schedule(lo, hi, listeners)[i] == schedule(lo + 1, hi, listeners)[i
                    - eb.len()]);
            }
        }
    }
}

/// One event's block never names an entity outside the snapshot.
proof fn lemma_event_block_absent(e: int, listeners: Seq<(u64, usize)>, entity: u64)
    requires
        forall|j: int| 0 <= j < listeners.len() ==> (#[trigger] listeners[j]).0 != entity,
    ensures
        forall|i: int|
            0 <= i < event_block(e, listeners).len() ==> (#[trigger] event_block(
                e,
                listeners,
            )[i]).entity != entity,
    decreases listeners.len(),
{
    if listeners.len() > 0 {
        assert(listeners[0].0 != entity);
        assert(forall|j: int|
            0 <= j < listeners.skip(1).len() ==> (#[trigger] listeners.skip(1)[j]).0 != entity);
        lemma_event_block_absent(e, listeners.skip(1), entity);
        assert forall|i: int| 0 <= i < event_block(e, listeners).len() implies (
        #[trigger] event_block(e, listeners)[i]).entity != entity by {
            let hb = handler_block(e, listeners[0].0, listeners[0].1);
            if i >= hb.len() {
                assert(event_block(e, listeners)[i] == event_block(e, listeners.skip(1))[i
                    - hb.len()]);
            }
        }
    }
}

/// How many invocations one event owes the snapshot: the sum of every
/// listed entity's handler count.
pub open spec fn total_handlers(listeners: Seq<(u64, usize)>) -> nat
    decreases listeners.len(),
{
    if listeners.len() == 0 {
        0
    } else {
        listeners[0].1 as nat + total_handlers(listeners.skip(1))
    }
}

/// One event's block holds exactly one invocation per listed handler.
proof fn lemma_event_block_len(e: int, listeners: Seq<(u64, usize)>)
    ensures
        event_block(e, listeners).len() == total_handlers(listeners),
    decreases listeners.len(),
{
    if listeners.len() > 0 {
        lemma_event_block_len(e, listeners.skip(1));
    }
}

/// Law: a pass delivering the events at window indices `lo..hi` invokes
/// handlers exactly `(hi - lo) * total_handlers(listeners)` times — once
/// per event per handler, never more, never fewer.
pub proof fn law_invocation_count(lo: int, hi: int, listeners: Seq<(u64, usize)>)
    requires
        lo <= hi,
    ensures
        schedule(lo, hi, listeners).len() == (hi - lo) * total_handlers(listeners),
    decreases hi - lo,
{
    let t = total_handlers(listeners);
    if lo == hi {
        assert((hi - lo) * t == 0) by (nonlinear_arith)
            requires
                lo == hi,
        ;
    } else {
        lemma_event_block_len(lo, listeners);
        law_invocation_count(lo + 1, hi, listeners);
        assert((hi - lo) * t == t + (hi - lo - 1) * t) by (nonlinear_arith)
            requires
                lo < hi,
        ;
    }
}

/// The total payload of the events at window indices `lo..hi`.
pub open spec fn payload_sum(events: Seq<u64>, lo: int, hi: int) -> int
    decreases hi - lo,
{
    if lo >= hi || lo < 0 || hi > events.len() {
        0
    } else {
        events[lo] + payload_sum(events, lo + 1, hi)
    }
}

/// A counter handler run over a schedule: each invocation adds the
/// delivered event's payload to the counter.
pub open spec fn run_counter(prior: int, sched: Seq<Invocation>, events: Seq<u64>) -> int
    decreases sched.len(),
{
    if sched.len() == 0 {
        prior
    } else if sched[0].event < events.len() {
        run_counter(prior + events[sched[0].event as int], sched.skip(1), events)
    } else {
        run_counter(prior, sched.skip(1), events)
    }
}

/// Law: one entity with a single handler that adds each event's payload
/// to a counter: after a pass delivering the events at window indices
/// `lo..hi`, the counter holds its prior value plus the sum of the
/// delivered payloads.
pub proof fn law_counter_accumulates(prior: int, lo: int, hi: int, entity: u64, events: Seq<u64>)
    requires
        0 <= lo <= hi <= events.len(),
        hi <= usize::MAX,
    ensures
        run_counter(prior, schedule(lo, hi, seq![(entity, 1usize)]), events) == prior
            + payload_sum(events, lo, hi),
    decreases hi - lo,
{
    let ls = seq![(entity, 1usize)];
    if lo < hi {
        law_single_handler_order(lo, hi, entity);
        law_single_handler_order(lo + 1, hi, entity);
        let full = schedule(lo, hi, ls);
        assert(full[0] == (Invocation { event: lo as usize, entity, handler: 0usize }));
        assert forall|i: int| 0 <= i < full.skip(1).len() implies #[trigger] full.skip(1)[i]
            == schedule(lo + 1, hi, ls)[i] by {
            assert(full.skip(1)[i] == full[i + 1]);
        }
        assert(full.skip(1) =~= schedule(lo + 1, hi, ls));
        law_counter_accumulates(prior + events[lo], lo + 1, hi, entity, events);
        assert(run_counter(prior, full, events) == run_counter(
            prior + events[lo],
            full.skip(1),
            events,
        ));
    }
}

} // verus!
