use event_dispatch::processor::Processor;
use event_dispatch::queue::EventQueue;
use event_dispatch::registry::update_event_listeners;
use event_dispatch::registry::EventProcessors;

/// The queue window: publishing appends with the next sequence number,
/// advancing drops the oldest events and moves the window start forward.
#[test]
fn queue_window_moves_forward() {
    let mut queue: EventQueue<u64> = EventQueue::new();
    assert_eq!(queue.len(), 0);
    assert_eq!(queue.start(), 0);

    queue.publish(10);
    queue.publish(20);
    queue.publish(30);
    assert_eq!(queue.len(), 3);
    assert_eq!(*queue.get(0), 10);
    assert_eq!(*queue.get(2), 30);

    queue.advance(2);
    assert_eq!(queue.start(), 2);
    assert_eq!(queue.len(), 1);
    assert_eq!(*queue.get(0), 30);

    queue.publish(40);
    assert_eq!(queue.len(), 2);
    assert_eq!(*queue.get(1), 40);
}

/// Cursor arithmetic against a window: a fresh cursor reads the whole
/// window; a cursor inside the window reads the tail; a cursor past the
/// window reads nothing. The cursor never moves backwards.
#[test]
fn processor_cursor_cases() {
    // Fresh cursor, window [5, 8): everything is unread.
    let mut p = Processor::new();
    assert_eq!(p.cursor_value(), 0);
    assert_eq!(p.process_counts(5, 3), (0, 3));
    assert_eq!(p.cursor_value(), 8);

    // Cursor 8, shorter stale window [5, 7): nothing new, no move back.
    assert_eq!(p.process_counts(5, 2), (2, 2));
    assert_eq!(p.cursor_value(), 8);

    // Cursor 8, window [6, 10): the unread tail starts at index 2.
    assert_eq!(p.process_counts(6, 4), (2, 4));
    assert_eq!(p.cursor_value(), 10);
}

/// Two passes over a growing queue deliver each event exactly once.
#[test]
fn each_event_consumed_once() {
    let mut queue: EventQueue<&str> = EventQueue::new();
    let mut p = Processor::default();

    queue.publish("a");
    queue.publish("b");
    let (lo, hi) = p.process(&queue);
    let first: Vec<&str> = (lo..hi).map(|i| *queue.get(i)).collect();
    assert_eq!(first, vec!["a", "b"]);

    queue.publish("c");
    let (lo, hi) = p.process(&queue);
    let second: Vec<&str> = (lo..hi).map(|i| *queue.get(i)).collect();
    assert_eq!(second, vec!["c"]);

    let (lo, hi) = p.process(&queue);
    assert_eq!(lo, hi);
}

/// Registering a type installs one processor; registering it again
/// keeps a single entry but discards the old cursor.
#[test]
fn reregistration_resets_cursor() {
    let mut registry = EventProcessors::new();
    assert_eq!(registry.len(), 0);
    assert_eq!(registry.cursor_lookup(1), None);

    registry.register(1);
    assert_eq!(registry.len(), 1);
    assert_eq!(registry.cursor_lookup(1), Some(0));

    // Consume a window [0, 3) so the cursor moves.
    let queues: Vec<(u64, u64, usize)> = vec![(1, 0, 3)];
    let report = update_event_listeners(&mut registry, &queues);
    assert_eq!(report, vec![(1, 0, 3)]);
    assert_eq!(registry.cursor_lookup(1), Some(3));

    registry.register(1);
    assert_eq!(registry.len(), 1);
    assert_eq!(registry.cursor_lookup(1), Some(0));
}

/// After re-registration, events the old processor consumed and the
/// host has since retired are never redelivered; retained events that
/// were published but never consumed are delivered by the fresh
/// processor's first pass (a documented quirk of the cursor reset).
#[test]
fn reregistration_replays_only_retained_events() {
    let mut queue: EventQueue<&str> = EventQueue::new();
    let mut registry = EventProcessors::new();
    registry.register(1);

    queue.publish("a");
    queue.publish("b");
    queue.publish("c");
    let queues: Vec<(u64, u64, usize)> = vec![(1, queue.start(), queue.len())];
    let report = update_event_listeners(&mut registry, &queues);
    assert_eq!(report, vec![(1, 0, 3)]);

    // The host retires the consumed events, then more arrive.
    queue.advance(3);
    queue.publish("d");
    queue.publish("e");

    registry.register(1);
    let queues: Vec<(u64, u64, usize)> = vec![(1, queue.start(), queue.len())];
    let report = update_event_listeners(&mut registry, &queues);
    // The whole retained window is delivered: exactly "d" and "e";
    // "a", "b", "c" are gone from the window and stay consumed.
    assert_eq!(report, vec![(1, 0, 2)]);
    let delivered: Vec<&str> = (report[0].1..report[0].2).map(|i| *queue.get(i)).collect();
    assert_eq!(delivered, vec!["d", "e"]);
}

/// The quirk itself: when the window still retains already-consumed
/// events at re-registration time, the fresh processor redelivers them.
#[test]
fn reregistration_redelivers_retained_consumed_events() {
    let mut registry = EventProcessors::new();
    registry.register(1);

    let queues: Vec<(u64, u64, usize)> = vec![(1, 0, 3)];
    let report = update_event_listeners(&mut registry, &queues);
    assert_eq!(report, vec![(1, 0, 3)]);

    // Re-register while the window still holds the three consumed events.
    registry.register(1);
    let report = update_event_listeners(&mut registry, &queues);
    assert_eq!(report, vec![(1, 0, 3)]);
}

/// One driver pass runs every installed processor once, in table order;
/// a type with no queue yet is a no-op whose cursor stays put.
#[test]
fn driver_runs_every_processor_once() {
    let mut registry = EventProcessors::new();
    registry.register(3);
    registry.register(1);
    registry.register(2);
    assert_eq!(registry.len(), 3);

    // Type 3 has five events, type 1 has two; type 2 has no queue yet.
    let queues: Vec<(u64, u64, usize)> = vec![(1, 0, 2), (3, 0, 5)];
    let report = update_event_listeners(&mut registry, &queues);
    assert_eq!(report, vec![(3, 0, 5), (1, 0, 2), (2, 0, 0)]);
    assert_eq!(registry.cursor_lookup(3), Some(5));
    assert_eq!(registry.cursor_lookup(1), Some(2));
    assert_eq!(registry.cursor_lookup(2), Some(0));

    // A second pass with nothing new published delivers nothing.
    let report = update_event_listeners(&mut registry, &queues);
    assert_eq!(report, vec![(3, 5, 5), (1, 2, 2), (2, 0, 0)]);
}

/// Registering one type never disturbs another's cursor.
#[test]
fn registration_leaves_other_cursors_alone() {
    let mut registry = EventProcessors::new();
    registry.register(1);
    registry.register(2);

    let queues: Vec<(u64, u64, usize)> = vec![(1, 0, 4), (2, 0, 6)];
    update_event_listeners(&mut registry, &queues);
    assert_eq!(registry.cursor_lookup(1), Some(4));
    assert_eq!(registry.cursor_lookup(2), Some(6));

    registry.register(1);
    assert_eq!(registry.cursor_lookup(1), Some(0));
    assert_eq!(registry.cursor_lookup(2), Some(6));
}
