//! A verified core for an entity-listener event-dispatch engine.
//!
//! Entities of a host entity-component store own ordered lists of typed
//! event handlers. Events of each registered type are published into a
//! per-type queue window with monotonic sequence numbers; once per frame a
//! driver runs every registered processor, which advances a per-type cursor
//! over the unread events and schedules one invocation per (event, entity,
//! handler) triple. This crate verifies that bookkeeping: the queue window,
//! the cursor arithmetic, the processor registry, and the exact order of
//! the scheduled invocations. The host store itself, and the side effects
//! the handlers perform against it, live outside the verified core.

pub mod listener;
pub mod processor;
pub mod queue;
pub mod registry;
pub mod schedule;
