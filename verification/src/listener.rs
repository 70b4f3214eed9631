//! The per-entity listener list: an ordered collection of handlers for
//! one event type, whose only mutation is appending. Handlers run in the
//! order they were appended, so the handler index a dispatch schedule
//! names is the position at which `add` appended that handler.

use vstd::prelude::*;

verus! {

/// An ordered list of handlers for one event type, owned by one entity.
/// The handler type is opaque to the list: the host supplies whatever
/// invocable objects it dispatches to.
pub struct EventListener<H> {
    list: Vec<H>,
}

impl<H> View for EventListener<H> {
    type V = Seq<H>;

    closed spec fn view(&self) -> Seq<H> {
        self.list@
    }
}

impl<H> EventListener<H> {
    /// An empty list.
    pub fn new() -> (r: Self)
        ensures
            r@ == Seq::<H>::empty(),
    {
        EventListener { list: Vec::new() }
    }

    /// A list holding the one handler `h`, as the convenience
    /// constructors build it.
    pub fn with_handler(h: H) -> (r: Self)
        ensures
            r@ == Seq::<H>::empty().push(h),
    {
        let mut list = Vec::new();
        list.push(h);
        EventListener { list }
    }

    /// Append `h` at the end of the list: the sole mutation primitive.
    /// Returns the list itself so additions chain.
    pub fn add(&mut self, h: H) -> (r: &mut Self)
        ensures
            r@ == old(self)@.push(h),
            *final(self) == *final(r),
    {
        self.list.push(h);
        self
    }

    /// How many handlers the list holds.
    pub fn len(&self) -> (r: usize)
        ensures
            r == self@.len(),
    {
        self.list.len()
    }

    /// The handler at position `i` (its order of addition).
    pub fn get(&self, i: usize) -> (r: &H)
        requires
            i < self@.len(),
        ensures
            *r == self@[i as int],
    {
        &self.list[i]
    }

    /// Give the handlers up for invocation, in order of addition.
    pub fn into_handlers(self) -> (r: Vec<H>)
        ensures
            r@ == self@,
    {
        self.list
    }

    /// Rebuild a list from handlers, keeping their order.
    pub fn from_handlers(handlers: Vec<H>) -> (r: Self)
        ensures
            r@ == handlers@,
    {
        EventListener { list: handlers }
    }
}

impl<H> Default for EventListener<H> {
    /// Same as `new`: an empty list.
    fn default() -> (r: Self)
        ensures
            r@ == Seq::<H>::empty(),
    {
        EventListener::new()
    }
}

} // verus!
