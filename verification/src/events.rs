//! Contact and proximity events.
//!
//! Event queues preserve insertion order and are drained by callers; the
//! pipeline never deduplicates them.

use vstd::prelude::*;

verus! {

/// The three-valued proximity relation between two shapes at a margin.
#[derive(Clone, Copy, PartialEq, Eq, Structural, Debug)]
pub enum Proximity {
    /// The shapes interpenetrate.
    Intersecting,
    /// The shapes are separated but closer than the margin.
    WithinMargin,
    /// The shapes are farther apart than the margin.
    Disjoint,
}

/// A change in the contact state of a pair of collision objects.
#[derive(Clone, Copy, PartialEq, Eq, Structural, Debug)]
pub enum ContactEvent {
    /// The pair started having at least one contact.
    Started(u32, u32),
    /// The pair stopped having any contact.
    Stopped(u32, u32),
}

/// A change in the proximity state of a pair of collision objects; the two
/// statuses always differ.
#[derive(Clone, Copy, PartialEq, Eq, Structural, Debug)]
pub struct ProximityEvent {
    /// First collision object involved.
    pub collider1: u32,
    /// Second collision object involved.
    pub collider2: u32,
    /// Proximity status before the change.
    pub prev_status: Proximity,
    /// Proximity status after the change.
    pub new_status: Proximity,
}

impl ProximityEvent {
    /// Builds the event recording that the proximity of `collider1` and
    /// `collider2` changed from `prev_status` to `new_status`.
    pub fn new(collider1: u32, collider2: u32, prev_status: Proximity, new_status: Proximity) -> (
        r: ProximityEvent)
        requires
            prev_status != new_status,
        ensures
            r == (ProximityEvent { collider1, collider2, prev_status, new_status }),
    {
        ProximityEvent { collider1, collider2, prev_status, new_status }
    }
}

/// An ordered queue of contact events.
pub struct ContactEvents {
    events: Vec<ContactEvent>,
}

impl ContactEvents {
    /// The queued events, oldest first.
    pub closed spec fn view(&self) -> Seq<ContactEvent> {
        self.events@
    }

    /// Builds an empty queue.
    pub fn new() -> (r: ContactEvents)
        ensures
            r@ == Seq::<ContactEvent>::empty(),
    {
        ContactEvents { events: Vec::new() }
    }

    /// Appends an event.
    pub fn push(&mut self, e: ContactEvent)
        ensures
            final(self)@ == old(self)@.push(e),
    {
        self.events.push(e);
    }

    /// Drops every queued event.
    pub fn clear(&mut self)
        ensures
            final(self)@ == Seq::<ContactEvent>::empty(),
    {
        self.events.clear();
    }

    /// The number of queued events.
    pub fn len(&self) -> (r: usize)
        ensures
            r == self@.len(),
    {
        self.events.len()
    }

    /// The `i`-th queued event, oldest first.
    pub fn get(&self, i: usize) -> (r: ContactEvent)
        requires
            i < self@.len(),
        ensures
            r == self@[i as int],
    {
        self.events[i]
    }
}

/// An ordered queue of proximity events.
pub struct ProximityEvents {
    events: Vec<ProximityEvent>,
}

impl ProximityEvents {
    /// The queued events, oldest first.
    pub closed spec fn view(&self) -> Seq<ProximityEvent> {
        self.events@
    }

    /// Builds an empty queue.
    pub fn new() -> (r: ProximityEvents)
        ensures
            r@ == Seq::<ProximityEvent>::empty(),
    {
        ProximityEvents { events: Vec::new() }
    }

    /// Appends an event.
    pub fn push(&mut self, e: ProximityEvent)
        ensures
            final(self)@ == old(self)@.push(e),
    {
        self.events.push(e);
    }

    /// Drops every queued event.
    pub fn clear(&mut self)
        ensures
            final(self)@ == Seq::<ProximityEvent>::empty(),
    {
        self.events.clear();
    }

    /// The number of queued events.
    pub fn len(&self) -> (r: usize)
        ensures
            r == self@.len(),
    {
        self.events.len()
    }

    /// The `i`-th queued event, oldest first.
    pub fn get(&self, i: usize) -> (r: ProximityEvent)
        requires
            i < self@.len(),
        ensures
            r == self@[i as int],
    {
        self.events[i]
    }
}

} // verus!
