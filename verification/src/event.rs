//! Events, dispatch strategies and the event queue.
//!
//! An event is an immutable value: a concrete kind, the entity dispatch
//! begins from, and a dispatch strategy.

use vstd::prelude::*;

use crate::geometry::Point;
use crate::tree::Entity;

verus! {

/// How an event travels through the tree.
#[derive(Clone, Copy, Debug, PartialEq, Eq, Structural)]
pub enum EventStrategy {
    /// Reserved broadcast mode; routing treats it as a no-op.
    TopDown,
    /// Hit-testing based routing from the source entity toward the root.
    BottomUp,
    /// Delivered to nobody by the router.
    Direct,
}

/// The closed set of event kinds the router understands. Kinds without a
/// matching rule of their own (`WindowResize`, `Custom`, `SystemQuit` when it
/// reaches the router at all) fall back to asking the registered handlers.
#[derive(Clone, Copy, Debug, PartialEq, Eq, Structural)]
pub enum EventKind {
    WindowResize { width: i32, height: i32 },
    KeyDown { key: u32 },
    KeyUp { key: u32 },
    Scroll,
    Click { position: Point },
    MouseDown { position: Point },
    MouseUp,
    /// Halts the run-loop driver; never routed further.
    SystemQuit,
    /// An application-defined kind, told apart by its identifier.
    Custom { id: u32 },
}

/// An event as it sits in the queue.
#[derive(Clone, Copy, Debug, PartialEq, Eq, Structural)]
pub struct Event {
    pub kind: EventKind,
    /// The entity bottom-up dispatch begins from.
    pub source: Entity,
    pub strategy: EventStrategy,
}

impl Event {
    pub open spec fn is_quit(self) -> bool {
        self.kind is SystemQuit
    }

    pub fn new(kind: EventKind, source: Entity, strategy: EventStrategy) -> (e: Event)
        ensures
            e == (Event { kind, source, strategy }),
    {
        Event { kind, source, strategy }
    }
}

/// True when some event of the sequence is a `SystemQuit`.
pub open spec fn has_quit(events: Seq<Event>) -> bool {
    exists|i: int| 0 <= i < events.len() && events[i].is_quit()
}

/// The index of the first `SystemQuit` of the sequence.
pub open spec fn first_quit_index(events: Seq<Event>) -> int
    decreases events.len(),
{
    if events.len() == 0 {
        0
    } else if events[0].is_quit() {
        0
    } else {
        1 + first_quit_index(events.drop_first())
    }
}

/// The first `SystemQuit` of the sequence is indeed the first: it sits at
/// the index `first_quit_index` names, and nothing before it is a quit.
pub proof fn lemma_first_quit_index(events: Seq<Event>, i: int)
    requires
        0 <= i < events.len(),
        events[i].is_quit(),
        forall|k: int| 0 <= k < i ==> !(#[trigger] events[k]).is_quit(),
    ensures
        first_quit_index(events) == i,
    decreases i,
{
    if i > 0 {
        assert forall|k: int| 0 <= k < i - 1
            implies !(#[trigger] events.drop_first()[k]).is_quit() by {
            assert(events.drop_first()[k] == events[k + 1]);
        }
        assert(events.drop_first()[i - 1] == events[i]);
        lemma_first_quit_index(events.drop_first(), i - 1);
    }
}

/// A FIFO queue of pending events.
pub struct EventQueue {
    pub events: Vec<Event>,
}

impl EventQueue {
    pub fn new() -> (q: EventQueue)
        ensures
            q.events@ == Seq::<Event>::empty(),
    {
        EventQueue { events: Vec::new() }
    }

    pub fn len(&self) -> (n: usize)
        ensures
            n == self.events@.len(),
    {
        self.events.len()
    }

    /// Appends an event at the back of the queue.
    pub fn enqueue(&mut self, event: Event)
        ensures
            final(self).events@ == old(self).events@.push(event),
    {
        self.events.push(event);
    }

    /// Removes and returns every queued event at once: the drain phase's
    /// snapshot. Events enqueued afterwards land in the emptied queue.
    pub fn drain_all(&mut self) -> (drained: Vec<Event>)
        ensures
            drained@ == old(self).events@,
            final(self).events@ == Seq::<Event>::empty(),
    {
        let mut drained: Vec<Event> = Vec::new();
        core::mem::swap(&mut drained, &mut self.events);
        drained
    }
}

} // verus!
