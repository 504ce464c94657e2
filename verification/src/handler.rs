//! The traits through which widget code plugs into the core: event handlers
//! consulted by the router and per-entity states run by the walker.

use vstd::prelude::*;

use crate::event::{Event, EventQueue};
use crate::world::NodeData;
use crate::tree::Entity;
use crate::world::World;

verus! {

/// A widget's event handler. The router consults `handles_event` while it
/// gathers candidates and `handle_event` while it delivers; both are
/// functions of the handler's own state and the event, which is what lets
/// routing promise an exact outcome.
pub trait EventHandler {
    /// Which events the handler is interested in.
    spec fn spec_handles(&self, event: Event) -> bool;

    /// Which events the handler fully consumes when invoked.
    spec fn spec_consumes(&self, event: Event) -> bool;

    fn handles_event(&self, event: &Event) -> (r: bool)
        ensures
            r == self.spec_handles(*event),
    ;

    /// Reacts to the event; `true` means fully handled, which stops
    /// delivery.
    fn handle_event(&self, event: &Event) -> (r: bool)
        ensures
            r == self.spec_consumes(*event),
    ;
}

/// A widget's per-frame state hook, invoked once per run cycle by the
/// walker. It may mutate component data and enqueue follow-up events, but
/// it must not change the number of entities nor corrupt the key-state
/// table: structural mutation of the tree during a walk stays outside the
/// core.
pub trait State {
    fn update(&self, entity: Entity, world: &mut World, queue: &mut EventQueue)
        requires
            entity < old(world).node_count(),
            old(world).wf(),
        ensures
            final(world).wf(),
            final(world).node_count() == old(world).node_count(),
    ;
}

/// A handler driven by plain data: it handles an event when the event's
/// kind passes the `handles` switches and consumes it when `consume` is
/// set. It is the concrete handler the crate's own tests route to; real
/// widgets bring their own implementations.
pub struct FlagHandler {
    /// Handle every event kind.
    pub handles_any: bool,
    /// Consume the event on delivery.
    pub consume: bool,
}

impl EventHandler for FlagHandler {
    open spec fn spec_handles(&self, event: Event) -> bool {
        self.handles_any
    }

    open spec fn spec_consumes(&self, event: Event) -> bool {
        self.consume
    }

    fn handles_event(&self, event: &Event) -> (r: bool) {
        self.handles_any
    }

    fn handle_event(&self, event: &Event) -> (r: bool) {
        self.consume
    }
}

/// A state hook driven by component data: while its widget's `expanded`
/// flag is set it clears the flag and enqueues one follow-up event, the
/// kind of reentrant enqueue the run loop settles before returning. It is
/// the concrete state the crate's own tests drive the driver with; real
/// widgets bring their own implementations.
pub struct EchoState {
    pub follow_up: Event,
}

impl EchoState {
    /// Clears the `expanded` flag and reports whether it was set.
    fn take_flag(&self, entity: Entity, world: &mut World) -> (was_set: bool)
        requires
            entity < old(world).node_count(),
            old(world).wf(),
        ensures
            final(world).wf(),
            final(world).node_count() == old(world).node_count(),
            was_set == old(world).nodes@[entity as int].expanded,
            final(world).nodes@ == old(world).nodes@.update(
                entity as int,
                NodeData { expanded: false, ..old(world).nodes@[entity as int] },
            ),
            final(world).global == old(world).global,
    {
        let was_set = world.node(entity).expanded;
        world.set_expanded(entity, false);
        was_set
    }
}

impl State for EchoState {
    fn update(&self, entity: Entity, world: &mut World, queue: &mut EventQueue) {
        if self.take_flag(entity, world) {
            queue.enqueue(self.follow_up);
        }
    }
}

} // verus!
