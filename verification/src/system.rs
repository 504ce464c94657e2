//! The event router, the state-update walker and the run-loop driver.
//!
//! Routing is specified by three small state machines, written as spec
//! functions and mirrored step for step by the executable code:
//! - [`visit_node`]/[`walk_nodes`]: the bottom-up walk from the event's
//!   source toward the root that gathers the candidate list, maintains the
//!   clipping stack and keeps the pressed set paired;
//! - [`deliver_step`]/[`deliver_nodes`]: the delivery pass over the
//!   candidates in root-to-source order, with disabled-ancestor suppression
//!   and first-handled-wins;
//! - [`global_effects_rel`]: the side effects applied before per-node
//!   routing (window resize, keyboard bookkeeping).

use vstd::prelude::*;

use crate::event::{first_quit_index, has_quit, Event, EventKind, EventQueue, EventStrategy};
use crate::geometry::{Bounds, Constraint, Point};
use crate::handler::{EventHandler, State};
use crate::registry::EntityMap;
use crate::tree::{chain, lemma_chain_shape, parent_chain, preorder, preorder_vec, Entity, Tree};
use crate::world::World;

verus! {

/// No entity is listed twice.
pub open spec fn unique_seq(s: Seq<Entity>) -> bool {
    forall|i: int, j: int| 0 <= i < j < s.len() ==> s[i] != s[j]
}

/// The pressed set after a qualifying mouse-down hit on `e`: `e` is added
/// unless it is already pressed, so it appears at most once.
pub open spec fn press_insert(p: Seq<Entity>, e: Entity) -> Seq<Entity> {
    if p.contains(e) {
        p
    } else {
        p.push(e)
    }
}

/// The transient state of the candidate-gathering walk.
pub ghost struct WalkState {
    /// The clipping stack; index 0 is the first recorded clip ancestor.
    pub clipped: Seq<Entity>,
    /// The candidate list, in source-to-root discovery order.
    pub matched: Seq<Entity>,
    /// The mouse-down pairing set.
    pub pressed: Seq<Entity>,
}

/// One iteration of the candidate walk at `node`, in the order the router
/// performs it: clip-stack bookkeeping, per-kind matching, then recording
/// `node` as the nearest clip region if it carries an active `Clip`.
pub open spec fn visit_node<H: EventHandler>(
    t: Tree,
    w: World,
    hmap: Map<Entity, Vec<H>>,
    ev: Event,
    mouse: Point,
    s: WalkState,
    node: Entity,
) -> WalkState {
    let s1 = clip_bookkeeping(t, s, node);
    let s2 = match_node(t, w, hmap, ev, mouse, s1, node);
    clip_record(w, s2, node)
}

/// Clip-stack maintenance before matching: a node whose parent is the top
/// of the stack is pushed; otherwise the top is popped.
pub open spec fn clip_bookkeeping(t: Tree, s: WalkState, node: Entity) -> WalkState {
    if s.clipped.len() > 0 {
        if t.spec_parent_of(node) == Some(s.clipped.last()) {
            WalkState { clipped: s.clipped.push(node), ..s }
        } else {
            WalkState { clipped: s.clipped.drop_last(), ..s }
        }
    } else {
        s
    }
}

/// The per-event-kind matching rule at `node`.
pub open spec fn match_node<H: EventHandler>(
    t: Tree,
    w: World,
    hmap: Map<Entity, Vec<H>>,
    ev: Event,
    mouse: Point,
    s: WalkState,
    node: Entity,
) -> WalkState {
    match ev.kind {
        EventKind::KeyDown { .. } | EventKind::KeyUp { .. } => {
            if w.global.focused == Some(node) {
                WalkState { matched: s.matched.push(node), ..s }
            } else {
                s
            }
        },
        EventKind::Scroll => {
            if w.spec_hit(node, mouse) {
                WalkState { matched: s.matched.push(node), ..s }
            } else {
                s
            }
        },
        EventKind::Click { position } | EventKind::MouseDown { position } => {
            if w.spec_hit(node, position)
                && (s.clipped.len() == 0 || w.spec_hit(s.clipped[0], position)) {
                WalkState {
                    matched: s.matched.push(node),
                    pressed: press_insert(s.pressed, node),
                    ..s
                }
            } else {
                s
            }
        },
        EventKind::MouseUp => {
            if s.pressed.contains(node) {
                WalkState {
                    matched: s.matched.push(node),
                    pressed: s.pressed.remove_value(node),
                    ..s
                }
            } else {
                s
            }
        },
        EventKind::WindowResize { .. } | EventKind::SystemQuit | EventKind::Custom { .. } => {
            if w.nodes@[node as int].enabled && hmap.contains_key(node)
                && (exists|j: int|
                    0 <= j < hmap[node]@.len() && (#[trigger] hmap[node]@[j]).spec_handles(ev)) {
                WalkState { matched: s.matched.push(node), ..s }
            } else {
                s
            }
        },
    }
}

/// Recording the nearest clip region: a node with an active `Clip` resets
/// the stack to itself.
pub open spec fn clip_record(w: World, s: WalkState, node: Entity) -> WalkState {
    if w.nodes@[node as int].clip {
        WalkState { clipped: seq![node], ..s }
    } else {
        s
    }
}

/// The candidate walk over the nodes of `ch` from index `i` on.
pub open spec fn walk_nodes<H: EventHandler>(
    t: Tree,
    w: World,
    hmap: Map<Entity, Vec<H>>,
    ev: Event,
    mouse: Point,
    s: WalkState,
    ch: Seq<Entity>,
    i: int,
) -> WalkState
    decreases ch.len() - i,
        when 0 <= i <= ch.len()
{
    if i >= ch.len() {
        s
    } else {
        walk_nodes(t, w, hmap, ev, mouse, visit_node(t, w, hmap, ev, mouse, s, ch[i]), ch, i + 1)
    }
}

/// The transient state of the delivery pass.
pub ghost struct DeliverState {
    /// The disabled ancestor whose candidate descendants are being skipped.
    pub disabled_parent: Option<Entity>,
    /// The candidates whose handler list was consulted, in delivery order.
    pub visited: Seq<Entity>,
    /// Whether some handler has fully handled the event.
    pub handled: bool,
}

/// One delivery step at `node`: once handled, nothing further is tried; a
/// run of candidates chained by direct parent links under a disabled node
/// is skipped; an enabled candidate with registered handlers is visited and
/// its handlers run in registration order until the first consumes.
pub open spec fn deliver_step<H: EventHandler>(
    t: Tree,
    w: World,
    hmap: Map<Entity, Vec<H>>,
    ev: Event,
    s: DeliverState,
    node: Entity,
) -> DeliverState {
    if s.handled {
        s
    } else if s.disabled_parent is Some && t.spec_parent_of(node) == s.disabled_parent {
        DeliverState { disabled_parent: Some(node), ..s }
    } else if !w.nodes@[node as int].enabled {
        DeliverState { disabled_parent: Some(node), ..s }
    } else if hmap.contains_key(node) {
        DeliverState {
            disabled_parent: None,
            visited: s.visited.push(node),
            handled: exists|j: int|
                0 <= j < hmap[node]@.len() && (#[trigger] hmap[node]@[j]).spec_consumes(ev),
        }
    } else {
        DeliverState { disabled_parent: None, ..s }
    }
}

/// The delivery pass over the candidates of `cands` from index `i` on;
/// `cands` is the candidate list already reversed into root-to-source
/// order.
pub open spec fn deliver_nodes<H: EventHandler>(
    t: Tree,
    w: World,
    hmap: Map<Entity, Vec<H>>,
    ev: Event,
    s: DeliverState,
    cands: Seq<Entity>,
    i: int,
) -> DeliverState
    decreases cands.len() - i,
        when 0 <= i <= cands.len()
{
    if i >= cands.len() {
        s
    } else {
        deliver_nodes(t, w, hmap, ev, deliver_step(t, w, hmap, ev, s, cands[i]), cands, i + 1)
    }
}

/// The side effects applied unconditionally before per-node routing: a
/// resize rewrites the root's bounds and constraint, key events update the
/// keyboard table of the global singleton; every other kind leaves the
/// world untouched.
pub open spec fn global_effects_rel(w0: World, w1: World, ev: Event) -> bool {
    match ev.kind {
        EventKind::WindowResize { width, height } => {
            &&& w1.nodes@ == w0.nodes@.update(
                0,
                crate::world::NodeData {
                    bounds: Bounds { width, height, ..w0.nodes@[0].bounds },
                    constraint: Constraint { width, height },
                    ..w0.nodes@[0]
                },
            )
            &&& w1.global == w0.global
            &&& w1.theme == w0.theme
        },
        EventKind::KeyDown { key } => {
            &&& w1.nodes@ == w0.nodes@
            &&& w1.global.keyboard.wf()
            &&& w1.global.keyboard.spec_key_pressed(key)
            &&& forall|k: u32|
                k != key ==> #[trigger] w1.global.keyboard.spec_key_pressed(k)
                    == w0.global.keyboard.spec_key_pressed(k)
            &&& w1.global.focused == w0.global.focused
            &&& w1.theme == w0.theme
        },
        EventKind::KeyUp { key } => {
            &&& w1.nodes@ == w0.nodes@
            &&& w1.global.keyboard.wf()
            &&& !w1.global.keyboard.spec_key_pressed(key)
            &&& forall|k: u32|
                k != key ==> #[trigger] w1.global.keyboard.spec_key_pressed(k)
                    == w0.global.keyboard.spec_key_pressed(k)
            &&& w1.global.focused == w0.global.focused
            &&& w1.theme == w0.theme
        },
        _ => w1 == w0,
    }
}

/// The entities of `order`, in order, that have a registered state: the
/// entities the walker invokes.
pub open spec fn state_filter<S>(m: Map<Entity, S>, order: Seq<Entity>) -> Seq<Entity>
    decreases order.len(),
{
    if order.len() == 0 {
        Seq::empty()
    } else if m.contains_key(order[0]) {
        seq![order[0]] + state_filter(m, order.drop_first())
    } else {
        state_filter(m, order.drop_first())
    }
}

/// What one routing pass reports back.
pub struct RouteReport {
    /// Whether some handler fully handled the event.
    pub handled: bool,
    /// The candidate list, in source-to-root discovery order.
    pub matched: Vec<Entity>,
    /// The candidates whose handlers were consulted, in delivery order.
    pub visited: Vec<Entity>,
}

/// What one driver invocation reports back.
pub struct RunReport {
    /// Drain-plus-update cycles begun, the one cut short by a quit included.
    pub cycles: usize,
    /// Update phases performed.
    pub update_walks: usize,
    /// Events examined during drain phases, the quit event excluded.
    pub processed: usize,
    /// Whether a `Quit` system event halted the driver.
    pub quit: bool,
}

/// The relation `process_bottom_up_event` establishes between the system,
/// the world and its report: the global side effects are applied, the
/// candidate walk over the parent chain of the source determines the new
/// pressed set and the candidate list, and the delivery pass over the
/// reversed candidates determines who was consulted and whether the event
/// was handled.
pub open spec fn bottom_up_post<H: EventHandler, S: State>(
    t: Tree,
    sys0: EventStateSystem<H, S>,
    sys1: EventStateSystem<H, S>,
    w0: World,
    w1: World,
    ev: Event,
    mouse: Point,
    r: RouteReport,
) -> bool {
    let init = WalkState {
        clipped: Seq::empty(),
        matched: Seq::empty(),
        pressed: sys0.mouse_down_nodes@,
    };
    let ws = walk_nodes(t, w1, sys0.handlers@, ev, mouse, init, chain(t, ev.source), 0);
    let dinit = DeliverState { disabled_parent: None, visited: Seq::empty(), handled: false };
    let ds = deliver_nodes(t, w1, sys0.handlers@, ev, dinit, ws.matched.reverse(), 0);
    &&& global_effects_rel(w0, w1, ev)
    &&& sys1.handlers == sys0.handlers
    &&& sys1.states == sys0.states
    &&& sys1.running == sys0.running
    &&& sys1.mouse_down_nodes@ == ws.pressed
    &&& r.matched@ == ws.matched
    &&& r.visited@ == ds.visited
    &&& r.handled == ds.handled
    &&& sys1.update == (sys0.update || ev.kind is WindowResize || ds.visited.len() > 0)
}

/// What `route` promises for every strategy: `BottomUp` events with a
/// source inside the tree get the full bottom-up treatment; `TopDown` is
/// the reserved no-op, and everything else — a neutral strategy or a source
/// outside the tree — changes nothing and is reported unhandled.
pub open spec fn route_post<H: EventHandler, S: State>(
    t: Tree,
    sys0: EventStateSystem<H, S>,
    sys1: EventStateSystem<H, S>,
    w0: World,
    w1: World,
    ev: Event,
    mouse: Point,
    r: RouteReport,
) -> bool {
    if ev.strategy is BottomUp && ev.source < t.spec_len() {
        bottom_up_post(t, sys0, sys1, w0, w1, ev, mouse, r)
    } else {
        &&& sys1 == sys0
        &&& w1 == w0
        &&& !r.handled
        &&& r.matched@ == Seq::<Entity>::empty()
        &&& r.visited@ == Seq::<Entity>::empty()
    }
}

/// One whole drain phase as a relation: the system and the world evolve
/// from (`sys0`, `w0`) to (`sys1`, `w1`) by routing the events of the
/// snapshot one at a time, in order, each to completion before the next.
pub open spec fn drain_rel<H: EventHandler, S: State>(
    t: Tree,
    sys0: EventStateSystem<H, S>,
    w0: World,
    sys1: EventStateSystem<H, S>,
    w1: World,
    events: Seq<Event>,
    mouse: Point,
) -> bool
    decreases events.len(),
{
    if events.len() == 0 {
        sys1 == sys0 && w1 == w0
    } else {
        exists|mid: EventStateSystem<H, S>, wm: World, r: RouteReport|
            #[trigger] route_post(t, sys0, mid, w0, wm, events[0], mouse, r)
                && drain_rel(t, mid, wm, sys1, w1, events.drop_first(), mouse)
    }
}

/// A drain extends by one event at its end: routing `e` from the state the
/// fold reached continues the fold.
proof fn lemma_drain_rel_push<H: EventHandler, S: State>(
    t: Tree,
    sys0: EventStateSystem<H, S>,
    w0: World,
    sys_m: EventStateSystem<H, S>,
    w_m: World,
    sys1: EventStateSystem<H, S>,
    w1: World,
    events: Seq<Event>,
    e: Event,
    mouse: Point,
    r: RouteReport,
)
    requires
        drain_rel(t, sys0, w0, sys_m, w_m, events, mouse),
        route_post(t, sys_m, sys1, w_m, w1, e, mouse, r),
    ensures
        drain_rel(t, sys0, w0, sys1, w1, events.push(e), mouse),
    decreases events.len(),
{
    let pushed = events.push(e);
    if events.len() == 0 {
        assert(pushed[0] == e);
        assert(pushed.drop_first() =~= Seq::<Event>::empty());
        assert(sys_m == sys0 && w_m == w0);
        assert(drain_rel(t, sys1, w1, sys1, w1, pushed.drop_first(), mouse));
        assert(route_post(t, sys0, sys1, w0, w1, pushed[0], mouse, r));
    } else {
        let (mid, wm, r0): (EventStateSystem<H, S>, World, RouteReport) = choose|
            mid: EventStateSystem<H, S>,
            wm: World,
            r0: RouteReport,
        |
            #[trigger] route_post(t, sys0, mid, w0, wm, events[0], mouse, r0)
                && drain_rel(t, mid, wm, sys_m, w_m, events.drop_first(), mouse);
        lemma_drain_rel_push(t, mid, wm, sys_m, w_m, sys1, w1, events.drop_first(), e, mouse, r);
        assert(pushed[0] == events[0]);
        assert(pushed.drop_first() =~= events.drop_first().push(e));
        assert(route_post(t, sys0, mid, w0, wm, pushed[0], mouse, r0));
        assert(drain_rel(t, mid, wm, sys1, w1, pushed.drop_first(), mouse));
    }
}

/// With no state registered, the walker has nobody to invoke.
proof fn lemma_state_filter_empty<S>(m: Map<Entity, S>, order: Seq<Entity>)
    requires
        m == Map::<Entity, S>::empty(),
    ensures
        state_filter(m, order) == Seq::<Entity>::empty(),
    decreases order.len(),
{
    if order.len() > 0 {
        assert(m.dom() =~= Set::empty());
        lemma_state_filter_empty(m, order.drop_first());
    }
}

/// The event-and-state system: the handler and state registries, the
/// mouse-down pairing set and the dirty and running flags.
pub struct EventStateSystem<H: EventHandler, S: State> {
    pub handlers: EntityMap<Vec<H>>,
    pub states: EntityMap<S>,
    pub mouse_down_nodes: Vec<Entity>,
    /// The UI-dirty flag: set when routing changed something a re-layout or
    /// re-render must pick up.
    pub update: bool,
    /// Cleared by a `Quit` system event.
    pub running: bool,
}

impl<H: EventHandler, S: State> EventStateSystem<H, S> {
    pub open spec fn wf(self) -> bool {
        &&& self.handlers.wf()
        &&& self.states.wf()
        &&& unique_seq(self.mouse_down_nodes@)
    }

    pub fn new() -> (s: EventStateSystem<H, S>)
        ensures
            s.wf(),
            s.handlers@ == Map::<Entity, Vec<H>>::empty(),
            s.states@ == Map::<Entity, S>::empty(),
            s.mouse_down_nodes@ == Seq::<Entity>::empty(),
            !s.update,
            s.running,
    {
        EventStateSystem {
            handlers: EntityMap::new(),
            states: EntityMap::new(),
            mouse_down_nodes: Vec::new(),
            update: false,
            running: true,
        }
    }

    /// Decides the system's well-formedness, for a fail-fast check before
    /// entering the run loop on a system that was not populated through
    /// the registration methods alone.
    pub fn check_wf(&self) -> (r: bool)
        ensures
            r == self.wf(),
    {
        self.handlers.check_wf() && self.states.check_wf()
            && pressed_set_unique(&self.mouse_down_nodes)
    }

    /// Registers the ordered handler list of a fresh entity.
    pub fn register_handlers(&mut self, entity: Entity, handlers: Vec<H>)
        requires
            old(self).wf(),
            !old(self).handlers@.contains_key(entity),
        ensures
            final(self).wf(),
            final(self).handlers@ == old(self).handlers@.insert(entity, handlers),
            final(self).states == old(self).states,
            final(self).mouse_down_nodes == old(self).mouse_down_nodes,
            final(self).update == old(self).update,
            final(self).running == old(self).running,
    {
        self.handlers.insert(entity, handlers);
    }

    /// Registers the state object of a fresh entity.
    pub fn register_state(&mut self, entity: Entity, state: S)
        requires
            old(self).wf(),
            !old(self).states@.contains_key(entity),
        ensures
            final(self).wf(),
            final(self).states@ == old(self).states@.insert(entity, state),
            final(self).handlers == old(self).handlers,
            final(self).mouse_down_nodes == old(self).mouse_down_nodes,
            final(self).update == old(self).update,
            final(self).running == old(self).running,
    {
        self.states.insert(entity, state);
    }

    /// The index of the first occurrence of `e` in the pressed set.
    fn pressed_position(&self, e: Entity) -> (r: Option<usize>)
        ensures
            match r {
                Some(i) => {
                    &&& i < self.mouse_down_nodes@.len()
                    &&& self.mouse_down_nodes@[i as int] == e
                    &&& forall|j: int| 0 <= j < i ==> self.mouse_down_nodes@[j] != e
                },
                None => !self.mouse_down_nodes@.contains(e),
            },
    {
        let mut i: usize = 0;
        while i < self.mouse_down_nodes.len()
            invariant
                i <= self.mouse_down_nodes@.len(),
                forall|j: int| 0 <= j < i ==> self.mouse_down_nodes@[j] != e,
            decreases self.mouse_down_nodes@.len() - i,
        {
            if self.mouse_down_nodes[i] == e {
                return Some(i);
            }
            i = i + 1;
        }
        None
    }

    /// The reserved `TopDown` extension point: routing performs no
    /// hit-testing and reports the event unhandled.
    pub fn process_top_down_event(&self, _event: &Event) -> (handled: bool)
        ensures
            !handled,
    {
        false
    }

    /// The bottom-up candidate walk: visits the parent chain of the event's
    /// source and gathers the candidate list, updating the pressed set and
    /// the clipping stack on the way.
    fn collect_candidates(&mut self, mouse_position: Point, event: &Event, tree: &Tree, world: &World) -> (matched: Vec<Entity>)
        requires
            tree.wf(),
            world.wf_for(*tree),
            event.source < tree.spec_len(),
            old(self).wf(),
        ensures
            final(self).wf(),
            final(self).handlers == old(self).handlers,
            final(self).states == old(self).states,
            final(self).update == old(self).update,
            final(self).running == old(self).running,
            ({
                let init = WalkState {
                    clipped: Seq::empty(),
                    matched: Seq::empty(),
                    pressed: old(self).mouse_down_nodes@,
                };
                let ws = walk_nodes(
                    *tree,
                    *world,
                    old(self).handlers@,
                    *event,
                    mouse_position,
                    init,
                    chain(*tree, event.source),
                    0,
                );
                &&& matched@ == ws.matched
                &&& final(self).mouse_down_nodes@ == ws.pressed
            }),
            forall|k: int| 0 <= k < matched@.len() ==> (#[trigger] matched@[k]) < tree.spec_len(),
    {
        let ghost init = WalkState {
            clipped: Seq::empty(),
            matched: Seq::empty(),
            pressed: old(self).mouse_down_nodes@,
        };
        let chain_vec = parent_chain(tree, event.source);
        let ghost ch = chain_vec@;
        proof {
            lemma_chain_shape(*tree, event.source);
        }
        let mut matched: Vec<Entity> = Vec::new();
        let mut clipped: Vec<Entity> = Vec::new();
        let n = chain_vec.len();
        for i in 0..n
            invariant
                tree.wf(),
                world.wf_for(*tree),
                self.wf(),
                self.handlers == old(self).handlers,
                self.states == old(self).states,
                self.update == old(self).update,
                self.running == old(self).running,
                n == ch.len(),
                ch == chain_vec@,
                forall|k: int| 0 <= k < ch.len() ==> (#[trigger] ch[k]) < tree.spec_len(),
                forall|k: int| 0 <= k < clipped@.len() ==> (#[trigger] clipped@[k]) < tree.spec_len(),
                forall|k: int| 0 <= k < matched@.len() ==> (#[trigger] matched@[k]) < tree.spec_len(),
                walk_nodes(
                    *tree,
                    *world,
                    old(self).handlers@,
                    *event,
                    mouse_position,
                    init,
                    ch,
                    0,
                ) == walk_nodes(
                    *tree,
                    *world,
                    old(self).handlers@,
                    *event,
                    mouse_position,
                    WalkState {
                        clipped: clipped@,
                        matched: matched@,
                        pressed: self.mouse_down_nodes@,
                    },
                    ch,
                    i as int,
                ),
        {
            let ghost s_entry = WalkState {
                clipped: clipped@,
                matched: matched@,
                pressed: self.mouse_down_nodes@,
            };
            let node = chain_vec[i];

            // clip-stack bookkeeping
            if clipped.len() > 0 {
                let cp = clipped[clipped.len() - 1];
                let same = match tree.parent_of(node) {
                    Some(p) => p == cp,
                    None => false,
                };
                if same {
                    clipped.push(node);
                } else {
                    let _ = clipped.pop();
                    proof {
                        assert(clipped@ =~= s_entry.clipped.drop_last());
                    }
                }
            }
            let ghost s1 = clip_bookkeeping(*tree, s_entry, node);
            proof {
                assert(s1 == (WalkState {
                    clipped: clipped@,
                    matched: matched@,
                    pressed: self.mouse_down_nodes@,
                }));
            }

            // per-kind matching
            match event.kind {
                EventKind::KeyDown { .. } | EventKind::KeyUp { .. } => {
                    let focused_here = match world.global.focused {
                        Some(f) => f == node,
                        None => false,
                    };
                    if focused_here {
                        matched.push(node);
                    }
                },
                EventKind::Scroll => {
                    if world.check_mouse_condition(mouse_position, node) {
                        matched.push(node);
                    }
                },
                EventKind::Click { position } | EventKind::MouseDown { position } => {
                    if world.check_mouse_condition(position, node) {
                        let mut add = true;
                        if clipped.len() > 0 {
                            let op = clipped[0];
                            if !world.check_mouse_condition(position, op) {
                                add = false;
                            }
                        }
                        if add {
                            matched.push(node);
                            self.press(node);
                        }
                    }
                },
                EventKind::MouseUp => {
                    match self.pressed_position(node) {
                        Some(pos) => {
                            matched.push(node);
                            proof {
                                let p = self.mouse_down_nodes@;
                                p.index_of_first_ensures(node);
                                assert(p.contains(node));
                                match p.index_of_first(node) {
                                    Some(idx) => {
                                        assert(idx == pos as int);
                                    },
                                    None => {
                                        assert(false);
                                    },
                                }
                                p.remove_ensures(pos as int);
                            }
                            self.mouse_down_nodes.remove(pos);
                            proof {
                                lemma_unique_after_remove(
                                    s_entry.pressed,
                                    self.mouse_down_nodes@,
                                    pos as int,
                                );
                            }
                        },
                        None => {},
                    }
                },
                EventKind::WindowResize { .. } | EventKind::SystemQuit | EventKind::Custom {
                    ..
                } => {
                    if world.node(node).enabled {
                        match self.handlers.get(node) {
                            Some(hs) => {
                                if any_handler_handles(hs, event) {
                                    matched.push(node);
                                }
                            },
                            None => {},
                        }
                    }
                },
            }
            let ghost s2 = match_node(
                *tree,
                *world,
                old(self).handlers@,
                *event,
                mouse_position,
                s1,
                node,
            );
            proof {
                assert(s2 == (WalkState {
                    clipped: clipped@,
                    matched: matched@,
                    pressed: self.mouse_down_nodes@,
                }));
            }

            // record the nearest clip region
            if world.node(node).clip {
                clipped.clear();
                clipped.push(node);
            }
            proof {
                let s3 = clip_record(*world, s2, node);
                assert(s3 == (WalkState {
                    clipped: clipped@,
                    matched: matched@,
                    pressed: self.mouse_down_nodes@,
                }));
                assert(s3 == visit_node(
                    *tree,
                    *world,
                    old(self).handlers@,
                    *event,
                    mouse_position,
                    s_entry,
                    node,
                ));
            }
        }
        matched
    }

    /// The delivery pass: consults the candidates in reverse (root-to-source)
    /// order, skipping candidate chains under a disabled node, and runs each
    /// visited candidate's handlers in registration order until the first
    /// one fully handles the event, which stops delivery altogether.
    fn deliver_candidates(&mut self, event: &Event, tree: &Tree, world: &World, matched: &Vec<Entity>) -> (r: (bool, Vec<Entity>))
        requires
            tree.wf(),
            world.wf_for(*tree),
            old(self).wf(),
            forall|k: int| 0 <= k < matched@.len() ==> (#[trigger] matched@[k]) < tree.spec_len(),
        ensures
            final(self).wf(),
            final(self).handlers == old(self).handlers,
            final(self).states == old(self).states,
            final(self).running == old(self).running,
            final(self).mouse_down_nodes == old(self).mouse_down_nodes,
            ({
                let dinit = DeliverState {
                    disabled_parent: None,
                    visited: Seq::empty(),
                    handled: false,
                };
                let ds = deliver_nodes(
                    *tree,
                    *world,
                    old(self).handlers@,
                    *event,
                    dinit,
                    matched@.reverse(),
                    0,
                );
                &&& r.0 == ds.handled
                &&& r.1@ == ds.visited
                &&& final(self).update == (old(self).update || ds.visited.len() > 0)
            }),
    {
        let ghost dinit = DeliverState {
            disabled_parent: None,
            visited: Seq::empty(),
            handled: false,
        };
        let ghost rev = matched@.reverse();
        let mut handled = false;
        let mut visited: Vec<Entity> = Vec::new();
        let mut disabled_parent: Option<Entity> = None;
        let n = matched.len();
        for i in 0..n
            invariant
                tree.wf(),
                world.wf_for(*tree),
                self.wf(),
                self.handlers == old(self).handlers,
                self.states == old(self).states,
                self.running == old(self).running,
                self.mouse_down_nodes == old(self).mouse_down_nodes,
                n == matched@.len(),
                rev == matched@.reverse(),
                forall|k: int| 0 <= k < matched@.len()
                    ==> (#[trigger] matched@[k]) < tree.spec_len(),
                self.update == (old(self).update || visited@.len() > 0),
                deliver_nodes(*tree, *world, old(self).handlers@, *event, dinit, rev, 0)
                    == deliver_nodes(
                    *tree,
                    *world,
                    old(self).handlers@,
                    *event,
                    DeliverState {
                        disabled_parent,
                        visited: visited@,
                        handled,
                    },
                    rev,
                    i as int,
                ),
        {
            let ghost s_entry = DeliverState {
                disabled_parent,
                visited: visited@,
                handled,
            };
            let node = matched[n - 1 - i];
            proof {
                assert(rev[i as int] == node);
            }
            if !handled {
                let mut skip = false;
                match disabled_parent {
                    Some(dp) => {
                        let same = match tree.parent_of(node) {
                            Some(p) => p == dp,
                            None => false,
                        };
                        if same {
                            disabled_parent = Some(node);
                            skip = true;
                        } else {
                            disabled_parent = None;
                        }
                    },
                    None => {},
                }
                if !skip {
                    if !world.node(node).enabled {
                        disabled_parent = Some(node);
                    } else {
                        match self.handlers.get(node) {
                            Some(hs) => {
                                visited.push(node);
                                handled = invoke_handlers(hs, event);
                                self.update = true;
                            },
                            None => {},
                        }
                    }
                }
            }
            proof {
                assert(deliver_step(*tree, *world, old(self).handlers@, *event, s_entry, node)
                    == (DeliverState {
                    disabled_parent,
                    visited: visited@,
                    handled,
                }));
            }
        }
        (handled, visited)
    }

    /// Routes one `BottomUp` event: applies the global side effects, walks
    /// the parent chain of the source to gather candidates, then delivers
    /// them in root-to-source order.
    pub fn process_bottom_up_event(&mut self, mouse_position: Point, event: &Event, tree: &Tree, world: &mut World) -> (r: RouteReport)
        requires
            tree.wf(),
            old(world).wf_for(*tree),
            event.source < tree.spec_len(),
            old(self).wf(),
        ensures
            final(self).wf(),
            final(world).wf_for(*tree),
            bottom_up_post(
                *tree,
                *old(self),
                *final(self),
                *old(world),
                *final(world),
                *event,
                mouse_position,
                r,
            ),
    {
        match event.kind {
            EventKind::WindowResize { width, height } => {
                let root = tree.root();
                let b = world.node(root).bounds;
                world.set_bounds(root, Bounds { x: b.x, y: b.y, width, height });
                world.set_constraint(root, Constraint { width, height });
                self.update = true;
                proof {
                    assert(world.nodes@ =~= old(world).nodes@.update(
                        0,
                        crate::world::NodeData {
                            bounds: Bounds { width, height, ..old(world).nodes@[0].bounds },
                            constraint: Constraint { width, height },
                            ..old(world).nodes@[0]
                        },
                    ));
                }
            },
            EventKind::KeyDown { key } => {
                world.global.keyboard.set_key_state(key, true);
            },
            EventKind::KeyUp { key } => {
                world.global.keyboard.set_key_state(key, false);
            },
            _ => {},
        }
        let matched = self.collect_candidates(mouse_position, event, tree, world);
        let (handled, visited) = self.deliver_candidates(event, tree, world, &matched);
        RouteReport { handled, matched, visited }
    }

    /// Routes one event according to its dispatch strategy. `TopDown` is
    /// the reserved no-op; a `BottomUp` event whose source lies outside the
    /// tree, or an event with a neutral strategy, changes nothing and is
    /// reported unhandled.
    pub fn route(&mut self, mouse_position: Point, event: &Event, tree: &Tree, world: &mut World) -> (r: RouteReport)
        requires
            tree.wf(),
            old(world).wf_for(*tree),
            old(self).wf(),
        ensures
            final(self).wf(),
            final(world).wf_for(*tree),
            route_post(
                *tree,
                *old(self),
                *final(self),
                *old(world),
                *final(world),
                *event,
                mouse_position,
                r,
            ),
    {
        match event.strategy {
            EventStrategy::BottomUp => {
                if event.source < tree.len() {
                    self.process_bottom_up_event(mouse_position, event, tree, world)
                } else {
                    RouteReport { handled: false, matched: Vec::new(), visited: Vec::new() }
                }
            },
            EventStrategy::TopDown => {
                let handled = self.process_top_down_event(event);
                RouteReport { handled, matched: Vec::new(), visited: Vec::new() }
            },
            EventStrategy::Direct => {
                RouteReport { handled: false, matched: Vec::new(), visited: Vec::new() }
            },
        }
    }

    /// The state-update walker: one full pre-order walk that invokes the
    /// update hook of every entity with a registered state, in traversal
    /// order, and skips every other entity with no effect. Returns the
    /// entities whose hook ran.
    pub fn walk_states(&self, tree: &Tree, world: &mut World, queue: &mut EventQueue) -> (updated: Vec<Entity>)
        requires
            tree.wf(),
            old(world).wf_for(*tree),
            self.states.wf(),
        ensures
            final(world).wf_for(*tree),
            updated@ == state_filter(self.states@, preorder(*tree, 0)),
            updated@.len() == 0 ==> *final(world) == *old(world)
                && *final(queue) == *old(queue),
    {
        let order = preorder_vec(tree, 0);
        proof {
            crate::tree::lemma_preorder_bounds(*tree, 0);
            assert(Seq::<Entity>::empty() + state_filter(self.states@, order@.skip(0))
                =~= state_filter(self.states@, order@.skip(0)));
            assert(order@.skip(0) =~= order@);
        }
        let mut updated: Vec<Entity> = Vec::new();
        let n = order.len();
        for i in 0..n
            invariant
                tree.wf(),
                world.wf_for(*tree),
                self.states.wf(),
                n == order@.len(),
                order@ == preorder(*tree, 0),
                forall|k: int| 0 <= k < n ==> (#[trigger] order@[k]) < tree.spec_len(),
                updated@ + state_filter(self.states@, order@.skip(i as int))
                    == state_filter(self.states@, order@),
                updated@.len() == 0 ==> *world == *old(world) && *queue == *old(queue),
        {
            let e = order[i];
            proof {
                let tail = order@.skip(i as int);
                assert(tail[0] == order@[i as int]);
                assert(tail.drop_first() =~= order@.skip(i as int + 1));
                assert((updated@ + seq![e]) + state_filter(self.states@, tail.drop_first())
                    =~= updated@ + (seq![e] + state_filter(self.states@, tail.drop_first())));
            }
            match self.states.get(e) {
                Some(st) => {
                    updated.push(e);
                    st.update(e, world, queue);
                },
                None => {},
            }
        }
        proof {
            assert(state_filter(self.states@, order@.skip(n as int))
                =~= Seq::<Entity>::empty());
            assert(updated@ + Seq::<Entity>::empty() =~= updated@);
        }
        updated
    }

    /// The run-loop driver: repeats drain-dispatch-update cycles until the
    /// queue is quiescent, a `Quit` system event is observed, or the cycle
    /// budget is spent. Each cycle routes a snapshot of the queue — events
    /// enqueued while a cycle runs are processed in the next one — and then
    /// performs one full state walk. A `Quit` halts the driver at once: the
    /// rest of the snapshot is discarded and no update phase runs for that
    /// cycle. `max_cycles` bounds how many cycles a single invocation may
    /// take to settle cascades of events enqueued by state updates.
    pub fn run(&mut self, tree: &Tree, world: &mut World, queue: &mut EventQueue, mouse_position: Point, max_cycles: usize) -> (r: RunReport)
        requires
            tree.wf(),
            old(world).wf_for(*tree),
            old(self).wf(),
            max_cycles >= 1,
        ensures
            final(self).wf(),
            final(world).wf_for(*tree),
            r.quit ==> !final(self).running,
            r.quit ==> final(queue).events@.len() == 0,
            r.quit && r.cycles == 1 ==> has_quit(old(queue).events@),
            !r.quit ==> final(self).running == old(self).running,
            !r.quit ==> final(queue).events@.len() == 0 || r.cycles == max_cycles,
            1 <= r.cycles <= max_cycles,
            !r.quit ==> r.update_walks == r.cycles,
            r.quit ==> r.update_walks + 1 == r.cycles,
            !has_quit(old(queue).events@) ==> r.processed >= old(queue).events@.len(),
            has_quit(old(queue).events@) ==> r.quit && r.cycles == 1 && r.update_walks == 0
                && r.processed == first_quit_index(old(queue).events@)
                && (exists|mid: EventStateSystem<H, S>|
                    (#[trigger] drain_rel(
                        *tree,
                        *old(self),
                        *old(world),
                        mid,
                        *final(world),
                        old(queue).events@.take(first_quit_index(old(queue).events@)),
                        mouse_position,
                    )) && *final(self) == (EventStateSystem { running: false, ..mid })),
            !has_quit(old(queue).events@) && old(self).states@ == Map::<Entity, S>::empty()
                ==> !r.quit && r.cycles == 1 && r.update_walks == 1
                    && r.processed == old(queue).events@.len()
                    && final(queue).events@.len() == 0
                    && drain_rel(
                    *tree,
                    *old(self),
                    *old(world),
                    *final(self),
                    *final(world),
                    old(queue).events@,
                    mouse_position,
                ),
    {
        let mut cycles: usize = 0;
        let mut processed: usize = 0;
        loop
            invariant
                tree.wf(),
                world.wf_for(*tree),
                self.wf(),
                self.running == old(self).running,
                self.states == old(self).states,
                cycles < max_cycles,
                max_cycles >= 1,
                cycles == 0 ==> queue.events@ == old(queue).events@ && processed == 0
                    && *self == *old(self) && *world == *old(world),
                cycles >= 1 ==> !has_quit(old(queue).events@),
                cycles >= 1 ==> old(self).states@ != Map::<Entity, S>::empty(),
                cycles >= 1 ==> processed >= old(queue).events@.len(),
            decreases max_cycles - cycles,
        {
            let ghost cycles_pre = cycles;
            cycles = cycles + 1;
            let drained = queue.drain_all();
            let ghost snapshot = drained@;
            let ghost sys_start = *self;
            let ghost w_start = *world;
            proof {
                assert(snapshot.take(0) =~= Seq::<Event>::empty());
            }
            let dn = drained.len();
            for i in 0..dn
                invariant
                    tree.wf(),
                    world.wf_for(*tree),
                    self.wf(),
                    self.running == old(self).running,
                    self.states == old(self).states,
                    queue.events@.len() == 0,
                    dn == snapshot.len(),
                    drained@ == snapshot,
                    1 <= cycles <= max_cycles,
                    cycles == cycles_pre + 1,
                    forall|k: int| 0 <= k < i ==> !(#[trigger] snapshot[k]).is_quit(),
                    cycles == 1 ==> processed == i && snapshot == old(queue).events@
                        && sys_start == *old(self) && w_start == *old(world),
                    cycles_pre >= 1 ==> !has_quit(old(queue).events@),
                    cycles_pre >= 1 ==> old(self).states@ != Map::<Entity, S>::empty(),
                    cycles_pre >= 1 ==> processed >= old(queue).events@.len(),
                    drain_rel(
                        *tree,
                        sys_start,
                        w_start,
                        *self,
                        *world,
                        snapshot.take(i as int),
                        mouse_position,
                    ),
            {
                let ev = drained[i];
                let quit_now = match ev.kind {
                    EventKind::SystemQuit => true,
                    _ => false,
                };
                if quit_now {
                    let ghost mid = *self;
                    self.running = false;
                    proof {
                        if cycles == 1 {
                            crate::event::lemma_first_quit_index(snapshot, i as int);
                            assert(old(queue).events@[i as int].is_quit());
                            assert(*self == (EventStateSystem { running: false, ..mid }));
                            assert(old(queue).events@.take(i as int) == snapshot.take(i as int));
                        }
                    }
                    return RunReport {
                        cycles,
                        update_walks: cycles - 1,
                        processed,
                        quit: true,
                    };
                }
                let ghost sys_before = *self;
                let ghost w_before = *world;
                let report = self.route(mouse_position, &ev, tree, world);
                proof {
                    lemma_drain_rel_push(
                        *tree,
                        sys_start,
                        w_start,
                        sys_before,
                        w_before,
                        *self,
                        *world,
                        snapshot.take(i as int),
                        ev,
                        mouse_position,
                        report,
                    );
                    assert(snapshot.take(i as int).push(snapshot[i as int])
                        =~= snapshot.take(i as int + 1));
                }
                processed = bump(processed);
            }
            let updated = self.walk_states(tree, world, queue);
            proof {
                if old(self).states@ == Map::<Entity, S>::empty() {
                    lemma_state_filter_empty::<S>(self.states@, preorder(*tree, 0));
                }
                assert(snapshot.take(dn as int) =~= snapshot);
            }
            if queue.len() == 0 {
                return RunReport { cycles, update_walks: cycles, processed, quit: false };
            }
            if cycles == max_cycles {
                return RunReport { cycles, update_walks: cycles, processed, quit: false };
            }
        }
    }

    /// Adds `node` to the pressed set unless it is already there.
    fn press(&mut self, node: Entity)
        requires
            unique_seq(old(self).mouse_down_nodes@),
        ensures
            final(self).mouse_down_nodes@ == press_insert(old(self).mouse_down_nodes@, node),
            unique_seq(final(self).mouse_down_nodes@),
            final(self).handlers == old(self).handlers,
            final(self).states == old(self).states,
            final(self).update == old(self).update,
            final(self).running == old(self).running,
    {
        match self.pressed_position(node) {
            Some(_) => {},
            None => {
                self.mouse_down_nodes.push(node);
                proof {
                    let oldp = old(self).mouse_down_nodes@;
                    let newp = self.mouse_down_nodes@;
                    assert forall|a: int, b: int|
                        0 <= a < b < newp.len() implies newp[a] != newp[b] by {
                        if b == newp.len() - 1 {
                            assert(newp[a] == oldp[a]);
                            assert(!oldp.contains(node));
                        }
                    }
                }
            },
        }
    }
}

/// Decides whether the pressed set lists no entity twice.
fn pressed_set_unique(v: &Vec<Entity>) -> (r: bool)
    ensures
        r == unique_seq(v@),
{
    let n = v.len();
    let mut i: usize = 0;
    while i < n
        invariant
            i <= n,
            n == v@.len(),
            forall|a: int, b: int| 0 <= a < b < n && a < i ==> v@[a] != v@[b],
        decreases n - i,
    {
        let mut j: usize = i + 1;
        while j < n
            invariant
                i < j <= n,
                n == v@.len(),
                forall|b: int| i < b < j ==> v@[i as int] != #[trigger] v@[b],
            decreases n - j,
        {
            if v[i] == v[j] {
                return false;
            }
            j = j + 1;
        }
        i = i + 1;
    }
    true
}

/// Adds one, stopping at the top of the counter's range instead of
/// wrapping.
fn bump(x: usize) -> (r: usize)
    ensures
        x < usize::MAX ==> r == x + 1,
        x == usize::MAX ==> r == x,
        r >= 1,
        r >= x,
{
    if x < usize::MAX {
        x + 1
    } else {
        x
    }
}

/// Runs the handlers in registration order until the first fully handles
/// the event; reports whether one did.
fn invoke_handlers<H: EventHandler>(hs: &Vec<H>, event: &Event) -> (r: bool)
    ensures
        r == exists|j: int| 0 <= j < hs@.len() && (#[trigger] hs@[j]).spec_consumes(*event),
{
    let mut j: usize = 0;
    while j < hs.len()
        invariant
            j <= hs@.len(),
            forall|k: int| 0 <= k < j ==> !(#[trigger] hs@[k]).spec_consumes(*event),
        decreases hs@.len() - j,
    {
        if hs[j].handle_event(event) {
            return true;
        }
        j = j + 1;
    }
    false
}

/// True when some handler of the list is interested in the event.
fn any_handler_handles<H: EventHandler>(hs: &Vec<H>, event: &Event) -> (r: bool)
    ensures
        r == exists|j: int| 0 <= j < hs@.len() && (#[trigger] hs@[j]).spec_handles(*event),
{
    let mut j: usize = 0;
    while j < hs.len()
        invariant
            j <= hs@.len(),
            forall|k: int| 0 <= k < j ==> !(#[trigger] hs@[k]).spec_handles(*event),
        decreases hs@.len() - j,
    {
        if hs[j].handles_event(event) {
            return true;
        }
        j = j + 1;
    }
    false
}

/// LAW: an entity with no registered state is never invoked by the walker,
/// whatever traversal order the tree yields.
pub proof fn lemma_walker_skips_stateless<S>(m: Map<Entity, S>, order: Seq<Entity>, e: Entity)
    requires
        !m.contains_key(e),
    ensures
        !state_filter(m, order).contains(e),
    decreases order.len(),
{
    if order.len() > 0 {
        lemma_walker_skips_stateless(m, order.drop_first(), e);
        if m.contains_key(order[0]) {
            let whole = seq![order[0]] + state_filter(m, order.drop_first());
            assert(order[0] != e);
            assert forall|k: int| 0 <= k < whole.len() implies whole[k] != e by {
                if k > 0 {
                    assert(whole[k] == state_filter(m, order.drop_first())[k - 1]);
                    assert(!state_filter(m, order.drop_first()).contains(e));
                }
            }
        }
    }
}

/// The walker invokes exactly the walked entities that have a registered
/// state.
pub proof fn lemma_state_filter_membership<S>(m: Map<Entity, S>, order: Seq<Entity>)
    ensures
        forall|e: Entity|
            state_filter(m, order).contains(e) <==> (order.contains(e) && m.contains_key(e)),
    decreases order.len(),
{
    if order.len() > 0 {
        let rest = order.drop_first();
        lemma_state_filter_membership(m, rest);
        assert forall|e: Entity|
            order.contains(e) <==> (e == order[0] || rest.contains(e)) by {
            if order.contains(e) {
                let k = choose|k: int| 0 <= k < order.len() && order[k] == e;
                if k > 0 {
                    assert(rest[k - 1] == e);
                }
            }
            if rest.contains(e) {
                let k = choose|k: int| 0 <= k < rest.len() && rest[k] == e;
                assert(order[k + 1] == e);
            }
        }
        if m.contains_key(order[0]) {
            let whole = seq![order[0]] + state_filter(m, rest);
            assert forall|e: Entity|
                whole.contains(e) <==> (e == order[0] || state_filter(m, rest).contains(e)) by {
                if whole.contains(e) {
                    let k = choose|k: int| 0 <= k < whole.len() && whole[k] == e;
                    if k > 0 {
                        assert(whole[k] == state_filter(m, rest)[k - 1]);
                        assert(state_filter(m, rest).contains(e));
                    }
                }
                assert(whole[0] == order[0]);
                if state_filter(m, rest).contains(e) {
                    let k = choose|k: int|
                        0 <= k < state_filter(m, rest).len() && state_filter(m, rest)[k] == e;
                    assert(whole[k + 1] == e);
                }
            }
            assert(state_filter(m, order) == whole);
            assert forall|e: Entity|
                state_filter(m, order).contains(e)
                    <==> (order.contains(e) && m.contains_key(e)) by {
                assert(state_filter(m, rest).contains(e)
                    <==> (rest.contains(e) && m.contains_key(e)));
                assert(order.contains(e) <==> (e == order[0] || rest.contains(e)));
                if e == order[0] {
                    assert(whole.contains(e) && order.contains(e));
                }
            }
        } else {
            assert(state_filter(m, order) == state_filter(m, rest));
            assert forall|e: Entity|
                state_filter(m, order).contains(e)
                    <==> (order.contains(e) && m.contains_key(e)) by {
                assert(state_filter(m, rest).contains(e)
                    <==> (rest.contains(e) && m.contains_key(e)));
                assert(order.contains(e) <==> (e == order[0] || rest.contains(e)));
                if e == order[0] {
                    assert(!m.contains_key(e));
                }
            }
        }
    }
}

/// LAW: over a duplicate-free traversal — which the tree's pre-order walk
/// is — the walker invokes each entity with a registered state exactly
/// once per run cycle: the update list holds it once, and holds nothing
/// else.
pub proof fn lemma_walker_updates_each_state_once<S>(m: Map<Entity, S>, order: Seq<Entity>)
    requires
        forall|i: int, j: int| 0 <= i < j < order.len() ==> order[i] != order[j],
    ensures
        forall|i: int, j: int|
            0 <= i < j < state_filter(m, order).len()
                ==> #[trigger] state_filter(m, order)[i] != #[trigger] state_filter(m, order)[j],
        forall|e: Entity|
            state_filter(m, order).contains(e) <==> (order.contains(e) && m.contains_key(e)),
    decreases order.len(),
{
    lemma_state_filter_membership(m, order);
    if order.len() > 0 {
        let rest = order.drop_first();
        assert forall|i: int, j: int|
            0 <= i < j < rest.len() implies rest[i] != rest[j] by {
            assert(rest[i] == order[i + 1] && rest[j] == order[j + 1]);
        }
        lemma_walker_updates_each_state_once(m, rest);
        if m.contains_key(order[0]) {
            let whole = seq![order[0]] + state_filter(m, rest);
            assert(!rest.contains(order[0])) by {
                if rest.contains(order[0]) {
                    let k = choose|k: int| 0 <= k < rest.len() && rest[k] == order[0];
                    assert(order[k + 1] == order[0]);
                }
            }
            lemma_state_filter_membership(m, rest);
            assert forall|i: int, j: int|
                0 <= i < j < whole.len() implies #[trigger] whole[i] != #[trigger] whole[j] by {
                if i == 0 {
                    assert(whole[0] == order[0]);
                    assert(whole[j] == state_filter(m, rest)[j - 1]);
                    assert(state_filter(m, rest).contains(state_filter(m, rest)[j - 1]));
                } else {
                    assert(whole[i] == state_filter(m, rest)[i - 1]);
                    assert(whole[j] == state_filter(m, rest)[j - 1]);
                }
            }
        }
    }
}

/// Adding `v` to a duplicate-free pressed set keeps it duplicate-free and
/// adds exactly `v`.
pub proof fn lemma_press_insert_membership(p: Seq<Entity>, v: Entity)
    requires
        unique_seq(p),
    ensures
        unique_seq(press_insert(p, v)),
        forall|e: Entity| press_insert(p, v).contains(e) <==> (p.contains(e) || e == v),
{
    if !p.contains(v) {
        let q = p.push(v);
        assert forall|a: int, b: int| 0 <= a < b < q.len() implies q[a] != q[b] by {
            if b == q.len() - 1 {
                assert(q[a] == p[a]);
            }
        }
        assert forall|e: Entity| q.contains(e) implies (p.contains(e) || e == v) by {
            let k = choose|k: int| 0 <= k < q.len() && q[k] == e;
            if k < p.len() {
                assert(p[k] == e);
            }
        }
        assert forall|e: Entity| p.contains(e) implies q.contains(e) by {
            let k = choose|k: int| 0 <= k < p.len() && p[k] == e;
            assert(q[k] == e);
        }
        assert(q.last() == v);
    }
}

/// Removing `v` from a duplicate-free pressed set that holds it keeps the
/// set duplicate-free and removes exactly `v`.
pub proof fn lemma_remove_value_membership(p: Seq<Entity>, v: Entity)
    requires
        unique_seq(p),
        p.contains(v),
    ensures
        unique_seq(p.remove_value(v)),
        forall|e: Entity| p.remove_value(v).contains(e) <==> (p.contains(e) && e != v),
{
    p.index_of_first_ensures(v);
    match p.index_of_first(v) {
        Some(i) => {
            let q = p.remove(i);
            p.remove_ensures(i);
            lemma_unique_after_remove(p, q, i);
            assert forall|e: Entity| q.contains(e) implies (p.contains(e) && e != v) by {
                let k = choose|k: int| 0 <= k < q.len() && q[k] == e;
                if k < i {
                    assert(p[k] == e);
                } else {
                    assert(p[k + 1] == e);
                }
            }
            assert forall|e: Entity| p.contains(e) && e != v implies q.contains(e) by {
                let k = choose|k: int| 0 <= k < p.len() && p[k] == e;
                if k < i {
                    assert(q[k] == e);
                } else {
                    assert(k != i);
                    assert(q[k - 1] == e);
                }
            }
        },
        None => {
            assert(false);
        },
    }
}

/// LAW: mouse-down pairing, the press half. Routing a mouse-down or a
/// click keeps the pressed set duplicate-free — a hit pushes its entity at
/// most once — never un-presses an entity, only extends the candidate
/// list, and presses exactly the entities it newly matched.
pub proof fn lemma_walk_pressed_mouse_down<H: EventHandler>(
    t: Tree,
    w: World,
    hmap: Map<Entity, Vec<H>>,
    ev: Event,
    mouse: Point,
    s: WalkState,
    ch: Seq<Entity>,
    i: int,
)
    requires
        0 <= i <= ch.len(),
        unique_seq(s.pressed),
        ev.kind is MouseDown || ev.kind is Click,
    ensures
        ({
            let out = walk_nodes(t, w, hmap, ev, mouse, s, ch, i);
            &&& unique_seq(out.pressed)
            &&& out.matched.len() >= s.matched.len()
            &&& out.matched.take(s.matched.len() as int) == s.matched
            &&& forall|e: Entity|
                out.pressed.contains(e) <==> (s.pressed.contains(e)
                    || out.matched.skip(s.matched.len() as int).contains(e))
        }),
    decreases ch.len() - i,
{
    let out = walk_nodes(t, w, hmap, ev, mouse, s, ch, i);
    if i == ch.len() {
        assert(out == s);
        assert(out.matched.take(s.matched.len() as int) =~= s.matched);
        assert(out.matched.skip(s.matched.len() as int) =~= Seq::<Entity>::empty());
        assert forall|e: Entity|
            out.pressed.contains(e) <==> (s.pressed.contains(e)
                || out.matched.skip(s.matched.len() as int).contains(e)) by {
            assert(!Seq::<Entity>::empty().contains(e));
        }
    } else {
        let node = ch[i];
        let s1 = visit_node(t, w, hmap, ev, mouse, s, node);
        assert(s1.matched == s.matched || s1.matched == s.matched.push(node));
        assert(s1.pressed == s.pressed || s1.pressed == press_insert(s.pressed, node));
        lemma_press_insert_membership(s.pressed, node);
        lemma_walk_pressed_mouse_down(t, w, hmap, ev, mouse, s1, ch, i + 1);
        assert(out == walk_nodes(t, w, hmap, ev, mouse, s1, ch, i + 1));
        assert(out.matched.take(s1.matched.len() as int) == s1.matched);
        assert(out.matched.take(s.matched.len() as int)
            =~= out.matched.take(s1.matched.len() as int).take(s.matched.len() as int));
        assert(s1.matched.take(s.matched.len() as int) =~= s.matched);
        if s1.matched == s.matched.push(node) {
            let m0 = s.matched.len() as int;
            assert(out.matched[m0] == s1.matched[m0]);
            assert(s1.matched[m0] == node);
            assert forall|e: Entity|
                out.matched.skip(m0).contains(e)
                    <==> (e == node || out.matched.skip(m0 + 1).contains(e)) by {
                let tail0 = out.matched.skip(m0);
                let tail1 = out.matched.skip(m0 + 1);
                if tail0.contains(e) {
                    let k = choose|k: int| 0 <= k < tail0.len() && tail0[k] == e;
                    if k == 0 {
                        assert(tail0[0] == out.matched[m0]);
                    } else {
                        assert(tail0[k] == tail1[k - 1]);
                    }
                }
                if e == node {
                    assert(tail0[0] == e);
                }
                if tail1.contains(e) {
                    let k = choose|k: int| 0 <= k < tail1.len() && tail1[k] == e;
                    assert(tail0[k + 1] == e);
                }
            }
        } else {
            assert(s1.matched.len() == s.matched.len());
            assert(s1.pressed == s.pressed);
        }
    }
}

/// LAW: mouse-down pairing, the release half. Routing a mouse-up matches
/// exactly the walked entities that are pressed, removes each matched
/// entity from the pressed set exactly once, and — when nothing walked is
/// pressed — matches nothing and leaves the pressed set untouched.
pub proof fn lemma_walk_pressed_mouse_up<H: EventHandler>(
    t: Tree,
    w: World,
    hmap: Map<Entity, Vec<H>>,
    ev: Event,
    mouse: Point,
    s: WalkState,
    ch: Seq<Entity>,
    i: int,
)
    requires
        0 <= i <= ch.len(),
        unique_seq(s.pressed),
        forall|a: int, b: int| i <= a < b < ch.len() ==> ch[a] != ch[b],
        ev.kind is MouseUp,
    ensures
        ({
            let out = walk_nodes(t, w, hmap, ev, mouse, s, ch, i);
            &&& unique_seq(out.pressed)
            &&& forall|e: Entity|
                out.pressed.contains(e) <==> (s.pressed.contains(e) && !ch.skip(i).contains(e))
            &&& forall|e: Entity|
                out.matched.contains(e) <==> (s.matched.contains(e)
                    || (ch.skip(i).contains(e) && s.pressed.contains(e)))
        }),
    decreases ch.len() - i,
{
    let out = walk_nodes(t, w, hmap, ev, mouse, s, ch, i);
    if i == ch.len() {
        assert(out == s);
        assert(ch.skip(i) =~= Seq::<Entity>::empty());
        assert forall|e: Entity| !ch.skip(i).contains(e) by {
            assert(!Seq::<Entity>::empty().contains(e));
        }
    } else {
        let node = ch[i];
        let s1 = visit_node(t, w, hmap, ev, mouse, s, node);
        assert forall|e: Entity|
            ch.skip(i).contains(e) <==> (e == node || ch.skip(i + 1).contains(e)) by {
            let tail0 = ch.skip(i);
            let tail1 = ch.skip(i + 1);
            if tail0.contains(e) {
                let k = choose|k: int| 0 <= k < tail0.len() && tail0[k] == e;
                if k == 0 {
                    assert(tail0[0] == ch[i]);
                } else {
                    assert(tail0[k] == tail1[k - 1]);
                }
            }
            if e == node {
                assert(tail0[0] == e);
            }
            if tail1.contains(e) {
                let k = choose|k: int| 0 <= k < tail1.len() && tail1[k] == e;
                assert(tail0[k + 1] == e);
            }
        }
        assert(!ch.skip(i + 1).contains(node)) by {
            if ch.skip(i + 1).contains(node) {
                let k = choose|k: int|
                    0 <= k < ch.skip(i + 1).len() && (#[trigger] ch.skip(i + 1)[k]) == node;
                assert(ch[i + 1 + k] == node);
                assert(ch[i] == node);
            }
        }
        if s.pressed.contains(node) {
            lemma_remove_value_membership(s.pressed, node);
            assert(s1.pressed == s.pressed.remove_value(node));
            assert(s1.matched == s.matched.push(node));
            lemma_walk_pressed_mouse_up(t, w, hmap, ev, mouse, s1, ch, i + 1);
            assert forall|e: Entity|
                s1.matched.contains(e) <==> (s.matched.contains(e) || e == node) by {
                if s1.matched.contains(e) {
                    let k = choose|k: int| 0 <= k < s1.matched.len() && s1.matched[k] == e;
                    if k < s.matched.len() {
                        assert(s.matched[k] == e);
                    }
                }
                if s.matched.contains(e) {
                    let k = choose|k: int| 0 <= k < s.matched.len() && s.matched[k] == e;
                    assert(s1.matched[k] == e);
                }
                assert(s1.matched.last() == node);
            }
        } else {
            assert(s1.pressed == s.pressed && s1.matched == s.matched);
            lemma_walk_pressed_mouse_up(t, w, hmap, ev, mouse, s1, ch, i + 1);
        }
    }
}

/// LAW: delivery consults only enabled candidates with registered
/// handlers; a disabled candidate — and with it, through the suppression
/// chain, its matched descendants — is skipped without its handlers being
/// consulted.
pub proof fn lemma_deliver_visited_enabled<H: EventHandler>(
    t: Tree,
    w: World,
    hmap: Map<Entity, Vec<H>>,
    ev: Event,
    s: DeliverState,
    cands: Seq<Entity>,
    i: int,
)
    requires
        0 <= i <= cands.len(),
    ensures
        forall|e: Entity|
            deliver_nodes(t, w, hmap, ev, s, cands, i).visited.contains(e)
                ==> s.visited.contains(e)
                    || (w.nodes@[e as int].enabled && hmap.contains_key(e)),
    decreases cands.len() - i,
{
    if i < cands.len() {
        let node = cands[i];
        let s1 = deliver_step(t, w, hmap, ev, s, node);
        lemma_deliver_visited_enabled(t, w, hmap, ev, s1, cands, i + 1);
        assert forall|e: Entity|
            s1.visited.contains(e)
                implies s.visited.contains(e)
                    || (w.nodes@[e as int].enabled && hmap.contains_key(e)) by {
            if s1.visited != s.visited {
                let k = choose|k: int| 0 <= k < s1.visited.len() && s1.visited[k] == e;
                if k < s.visited.len() {
                    assert(s.visited[k] == e);
                } else {
                    assert(s1.visited.last() == node);
                }
            }
        }
    }
}

/// LAW: first-handled-wins — once some candidate's handler has fully
/// handled the event, delivery stops: no later candidate changes anything,
/// none is consulted.
pub proof fn lemma_deliver_first_handled_wins<H: EventHandler>(
    t: Tree,
    w: World,
    hmap: Map<Entity, Vec<H>>,
    ev: Event,
    s: DeliverState,
    cands: Seq<Entity>,
    i: int,
)
    requires
        0 <= i <= cands.len(),
        s.handled,
    ensures
        deliver_nodes(t, w, hmap, ev, s, cands, i) == s,
    decreases cands.len() - i,
{
    if i < cands.len() {
        lemma_deliver_first_handled_wins(t, w, hmap, ev, s, cands, i + 1);
    }
}

/// Removing an element of a duplicate-free sequence keeps it
/// duplicate-free.
proof fn lemma_unique_after_remove(oldp: Seq<Entity>, newp: Seq<Entity>, i: int)
    requires
        unique_seq(oldp),
        0 <= i < oldp.len(),
        newp == oldp.remove(i),
    ensures
        unique_seq(newp),
{
    oldp.remove_ensures(i);
    assert forall|a: int, b: int| 0 <= a < b < newp.len() implies newp[a] != newp[b] by {
        if b < i {
            assert(newp[a] == oldp[a] && newp[b] == oldp[b]);
        } else if a < i {
            assert(newp[a] == oldp[a] && newp[b] == oldp[b + 1]);
        } else {
            assert(newp[a] == oldp[a + 1] && newp[b] == oldp[b + 1]);
        }
    }
}

} // verus!
