use orbtk_core::cursor::CursorState;
use orbtk_core::event::{Event, EventKind, EventQueue, EventStrategy};
use orbtk_core::geometry::{Bounds, Point};
use orbtk_core::handler::{EchoState, FlagHandler};
use orbtk_core::system::EventStateSystem;
use orbtk_core::tree::Tree;
use orbtk_core::world::World;

fn consuming() -> FlagHandler {
    FlagHandler { handles_any: true, consume: true }
}

/// A three-level tree: root 0, its child 1, 1's child 2.
fn spine() -> (Tree, World) {
    let mut tree = Tree::new();
    let a = tree.add_child(0);
    let b = tree.add_child(a);
    assert_eq!((a, b), (1, 2));
    let mut world = World::new(3);
    for e in 0..3 {
        world.set_bounds(e, Bounds::new(0, 0, 100, 100));
    }
    (tree, world)
}

#[test]
fn top_down_is_reserved_no_op() {
    let (tree, mut world) = spine();
    let mut sys: EventStateSystem<FlagHandler, CursorState> = EventStateSystem::new();
    sys.register_handlers(0, vec![consuming()]);
    let ev = Event::new(EventKind::MouseDown { position: Point::new(5, 5) }, 2, EventStrategy::TopDown);
    let r = sys.route(Point::new(5, 5), &ev, &tree, &mut world);
    assert!(!r.handled);
    assert!(r.matched.is_empty());
    assert!(r.visited.is_empty());
    assert!(sys.mouse_down_nodes.is_empty());
    assert!(!sys.update);
}

#[test]
fn resize_updates_root_bounds_and_constraint() {
    let (tree, mut world) = spine();
    let mut sys: EventStateSystem<FlagHandler, CursorState> = EventStateSystem::new();
    let ev = Event::new(
        EventKind::WindowResize { width: 800, height: 600 },
        2,
        EventStrategy::BottomUp,
    );
    let r = sys.route(Point::new(0, 0), &ev, &tree, &mut world);
    assert!(!r.handled);
    let root = world.node(0);
    assert_eq!(root.bounds.width, 800);
    assert_eq!(root.bounds.height, 600);
    assert_eq!(root.constraint.width, 800);
    assert_eq!(root.constraint.height, 600);
    assert!(sys.update);
}

#[test]
fn mouse_down_presses_each_hit_once() {
    let (tree, mut world) = spine();
    let mut sys: EventStateSystem<FlagHandler, CursorState> = EventStateSystem::new();
    let ev = Event::new(
        EventKind::MouseDown { position: Point::new(5, 5) },
        2,
        EventStrategy::BottomUp,
    );
    let r = sys.route(Point::new(5, 5), &ev, &tree, &mut world);
    // all three nodes on the chain are hit, source first
    assert_eq!(r.matched, vec![2, 1, 0]);
    assert_eq!(sys.mouse_down_nodes, vec![2, 1, 0]);
    // the same mouse-down again leaves each entity pressed exactly once
    let _ = sys.route(Point::new(5, 5), &ev, &tree, &mut world);
    assert_eq!(sys.mouse_down_nodes, vec![2, 1, 0]);
}

#[test]
fn mouse_up_pairs_and_removes_exactly_once() {
    let (tree, mut world) = spine();
    let mut sys: EventStateSystem<FlagHandler, CursorState> = EventStateSystem::new();
    let down = Event::new(
        EventKind::MouseDown { position: Point::new(5, 5) },
        2,
        EventStrategy::BottomUp,
    );
    let _ = sys.route(Point::new(5, 5), &down, &tree, &mut world);
    assert_eq!(sys.mouse_down_nodes, vec![2, 1, 0]);
    let up = Event::new(EventKind::MouseUp, 2, EventStrategy::BottomUp);
    let r = sys.route(Point::new(5, 5), &up, &tree, &mut world);
    assert_eq!(r.matched, vec![2, 1, 0]);
    assert!(sys.mouse_down_nodes.is_empty());
}

#[test]
fn mouse_up_without_pressed_matches_nothing() {
    let (tree, mut world) = spine();
    let mut sys: EventStateSystem<FlagHandler, CursorState> = EventStateSystem::new();
    let up = Event::new(EventKind::MouseUp, 2, EventStrategy::BottomUp);
    let r = sys.route(Point::new(5, 5), &up, &tree, &mut world);
    assert!(r.matched.is_empty());
    assert!(!r.handled);
    assert!(sys.mouse_down_nodes.is_empty());
}

#[test]
fn disabled_ancestor_suppresses_descendants() {
    // candidates gathered source-to-root: [2 (child of 1), 1 (disabled), 0],
    // delivered root-to-source: 0, 1, 2 — once 1 is found disabled, 2 must
    // be skipped although its handler would consume the event
    let (tree, mut world) = spine();
    world.set_enabled(1, false);
    let mut sys: EventStateSystem<FlagHandler, CursorState> = EventStateSystem::new();
    sys.register_handlers(2, vec![consuming()]);
    let ev = Event::new(
        EventKind::MouseDown { position: Point::new(5, 5) },
        2,
        EventStrategy::BottomUp,
    );
    let r = sys.route(Point::new(5, 5), &ev, &tree, &mut world);
    assert_eq!(r.matched, vec![2, 1, 0]);
    assert!(r.visited.is_empty());
    assert!(!r.handled);
}

#[test]
fn first_handled_candidate_wins() {
    let (tree, mut world) = spine();
    let mut sys: EventStateSystem<FlagHandler, CursorState> = EventStateSystem::new();
    sys.register_handlers(0, vec![consuming()]);
    sys.register_handlers(1, vec![consuming()]);
    let ev = Event::new(
        EventKind::MouseDown { position: Point::new(5, 5) },
        1,
        EventStrategy::BottomUp,
    );
    let r = sys.route(Point::new(5, 5), &ev, &tree, &mut world);
    // delivery order is 0 then 1; 0 consumes, so 1 is never consulted
    assert!(r.handled);
    assert_eq!(r.visited, vec![0]);
    assert!(!r.visited.contains(&1));
}

#[test]
fn handler_order_stops_at_first_consumer() {
    let (tree, mut world) = spine();
    let mut sys: EventStateSystem<FlagHandler, CursorState> = EventStateSystem::new();
    sys.register_handlers(
        0,
        vec![FlagHandler { handles_any: true, consume: false }, consuming()],
    );
    let ev = Event::new(
        EventKind::MouseDown { position: Point::new(5, 5) },
        0,
        EventStrategy::BottomUp,
    );
    let r = sys.route(Point::new(5, 5), &ev, &tree, &mut world);
    assert!(r.handled);
    assert_eq!(r.visited, vec![0]);
}

#[test]
fn click_tracks_nearest_clip_region() {
    // 1 clips its subtree to (100,100)-(110,110); a click at (10,10) hits 2
    // and the root but misses the clip widget itself. The single-level
    // parent check pops the recorded clip region as soon as the walk steps
    // past it, so the root is matched on its own bounds again.
    let (tree, mut world) = spine();
    world.set_bounds(0, Bounds::new(0, 0, 200, 200));
    world.set_bounds(1, Bounds::new(100, 100, 10, 10));
    world.set_bounds(2, Bounds::new(0, 0, 50, 50));
    world.set_clip(1, true);
    let mut sys: EventStateSystem<FlagHandler, CursorState> = EventStateSystem::new();
    let ev = Event::new(
        EventKind::Click { position: Point::new(10, 10) },
        2,
        EventStrategy::BottomUp,
    );
    let r = sys.route(Point::new(10, 10), &ev, &tree, &mut world);
    assert_eq!(r.matched, vec![2, 0]);
    assert_eq!(sys.mouse_down_nodes, vec![2, 0]);
}

#[test]
fn scroll_matches_by_pointer_position() {
    let (tree, mut world) = spine();
    world.set_bounds(2, Bounds::new(0, 0, 10, 10));
    world.set_bounds(1, Bounds::new(0, 0, 10, 10));
    world.set_bounds(0, Bounds::new(50, 50, 10, 10));
    let ev = Event::new(EventKind::Scroll, 2, EventStrategy::BottomUp);
    let mut sys: EventStateSystem<FlagHandler, CursorState> = EventStateSystem::new();
    let r = sys.route(Point::new(5, 5), &ev, &tree, &mut world);
    assert_eq!(r.matched, vec![2, 1]);
}

#[test]
fn key_down_updates_keyboard_and_targets_focus() {
    let (tree, mut world) = spine();
    world.set_focused(Some(1));
    let mut sys: EventStateSystem<FlagHandler, CursorState> = EventStateSystem::new();
    let down = Event::new(EventKind::KeyDown { key: 42 }, 2, EventStrategy::BottomUp);
    let r = sys.route(Point::new(0, 0), &down, &tree, &mut world);
    assert!(world.global.keyboard.key_pressed(42));
    // only the focused entity matches, wherever it sits on the chain
    assert_eq!(r.matched, vec![1]);
    let up = Event::new(EventKind::KeyUp { key: 42 }, 2, EventStrategy::BottomUp);
    let _ = sys.route(Point::new(0, 0), &up, &tree, &mut world);
    assert!(!world.global.keyboard.key_pressed(42));
}

#[test]
fn custom_kind_falls_back_to_handlers() {
    let (tree, mut world) = spine();
    let mut sys: EventStateSystem<FlagHandler, CursorState> = EventStateSystem::new();
    sys.register_handlers(1, vec![FlagHandler { handles_any: true, consume: false }]);
    let ev = Event::new(EventKind::Custom { id: 7 }, 2, EventStrategy::BottomUp);
    let r = sys.route(Point::new(0, 0), &ev, &tree, &mut world);
    assert_eq!(r.matched, vec![1]);
    assert_eq!(r.visited, vec![1]);
    // a handler that declines to consume leaves the event unhandled
    assert!(!r.handled);
    assert!(sys.update);
}

#[test]
fn quit_halts_driver_immediately() {
    let (tree, mut world) = spine();
    let mut sys: EventStateSystem<FlagHandler, CursorState> = EventStateSystem::new();
    let mut queue = EventQueue::new();
    queue.enqueue(Event::new(EventKind::Custom { id: 1 }, 2, EventStrategy::BottomUp));
    queue.enqueue(Event::new(EventKind::SystemQuit, 0, EventStrategy::BottomUp));
    queue.enqueue(Event::new(
        EventKind::WindowResize { width: 800, height: 600 },
        0,
        EventStrategy::BottomUp,
    ));
    let r = sys.run(&tree, &mut world, &mut queue, Point::new(0, 0), 8);
    assert!(r.quit);
    assert_eq!(r.cycles, 1);
    assert_eq!(r.update_walks, 0);
    assert_eq!(r.processed, 1);
    assert!(!sys.running);
    // the rest of the snapshot was discarded with the drained queue
    assert_eq!(queue.len(), 0);
    // the resize queued behind the quit was never routed
    assert_eq!(world.node(0).bounds.width, 100);
}

#[test]
fn run_settles_events_enqueued_by_states() {
    let (tree, mut world) = spine();
    // entity 1's state enqueues one follow-up event the first time it runs
    world.set_expanded(1, true);
    let mut sys: EventStateSystem<FlagHandler, EchoState> = EventStateSystem::new();
    sys.register_state(
        1,
        EchoState {
            follow_up: Event::new(EventKind::Custom { id: 9 }, 2, EventStrategy::BottomUp),
        },
    );
    let mut queue = EventQueue::new();
    let r = sys.run(&tree, &mut world, &mut queue, Point::new(0, 0), 8);
    assert!(!r.quit);
    assert_eq!(r.cycles, 2);
    assert_eq!(r.update_walks, 2);
    assert_eq!(queue.len(), 0);
}

#[test]
fn run_without_new_events_performs_one_cycle() {
    let (tree, mut world) = spine();
    let mut sys: EventStateSystem<FlagHandler, CursorState> = EventStateSystem::new();
    let mut queue = EventQueue::new();
    queue.enqueue(Event::new(EventKind::Custom { id: 1 }, 2, EventStrategy::BottomUp));
    let r = sys.run(&tree, &mut world, &mut queue, Point::new(0, 0), 8);
    assert!(!r.quit);
    assert_eq!(r.cycles, 1);
    assert_eq!(r.update_walks, 1);
    assert_eq!(r.processed, 1);
    assert!(sys.running);
}

#[test]
fn walker_skips_entities_without_state() {
    let (tree, mut world) = spine();
    let mut sys: EventStateSystem<FlagHandler, CursorState> = EventStateSystem::new();
    sys.register_state(1, CursorState);
    let mut queue = EventQueue::new();
    let updated = sys.walk_states(&tree, &mut world, &mut queue);
    assert_eq!(updated, vec![1]);
}
