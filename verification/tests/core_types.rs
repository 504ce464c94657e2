use orbtk_core::cursor::{Cursor, CursorState};
use orbtk_core::event::{Event, EventKind, EventQueue, EventStrategy};
use orbtk_core::geometry::{Bounds, Point};
use orbtk_core::keyboard::KeyboardState;
use orbtk_core::registry::EntityMap;
use orbtk_core::system::EventStateSystem;
use orbtk_core::tree::{parent_chain, preorder_vec, Tree};
use orbtk_core::world::{validate, StructuralInvariantViolation, TextSelection, World};

#[test]
fn preorder_is_depth_first() {
    // root 0 with children 1 and 2; 3 under 1: depth first visits 3 before 2
    let mut tree = Tree::new();
    let a = tree.add_child(0);
    let b = tree.add_child(0);
    let c = tree.add_child(a);
    assert_eq!((a, b, c), (1, 2, 3));
    assert_eq!(preorder_vec(&tree, 0), vec![0, 1, 3, 2]);
    assert_eq!(preorder_vec(&tree, 1), vec![1, 3]);
}

#[test]
fn parent_chain_walks_to_root() {
    let mut tree = Tree::new();
    let a = tree.add_child(0);
    let _b = tree.add_child(0);
    let c = tree.add_child(a);
    assert_eq!(parent_chain(&tree, c), vec![3, 1, 0]);
    assert_eq!(parent_chain(&tree, 0), vec![0]);
    assert_eq!(tree.parent_of(0), None);
    assert_eq!(tree.parent_of(3), Some(1));
}

#[test]
fn bounds_contain_half_open_extent() {
    let b = Bounds::new(10, 10, 5, 5);
    assert!(b.contains(Point::new(10, 10)));
    assert!(b.contains(Point::new(14, 14)));
    assert!(!b.contains(Point::new(15, 10)));
    assert!(!b.contains(Point::new(9, 10)));
    let empty = Bounds::new(0, 0, 0, 0);
    assert!(!empty.contains(Point::new(0, 0)));
}

#[test]
fn keyboard_tracks_each_key_once() {
    let mut k = KeyboardState::new();
    k.set_key_state(3, true);
    k.set_key_state(3, true);
    assert!(k.key_pressed(3));
    assert_eq!(k.pressed.len(), 1);
    k.set_key_state(3, false);
    assert!(!k.key_pressed(3));
    k.set_key_state(4, false);
    assert!(!k.key_pressed(4));
}

#[test]
fn event_queue_drains_in_order() {
    let mut q = EventQueue::new();
    let e1 = Event::new(EventKind::MouseUp, 0, EventStrategy::BottomUp);
    let e2 = Event::new(EventKind::Scroll, 1, EventStrategy::Direct);
    q.enqueue(e1);
    q.enqueue(e2);
    assert_eq!(q.len(), 2);
    let drained = q.drain_all();
    assert_eq!(q.len(), 0);
    assert_eq!(drained, vec![e1, e2]);
}

#[test]
fn registry_maps_entities_to_values() {
    let mut m: EntityMap<u32> = EntityMap::new();
    assert!(!m.contains_key(4));
    m.insert(4, 40);
    m.insert(7, 70);
    assert!(m.contains_key(4));
    assert_eq!(m.get(4), Some(&40));
    assert_eq!(m.get(7), Some(&70));
    assert_eq!(m.get(5), None);
}

#[test]
fn validate_reports_structural_violations() {
    let mut tree = Tree::new();
    let _ = tree.add_child(0);
    let good = World::new(2);
    assert!(validate(&tree, &good).is_ok());
    let mismatched = World::new(3);
    assert_eq!(
        validate(&tree, &mismatched),
        Err(StructuralInvariantViolation::NodeCountMismatch)
    );
    let mut corrupt = World::new(2);
    corrupt.global.keyboard.pressed = vec![5, 5];
    assert_eq!(
        validate(&tree, &corrupt),
        Err(StructuralInvariantViolation::CorruptKeyboardState)
    );
    // a child listed before its parent breaks the tree's shape
    let broken = Tree { parent: vec![0, 1], children: vec![vec![1], vec![]] };
    assert_eq!(
        validate(&broken, &World::new(2)),
        Err(StructuralInvariantViolation::MalformedTree)
    );
    assert!(!broken.check_wf());
    assert!(tree.check_wf());
}

#[test]
fn system_check_wf_spots_duplicates() {
    let mut sys: EventStateSystem<orbtk_core::handler::FlagHandler, CursorState> =
        EventStateSystem::new();
    assert!(sys.check_wf());
    sys.mouse_down_nodes = vec![3, 3];
    assert!(!sys.check_wf());
}

#[test]
fn cursor_template_carries_defaults() {
    let t = Cursor::create();
    assert_eq!(t.width, 1);
    assert_eq!(t.offset, 0);
    assert_eq!(t.text, "");
    assert_eq!(t.selector, "cursor");
    assert_eq!(t.background, "transparent");
    assert_eq!(t.font, "Roboto-Regular");
    assert_eq!(t.font_size, 12);
    assert_eq!(t.text_selection, TextSelection { start: 0, length: 0 });
    assert!(!t.focused);
    assert_eq!(t.debug_name, "Cursor");
}

#[test]
fn cursor_state_mirrors_selection_into_expanded() {
    let mut tree = Tree::new();
    let cursor = tree.add_child(0);
    let mut world = World::new(2);
    let mut sys: EventStateSystem<orbtk_core::handler::FlagHandler, CursorState> =
        EventStateSystem::new();
    sys.register_state(cursor, CursorState);
    let mut queue = EventQueue::new();

    world.set_text_selection(cursor, TextSelection { start: 2, length: 4 });
    let _ = sys.walk_states(&tree, &mut world, &mut queue);
    assert!(world.node(cursor).expanded);

    world.set_text_selection(cursor, TextSelection { start: 2, length: 0 });
    let _ = sys.walk_states(&tree, &mut world, &mut queue);
    assert!(!world.node(cursor).expanded);
}
