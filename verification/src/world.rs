//! The component data the router and walker read and write: per-entity
//! components plus the global singleton that by construction always exists,
//! making the structural preconditions of routing explicit.

use vstd::prelude::*;

use crate::geometry::{Bounds, Constraint, Point};
use crate::keyboard::KeyboardState;
use crate::tree::{Entity, Tree};

verus! {

/// An opaque styling handle; its content is outside the core.
#[derive(Clone, Copy, Debug, PartialEq, Eq, Structural)]
pub struct Theme {
    pub id: u32,
}

/// The selection of a text widget: where it starts and how many glyphs it
/// spans. A widget without a selection carries the default, empty one.
#[derive(Clone, Copy, Debug, PartialEq, Eq, Structural)]
pub struct TextSelection {
    pub start: u32,
    pub length: u32,
}

impl Default for TextSelection {
    fn default() -> (r: TextSelection)
        ensures
            r.start == 0,
            r.length == 0,
    {
        TextSelection { start: 0, length: 0 }
    }
}

/// The global singleton component kept on the root entity: the keyboard
/// key-state table and the currently focused entity.
pub struct Global {
    pub keyboard: KeyboardState,
    pub focused: Option<Entity>,
}

/// The components of one entity. Every entity carries each component; a
/// widget that sets no value for a component carries the component's
/// neutral value (`enabled` true, `clip` false, an empty selection,
/// zero-sized bounds).
#[derive(Clone, Copy, Debug)]
pub struct NodeData {
    pub bounds: Bounds,
    pub constraint: Constraint,
    pub enabled: bool,
    pub clip: bool,
    pub text_selection: TextSelection,
    /// Whether the `expanded` selector is set on the widget.
    pub expanded: bool,
}

impl NodeData {
    /// The neutral value of every component.
    pub open spec fn spec_default() -> NodeData {
        NodeData {
            bounds: Bounds { x: 0, y: 0, width: 0, height: 0 },
            constraint: Constraint { width: 0, height: 0 },
            enabled: true,
            clip: false,
            text_selection: TextSelection { start: 0, length: 0 },
            expanded: false,
        }
    }

    pub fn default_data() -> (d: NodeData)
        ensures
            d == NodeData::spec_default(),
    {
        NodeData {
            bounds: Bounds { x: 0, y: 0, width: 0, height: 0 },
            constraint: Constraint { width: 0, height: 0 },
            enabled: true,
            clip: false,
            text_selection: TextSelection { start: 0, length: 0 },
            expanded: false,
        }
    }
}

/// All component data of a widget tree.
pub struct World {
    pub nodes: Vec<NodeData>,
    pub global: Global,
    pub theme: Theme,
}

impl World {
    pub open spec fn node_count(self) -> int {
        self.nodes@.len() as int
    }

    /// Internal consistency of the world alone.
    pub open spec fn wf(self) -> bool {
        self.global.keyboard.wf()
    }

    /// The world describes exactly the entities of `t`.
    pub open spec fn wf_for(self, t: Tree) -> bool {
        &&& self.wf()
        &&& self.node_count() == t.spec_len()
    }

    /// A world of `n` entities, every component at its neutral value.
    pub fn new(n: usize) -> (w: World)
        ensures
            w.wf(),
            w.node_count() == n,
            forall|e: int| 0 <= e < n ==> w.nodes@[e] == NodeData::spec_default(),
            w.global.focused is None,
            forall|k: u32| !w.global.keyboard.spec_key_pressed(k),
            w.theme == (Theme { id: 0 }),
    {
        let mut nodes: Vec<NodeData> = Vec::new();
        for i in 0..n
            invariant
                nodes@.len() == i,
                forall|e: int| 0 <= e < i ==> nodes@[e] == NodeData::spec_default(),
        {
            nodes.push(NodeData::default_data());
        }
        World {
            nodes,
            global: Global { keyboard: KeyboardState::new(), focused: None },
            theme: Theme { id: 0 },
        }
    }

    fn node_mut(&mut self, e: Entity) -> (r: &mut NodeData)
        requires
            e < old(self).node_count(),
        ensures
            *r == old(self).nodes@[e as int],
            final(self).nodes@ == old(self).nodes@.update(e as int, *final(r)),
            final(self).global == old(self).global,
            final(self).theme == old(self).theme,
    {
        &mut self.nodes[e]
    }

    pub fn node(&self, e: Entity) -> (r: NodeData)
        requires
            e < self.node_count(),
        ensures
            r == self.nodes@[e as int],
    {
        self.nodes[e]
    }

    /// The hit-test of the pointer against the node's bounds.
    pub open spec fn spec_hit(self, e: Entity, p: Point) -> bool {
        self.nodes@[e as int].bounds.spec_contains(p)
    }

    /// True when `position` falls within the hit-test region of `node`.
    pub fn check_mouse_condition(&self, position: Point, node: Entity) -> (r: bool)
        requires
            node < self.node_count(),
        ensures
            r == self.spec_hit(node, position),
    {
        let b = self.nodes[node].bounds;
        b.contains(position)
    }

    pub fn set_enabled(&mut self, e: Entity, enabled: bool)
        requires
            e < old(self).node_count(),
        ensures
            final(self).nodes@ == old(self).nodes@.update(
                e as int,
                NodeData { enabled, ..old(self).nodes@[e as int] },
            ),
            final(self).global == old(self).global,
            final(self).theme == old(self).theme,
    {
        let n = self.node_mut(e);
        n.enabled = enabled;
    }

    pub fn set_clip(&mut self, e: Entity, clip: bool)
        requires
            e < old(self).node_count(),
        ensures
            final(self).nodes@ == old(self).nodes@.update(
                e as int,
                NodeData { clip, ..old(self).nodes@[e as int] },
            ),
            final(self).global == old(self).global,
            final(self).theme == old(self).theme,
    {
        let n = self.node_mut(e);
        n.clip = clip;
    }

    pub fn set_bounds(&mut self, e: Entity, bounds: Bounds)
        requires
            e < old(self).node_count(),
        ensures
            final(self).nodes@ == old(self).nodes@.update(
                e as int,
                NodeData { bounds, ..old(self).nodes@[e as int] },
            ),
            final(self).global == old(self).global,
            final(self).theme == old(self).theme,
    {
        let n = self.node_mut(e);
        n.bounds = bounds;
    }

    pub fn set_constraint(&mut self, e: Entity, constraint: Constraint)
        requires
            e < old(self).node_count(),
        ensures
            final(self).nodes@ == old(self).nodes@.update(
                e as int,
                NodeData { constraint, ..old(self).nodes@[e as int] },
            ),
            final(self).global == old(self).global,
            final(self).theme == old(self).theme,
    {
        let n = self.node_mut(e);
        n.constraint = constraint;
    }

    pub fn set_text_selection(&mut self, e: Entity, text_selection: TextSelection)
        requires
            e < old(self).node_count(),
        ensures
            final(self).nodes@ == old(self).nodes@.update(
                e as int,
                NodeData { text_selection, ..old(self).nodes@[e as int] },
            ),
            final(self).global == old(self).global,
            final(self).theme == old(self).theme,
    {
        let n = self.node_mut(e);
        n.text_selection = text_selection;
    }

    pub fn set_expanded(&mut self, e: Entity, expanded: bool)
        requires
            e < old(self).node_count(),
        ensures
            final(self).nodes@ == old(self).nodes@.update(
                e as int,
                NodeData { expanded, ..old(self).nodes@[e as int] },
            ),
            final(self).global == old(self).global,
            final(self).theme == old(self).theme,
    {
        let n = self.node_mut(e);
        n.expanded = expanded;
    }

    pub fn set_focused(&mut self, focused: Option<Entity>)
        ensures
            final(self).nodes@ == old(self).nodes@,
            final(self).global.focused == focused,
            final(self).global.keyboard == old(self).global.keyboard,
            final(self).theme == old(self).theme,
    {
        self.global.focused = focused;
    }
}

/// A breach of the structural preconditions the router assumes: raised once,
/// up front, instead of deep inside the routing loop.
#[derive(Clone, Copy, Debug, PartialEq, Eq, Structural)]
pub enum StructuralInvariantViolation {
    /// The tree's parent links and children lists disagree, or a child
    /// does not follow its parent.
    MalformedTree,
    /// The world does not describe exactly the entities of the tree.
    NodeCountMismatch,
    /// The keyboard key-state table lists a key twice.
    CorruptKeyboardState,
}

/// Fail-fast validation of the structural invariants routing and walking
/// rely on — the tree's shape included; run it once before entering the
/// run loop.
pub fn validate(tree: &Tree, world: &World) -> (r: Result<(), StructuralInvariantViolation>)
    ensures
        r is Ok <==> (tree.wf() && world.wf_for(*tree)),
        match r {
            Ok(_) => tree.wf() && world.wf_for(*tree),
            Err(StructuralInvariantViolation::MalformedTree) => !tree.wf(),
            Err(StructuralInvariantViolation::NodeCountMismatch) => tree.wf()
                && world.node_count() != tree.spec_len(),
            Err(StructuralInvariantViolation::CorruptKeyboardState) => tree.wf()
                && world.node_count() == tree.spec_len() && !world.global.keyboard.wf(),
        },
{
    if !tree.check_wf() {
        return Err(StructuralInvariantViolation::MalformedTree);
    }
    if world.nodes.len() != tree.len() {
        return Err(StructuralInvariantViolation::NodeCountMismatch);
    }
    if !keyboard_wf_check(&world.global.keyboard) {
        return Err(StructuralInvariantViolation::CorruptKeyboardState);
    }
    Ok(())
}

/// Checks the no-duplicate invariant of the key-state table.
fn keyboard_wf_check(s: &KeyboardState) -> (r: bool)
    ensures
        r == s.wf(),
{
    let n = s.pressed.len();
    let mut i: usize = 0;
    while i < n
        invariant
            i <= n,
            n == s.pressed@.len(),
            forall|a: int, b: int|
                0 <= a < b < n && a < i
                    ==> #[trigger] s.pressed@[a] != #[trigger] s.pressed@[b],
        decreases n - i,
    {
        let mut j: usize = i + 1;
        while j < n
            invariant
                i < j <= n,
                n == s.pressed@.len(),
                forall|b: int| i < b < j ==> s.pressed@[i as int] != #[trigger] s.pressed@[b],
            decreases n - j,
        {
            if s.pressed[i] == s.pressed[j] {
                return false;
            }
            j = j + 1;
        }
        i = i + 1;
    }
    true
}

} // verus!
