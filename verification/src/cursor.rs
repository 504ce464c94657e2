//! The `Cursor` widget: a text cursor used to mark text.
//!
//! The widget contributes two things to the core: a declarative template of
//! its initial properties, and a per-frame state hook that mirrors whether
//! the current text selection is non-empty into the widget's `expanded`
//! selector. Its render object and layout live with the surrounding
//! application, outside the core.

use vstd::prelude::*;

use crate::event::EventQueue;
use crate::handler::State;
use crate::tree::Entity;
use crate::world::{NodeData, TextSelection, World};

verus! {

/// The per-frame state of the `Cursor` widget.
pub struct CursorState;

impl CursorState {
    /// Sets the widget's `expanded` selector exactly when its text
    /// selection spans at least one glyph; nothing else changes.
    pub fn apply(&self, entity: Entity, world: &mut World)
        requires
            entity < old(world).node_count(),
            old(world).wf(),
        ensures
            final(world).wf(),
            final(world).nodes@ == old(world).nodes@.update(
                entity as int,
                NodeData {
                    expanded: old(world).nodes@[entity as int].text_selection.length > 0,
                    ..old(world).nodes@[entity as int]
                },
            ),
            final(world).global == old(world).global,
            final(world).theme == old(world).theme,
    {
        let selection = world.node(entity).text_selection;
        world.set_expanded(entity, selection.length > 0);
    }
}

impl State for CursorState {
    fn update(&self, entity: Entity, world: &mut World, queue: &mut EventQueue) {
        self.apply(entity, world);
    }
}

/// The initial properties `Cursor::create` assembles. A widget tree
/// instantiates an entity from the template and registers [`CursorState`]
/// as the entity's state hook.
pub struct CursorTemplate {
    pub width: u32,
    pub offset: i32,
    pub text: String,
    pub selector: String,
    pub background: String,
    pub font: String,
    pub font_size: u32,
    pub text_selection: TextSelection,
    pub focused: bool,
    pub debug_name: String,
}

impl CursorTemplate {
    pub fn new() -> (t: CursorTemplate)
        ensures
            t.width == 0,
            t.offset == 0,
            t.text@ == ""@,
            t.selector@ == ""@,
            t.background@ == ""@,
            t.font@ == ""@,
            t.font_size == 0,
            t.text_selection == (TextSelection { start: 0, length: 0 }),
            !t.focused,
            t.debug_name@ == ""@,
    {
        CursorTemplate {
            width: 0,
            offset: 0,
            text: String::from_str(""),
            selector: String::from_str(""),
            background: String::from_str(""),
            font: String::from_str(""),
            font_size: 0,
            text_selection: TextSelection { start: 0, length: 0 },
            focused: false,
            debug_name: String::from_str(""),
        }
    }

    pub fn width(self, width: u32) -> (t: CursorTemplate)
        ensures
            t == (CursorTemplate { width, ..self }),
    {
        CursorTemplate { width, ..self }
    }

    pub fn offset(self, offset: i32) -> (t: CursorTemplate)
        ensures
            t == (CursorTemplate { offset, ..self }),
    {
        CursorTemplate { offset, ..self }
    }

    pub fn text(self, text: &str) -> (t: CursorTemplate)
        ensures
            t.text@ == text@,
            t == (CursorTemplate { text: t.text, ..self }),
    {
        CursorTemplate { text: String::from_str(text), ..self }
    }

    pub fn selector(self, selector: &str) -> (t: CursorTemplate)
        ensures
            t.selector@ == selector@,
            t == (CursorTemplate { selector: t.selector, ..self }),
    {
        CursorTemplate { selector: String::from_str(selector), ..self }
    }

    pub fn background(self, background: &str) -> (t: CursorTemplate)
        ensures
            t.background@ == background@,
            t == (CursorTemplate { background: t.background, ..self }),
    {
        CursorTemplate { background: String::from_str(background), ..self }
    }

    pub fn font(self, font: &str) -> (t: CursorTemplate)
        ensures
            t.font@ == font@,
            t == (CursorTemplate { font: t.font, ..self }),
    {
        CursorTemplate { font: String::from_str(font), ..self }
    }

    pub fn font_size(self, font_size: u32) -> (t: CursorTemplate)
        ensures
            t == (CursorTemplate { font_size, ..self }),
    {
        CursorTemplate { font_size, ..self }
    }

    pub fn text_selection(self, text_selection: TextSelection) -> (t: CursorTemplate)
        ensures
            t == (CursorTemplate { text_selection, ..self }),
    {
        CursorTemplate { text_selection, ..self }
    }

    pub fn focused(self, focused: bool) -> (t: CursorTemplate)
        ensures
            t == (CursorTemplate { focused, ..self }),
    {
        CursorTemplate { focused, ..self }
    }

    pub fn debug_name(self, debug_name: &str) -> (t: CursorTemplate)
        ensures
            t.debug_name@ == debug_name@,
            t == (CursorTemplate { debug_name: t.debug_name, ..self }),
    {
        CursorTemplate { debug_name: String::from_str(debug_name), ..self }
    }
}

/// The `Cursor` represents a text cursor used to mark text.
///
/// Its template carries the current text selection (`text_selection`), the
/// marked text itself (`text`), and the cursor's one-pixel width and
/// default styling.
pub struct Cursor;

impl Cursor {
    /// Assembles the widget's initial properties. The rectangle render
    /// object and the text-selection layout that draw and place the widget
    /// sit outside the core; the widget tree that instantiates the template
    /// registers [`CursorState`] in the state registry.
    pub fn create() -> (t: CursorTemplate)
        ensures
            t.width == 1,
            t.offset == 0,
            t.text@ == ""@,
            t.selector@ == "cursor"@,
            t.background@ == "transparent"@,
            t.font@ == "Roboto-Regular"@,
            t.font_size == 12,
            t.text_selection == (TextSelection { start: 0, length: 0 }),
            !t.focused,
            t.debug_name@ == "Cursor"@,
    {
        CursorTemplate::new()
            .width(1)
            .text("")
            .selector("cursor")
            .offset(0)
            .background("transparent")
            .font_size(12)
            .font("Roboto-Regular")
            .text_selection(TextSelection { start: 0, length: 0 })
            .debug_name("Cursor")
    }
}

} // verus!
