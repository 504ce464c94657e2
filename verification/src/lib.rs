//! Runtime core of a retained-mode widget toolkit: an entity tree paired with
//! an event-routing and state-update system.
//!
//! The crate is organised around four pieces:
//! - [`tree`]: the widget tree (parent links, pre-order traversal);
//! - [`world`]: the per-entity components and the global singleton state;
//! - [`system`]: the event router, the state-update walker and the run-loop
//!   driver;
//! - [`handler`]: the traits through which widget code plugs into the router
//!   and the walker.

pub mod cursor;
pub mod event;
pub mod geometry;
pub mod handler;
pub mod keyboard;
pub mod registry;
pub mod system;
pub mod tree;
pub mod world;
