//! An in-memory R-tree over integer axis-aligned rectangles of any dimension.
//! Each stored item is a rectangle together with an opaque fixed-size byte payload.
pub mod rect;
pub mod node;
pub mod split;
pub mod search;
pub mod delete;
pub mod tree;

pub use node::Entry;
pub use tree::{RTreeC, Visitor};
