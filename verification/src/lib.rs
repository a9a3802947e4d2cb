//! Snapshot trees of a scripting runtime's live objects, the delta between
//! two snapshots, and the two renderings of a tree (text table, JSON).

pub mod diff;
pub mod document;
pub mod index;
pub mod node;
pub mod report;
pub mod strings;
pub mod walk;

pub use diff::{diff, DiffError};
pub use document::TreeDocument;
pub use node::{LuaGcNode, LuaGcNodeIncrOrDecr, LuaGcNodeType, NodeView};
