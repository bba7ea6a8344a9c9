//! A tree-structured command-line token dispatcher.
//!
//! A program builds a tree of named commands ([`Cmd`]), each optionally
//! carrying a handler, a description, integer-valued flag declarations and
//! uniquely named children.  Dispatching a flat sequence of string tokens
//! against the tree selects at most one handler: the root discards one
//! leading token unconditionally, every other node consumes its own name on
//! an exact match, declared flags are extracted from the front of the
//! remainder, and children are tried in registration order before a node
//! falls back to its own handler.

pub mod engine;
pub mod laws;
pub mod node;
pub mod parse;
pub mod snapshot;

pub use engine::Selection;
pub use node::Cmd;
pub use node::DuplicateSiblingName;
pub use node::FlagDecl;
pub use parse::parse_u32;
pub use snapshot::App;
pub use snapshot::Data;
