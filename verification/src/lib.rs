//! Structural editing of an immutable concrete syntax tree.
//!
//! The crate addresses subtrees with serializable locators (sequences of
//! child indices), rebuilds the ancestor spine on each edit while keeping
//! untouched subtrees structurally intact, and walks lexical scopes to
//! collect the names visible at a position.

pub mod cell;
pub mod codec;
pub mod editor;
pub mod path;
pub mod render;
pub mod scope;
pub mod store;
pub mod tree;
