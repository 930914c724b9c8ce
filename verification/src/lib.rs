//! Core synchronization engine of a block-structured source editor.
//!
//! The engine keeps a flat text buffer, an incrementally validated syntax
//! tree, a derived block layout, multi-cursor selection state, and a
//! diagnostics overlay consistent with one another while edits arrive from
//! local interaction or from the host shell.

pub mod blocks;
pub mod buffer;
pub mod coordinator;
pub mod diagnostics;
pub mod host;
pub mod selection;
pub mod text_range;
pub mod tree;
