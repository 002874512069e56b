//! Object-tree transformation engine for a declarative UI language:
//! a compile-time inlining pass that flattens user-defined component
//! bases into a single concrete element tree, and an edit-time rename
//! refactor that computes a workspace-wide set of text edits renaming
//! a declared component type across documents.

pub mod object_tree;
pub mod rename;
pub mod syntax;
pub mod inlining;
