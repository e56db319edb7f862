//! Renders a directory snapshot as a `tree`-style diagram, with ignore and
//! stop-recursion filters and optional directory-first ordering.

pub mod entry;
pub mod laws;
pub mod output;
pub mod path;
pub mod tree;
