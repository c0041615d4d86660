//! A small markup framework core: a recursive-descent parser that turns a
//! markup string into a tree of tagged nodes, and a mutable live tree kept in
//! an arena, with attach/detach/replace operations, deterministic path-hash
//! identifiers, and root-path resolution.

pub mod text;
pub mod tree;
pub mod parser;
pub mod node;
pub mod style;
