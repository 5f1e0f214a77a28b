//! An in-memory mirror of a directory subtree, augmented with serving
//! metadata (sizes, timestamps, weekly view counters, likes) and two ranking
//! orders (by popularity, by recency) over the node set.
//!
//! Nodes live in an arena (`Vec<Node>`) and refer to each other by index:
//! the parent back-reference and the child links are plain indices, so the
//! tree invariant (every non-root node's parent owns it under its own name,
//! and parent indices strictly decrease towards the root, which rules out
//! cycles) is stated and checked directly.

pub mod errors;
pub mod strutil;
pub mod node;
pub mod rank;
pub mod tree;
pub mod builder;
pub mod laws;
