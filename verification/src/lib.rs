//! Compilation of declarative schema documents into a densely packed,
//! cycle-safe graph.
//!
//! A parsed document (a tree of nested values, some of which reference other
//! parts of the same or other documents) is turned into a compact artifact in
//! three passes: a breadth-first traversal producing a deduplicated,
//! index-addressed adjacency list; reference resolution across local pointers
//! and absolute cross-document locations; and derivation of a range graph in
//! which a node's children are addressed by a contiguous index range, followed
//! by compaction of structural nodes that carry no keyword.

pub mod adjacency;
pub mod errors;
pub mod range_graph;
pub mod resolving;
pub mod scope;
pub mod json;
pub mod text;
