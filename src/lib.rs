//! A read-only, label-keyed directed graph built once from parent/child
//! relations, answering children and multi-source descendant queries.
//!
//! Each label gets a dense identifier that is also the offset of its block
//! in one flat store: the block holds the node's degree followed by the
//! identifiers of its children. Descendants are found by a breadth-first
//! traversal whose visited set, kept in insertion order, is its own queue.
pub mod data;
pub mod model;
pub mod seen;
pub mod traverse;

pub use data::Data;
