//! An in-memory property graph: identifier-keyed nodes holding structured
//! data, typed directed edges, and a breadth-first traversal.
pub mod value;
pub mod graph;
pub mod laws;
