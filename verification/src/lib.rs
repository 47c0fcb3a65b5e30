//! Set operations over lexicographically ordered key streams, and the node
//! registries that deduplicate compiled nodes while an automaton is built.

pub mod keys;
pub mod merge;
pub mod ops;
pub mod bump;
pub mod node;
pub mod registry;
pub mod registry_minimal;
pub mod laws;
