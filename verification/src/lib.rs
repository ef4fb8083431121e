//! Small verified building blocks: a directed graph with a free list of node
//! slots, the comma-separated number file format, a line-oriented record store,
//! and a few text helpers.

pub mod decimal;
pub mod graph;
pub mod graph_invariants;
pub mod graph_laws;
pub mod numbers;
pub mod outline;
pub mod store;
pub mod text;
