//! Invariants of simple undirected graphs built around the first Zagreb index:
//! degree statistics, structural classification, vertex connectivity, and
//! heuristic Hamiltonicity and traceability tests.
//!
//! A [`Graph`] is viewed as its adjacency lists, a `Seq<Seq<usize>>` in which
//! entry `u` lists the neighbours of vertex `u` in the order the edges were
//! added. Every contract in this crate is stated over that view.
pub mod adjacency;
pub mod analysis;
pub mod classify;
pub mod connectivity;
pub mod graph;
pub mod independence;
pub mod laws;
pub mod search;
pub mod shapes;
pub mod shortest;
pub mod theorems;
pub mod witness;

pub use graph::Graph;
pub use graph::GraphError;
