//! Total weight of a minimum spanning tree by Prim's algorithm, driven by an
//! indexed binary min-heap with decrease-key.
//!
//! - `model`, `lemmas`, `heap`: the heap as a pair of sequences, what each
//!   operation does to it, and the executable heap.
//! - `graph`, `growth`, `traversal`: the graph, runs of Prim's algorithm on
//!   it, what holds while the tree grows, and the traversal itself.
//! - `sums`, `spanning`: spanning trees, and why no spanning tree of a graph
//!   listed in both directions weighs less than a run over all vertices.
//! - `input`: the text form of a graph.
//! - `laws`: what holds of sequences of heap operations and of repeated
//!   traversals.

pub mod graph;
pub mod growth;
pub mod heap;
pub mod input;
pub mod laws;
pub mod lemmas;
pub mod model;
pub mod spanning;
pub mod sums;
pub mod traversal;
