//! Bubble detection for directed sequence graphs.
//!
//! A breadth-first traversal tracks the width of successive frontiers, and a
//! matching pass pairs width increases with width decreases to emit bubble
//! records bracketing the divergence/convergence regions of the graph.

pub mod bubbles;
pub mod graph;
pub mod seqs;
