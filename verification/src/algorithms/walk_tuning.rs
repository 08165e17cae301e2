//! Measures of how well random walks explore a graph.
pub mod distance;
pub mod evaluate;
