//! Algorithms over graphs.
pub mod utils;
pub mod subgraphs;
pub mod deduplicate;
pub mod update_weights;
pub mod markov;
pub mod neighbourhood;
pub mod reach;
pub mod walkers;
pub mod fast_walker;
pub mod walk_tuning;
