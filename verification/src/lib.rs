//! A turn-based reward-collection game on a fixed grid, with verified
//! decision strategies: uniform-random, one-step greedy, fixed-depth beam
//! search and wall-clock-bounded beam search.

pub mod episode;
pub mod rng;
pub mod search;
pub mod state;
pub mod strategy;
pub mod timer;
