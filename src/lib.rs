//! Optimal solver for the sliding-tile puzzle on an n×n board, with a spiral
//! target layout, pluggable heuristics, and an A* search whose frontier breaks
//! ties deterministically.

pub mod board;
pub mod frontier;
pub mod goal;
pub mod heuristic;
pub mod parity;
pub mod parse;
pub mod search;
pub mod visited;
