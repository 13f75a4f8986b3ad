//! The sliding-tile puzzle: its grid, its boards and the search.

pub mod grid;
pub mod counting;
pub mod text;
pub mod board;
mod frontier;
pub mod solver;
