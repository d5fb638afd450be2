//! Perfect play for tic-tac-toe: positions, their values under exhaustive
//! negamax search with distance to the result, and moves ranked by value.

pub mod board;
pub mod coord;
pub mod eval;
pub mod piece;
