//! A chess rules engine: board state, fully legal move generation
//! (check, castling, en passant, promotion) and depth-limited
//! minimax search with alpha-beta pruning.

pub mod pieces;
pub mod model;
pub mod board;
pub mod ai;
pub mod protocol;
pub mod laws;
