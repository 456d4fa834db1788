//! Bitboard Connect Four: board representation, transposition table,
//! exact alpha-beta solver, heuristic evaluation and depth-limited minimax.

pub mod board;
pub mod tt;
pub mod search;
pub mod value;
pub mod mirror;
pub mod eval;
pub mod minimax;
pub mod ai;
pub mod play;
pub mod mcts;
