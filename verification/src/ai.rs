//! Which algorithm backs an AI-controlled seat, and the parameters each
//! one is built with.

use vstd::prelude::*;

verus! {

/// A cheap, `Copy`-able tag for "which algorithm" -- distinct from the
/// engine itself, which owns the (potentially large) runtime state for
/// whichever algorithm is chosen.
#[derive(Clone, Copy, PartialEq, Eq, Debug, Structural)]
pub enum AiKind {
    /// Exact game-theoretic solver (`search::Solver`).
    Perfect,
    /// Depth-limited minimax with a heuristic evaluation function.
    Minimax,
    /// Monte Carlo Tree Search with a wall-clock time budget.
    Mcts,
}

/// Construction parameters for each possible `AiKind`. Fields not relevant
/// to a given kind are simply ignored when building that kind.
pub struct AiConfig {
    pub tt_size: usize,
    pub minimax_depth: u32,
    pub mcts_budget: std::time::Duration,
}

} // verus!
