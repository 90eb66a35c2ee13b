//! Game-tree search for tic-tac-toe: a bit-packed position type, an exhaustive
//! memoizing solver, a Monte Carlo tree search over a shared position graph,
//! and a uniform random baseline.
pub mod types;
pub mod solver;
pub mod random;
pub mod rng;
pub mod mcts;
