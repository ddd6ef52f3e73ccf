//! A generalized N x N Sudoku solver (house size H = sqrt(N)) built from
//! constraint propagation (exact candidate sets, forced-single elimination)
//! and depth-first backtracking over a stack of board snapshots, with
//! per-cell candidate-exclusion lists that shrink the search space on every
//! backtrack.
#![verifier::loop_isolation(false)]

pub mod board;
pub mod cands;
pub mod elim;
pub mod laws;
pub mod measure;
pub mod model;
pub mod search;
