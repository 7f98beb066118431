//! A verified solver for the sliding 8-puzzle.
//!
//! A board is a permutation of the tiles 1 through 8 and one blank (written 0)
//! on a 3-by-3 grid.  Starting from an initial board, the solver searches for a
//! sequence of blank moves that reaches a goal board, choosing at each step the
//! frontier candidate with the least estimated total cost under one of two
//! heuristics (Manhattan distance or Hamming mismatch count).

pub mod board;
pub mod frontier;
pub mod heuristic;
pub mod search;
