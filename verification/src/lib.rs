//! A verified solver for the classic 9x9 digit-placement puzzle.
//!
//! The solver combines constraint propagation over a per-cell candidate
//! table with chronological backtracking: when deduction stalls it guesses
//! a value for a promising cell, snapshots the state, and unwinds the
//! guess if propagation later proves it wrong.
//!
//! The whole engine is verified: the solver terminates, reports a solved
//! board exactly when the board is completely and validly filled, never
//! overwrites a clue, and — started on a fresh state — reports the search
//! exhausted only when the puzzle provably has no solution.

pub mod backtracking;
pub mod grid;
pub mod measure;
pub mod sudoku;
pub mod utils;
