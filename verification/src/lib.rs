//! A constraint-propagation solver for 9x9 Sudoku grids.
//!
//! The solver keeps, for every square, either a determined digit or the set
//! of digits still possible there, and repeatedly applies a fixed battery of
//! elimination rules (naked and hidden singles, hidden pairs and triples,
//! pointing pairs, box-line reduction) until the grid is fully determined,
//! the rules stop making progress, or a contradiction surfaces.

pub mod mask;
pub mod board;
pub mod rules;
pub mod solver;
