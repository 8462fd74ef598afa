//! A solver for takuzu-style binary puzzles.
//!
//! An `n` x `n` grid (`n` even) is filled with the symbols `0` and `1` so
//! that every row and column holds exactly `n / 2` of each symbol, no three
//! equal symbols stand in a row or column consecutively, and no two rows and
//! no two columns are identical.  The library models the board, classifies
//! partial grids, deduces forced cells, and enumerates every completion of a
//! given set of clues.

pub mod checker;
pub mod grid;
pub mod propagate;
pub mod rules;
pub mod scanner;
pub mod search;

pub use checker::CheckResult;
pub use checker::check;
pub use grid::Cell;
pub use grid::clone_grid;
pub use grid::get_cell;
pub use grid::get_field;
pub use grid::render_grid;
pub use grid::set_cell;
pub use propagate::simple_solve;
pub use scanner::Scanner;
pub use search::pick_cell;
pub use search::solve;
