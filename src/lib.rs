//! A constraint-propagation solver for 9x9 sudoku grids.
//!
//! The grid model lives in `grid`, the 3x3 box partition in `region`, and the
//! single-candidate deduction pass in `solver`.

mod cell;
mod grid;
mod region;
mod solver;

pub use cell::{GridError, ValueCell};
pub use grid::SudokuGrid;
pub use region::SubGrid;
pub use solver::ValueCellWrapper;
