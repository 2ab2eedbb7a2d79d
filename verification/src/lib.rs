//! A backtracking solver for 9×9 Sudoku grids, with machine-checked contracts.
//!
//! * [`puzzle`] models the grid: cells, rows, columns, blocks, candidate digits
//!   and the rule that no group holds a digit twice.
//! * [`cell_set`] is the set of cells in which candidates are handed out.
//! * [`sort`] is a stable merge sort by a "comes before" predicate.
//! * [`solver`] is the depth-first search that fills the grid.

pub mod cell_set;
pub mod puzzle;
pub mod solver;
pub mod sort;
