//! A 9 × 9 Sudoku solver with two search strategies, proved against a
//! mathematical model of the grid.

pub mod board;
pub mod grid;
pub mod propagation;
pub mod search;
pub mod tile;

pub use board::{SudokuBoard, SUDOKU_BASE, SUDOKU_CELLS, SUDOKU_SIZE};
pub use tile::{Domain, Tile};
