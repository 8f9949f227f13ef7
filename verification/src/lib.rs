//! A solver for 9x9 Sudoku puzzles.
//!
//! A puzzle is read from text into a [`Sudoku`] grid and turned into an
//! [`UnsolvedSudoku`] board, on which every cell is fixed or holds the digits
//! that are still possible for it. Assigning a digit strikes it from the row,
//! the column and the square of the cell, and fixes every cell that is left
//! with one candidate. The elimination pass places the digits that have a
//! single open place left in a group. Where that does not fix every cell, the
//! search tries the candidates of one cell on copies of the board and tells
//! whether the puzzle has one solution, none, or more than one.

pub mod board;
pub mod cascade;
pub mod cell;
pub mod convert;
pub mod elimination;
pub mod parse;
pub mod propagate;
pub mod render;
pub mod search;
pub mod solution;
pub mod subarray;
pub mod sudoku;
pub mod unsolved;

pub use cell::{Cell, Removal};
pub use parse::ParseError;
pub use search::Unsolveable;
pub use subarray::{Column, GroupKind, Row, Square, SubArray};
pub use sudoku::Sudoku;
pub use unsolved::UnsolvedSudoku;
