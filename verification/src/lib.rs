//! A Sudoku solving engine: constraint propagation over candidate sets,
//! completed by depth-first search, with every step stated and proved.
//!
//! A [`Board`] holds, for each of its 81 cells, the digits that may still
//! stand there. [`Board::solve`] first propagates: it takes the digit of
//! every decided cell out of the other cells of its row, column and
//! square, round after round, until nothing changes. Where that leaves
//! cells open, it guesses at the first of them, digit by digit in rising
//! order, and solves each guess in turn.
//!
//! The modules come in two layers. `cell`, `geometry` and `board` hold the
//! code that runs. `candidates`, `reduction`, `propagation` and `search`
//! say in mathematics what that code computes, on sets of digits and
//! sequences of such sets; every function that runs is proved to compute
//! exactly that. `solution` says what a solution is, and `laws` proves
//! what follows: the engine succeeds exactly on the boards that have a
//! solution, what it returns is a solution, and it is the first of them.
//!
//! Two modules stand at the edge: `reading` takes the values of a board
//! out of text, and `picture` draws a board in text.

pub mod board;
pub mod candidates;
pub mod cell;
pub mod geometry;
pub mod laws;
pub mod picture;
pub mod propagation;
pub mod reading;
pub mod reduction;
pub mod search;
pub mod solution;

pub use board::Board;
pub use cell::{Cell, InvalidInput};
pub use geometry::Kind;
