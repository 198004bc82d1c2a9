//! Generation and solving of 9x9 Sudoku puzzles.
//!
//! [`grid`] describes the geometry of the grid and what it means for a grid
//! to be valid, and [`completion`] what it means to complete one. [`group`]
//! holds the nine-slot counter vectors and [`board`] the board: a grid with
//! the mask of its clues. [`solver`] holds the backtracking least-options
//! search with its constraint index, and the proof that the search finds a
//! solution whenever there is one. [`generator`] holds the random puzzle
//! generator that drives the search, and [`render`] the text form of a
//! board.

pub mod board;
pub mod completion;
pub mod error;
pub mod generator;
pub mod grid;
pub mod group;
pub mod render;
pub mod solver;
