//! Conway's Game of Life on a fixed-size torus, with every cell's live-neighbour
//! count kept in step with the board by incremental updates.
//!
//! [`Conway`] is the board. [`torus`] says what a generation is and how the
//! next one follows from it, [`cell`] how a cell is packed into a byte,
//! [`lfsr`] and [`seeding`] how a seed fills the board, and [`propagation`] why
//! the stored counts stay exact while cells change.

pub mod board;
pub mod cell;
pub mod lfsr;
pub mod pattern;
pub mod propagation;
pub mod seeding;
pub mod torus;

pub use board::Conway;
