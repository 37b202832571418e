//! A 9x9 Sudoku puzzle engine.
//!
//! The engine keeps the grid state (cell values together with per-cell
//! editable and validity flags), expands a compact 81-letter template into a
//! playable board, reorients boards with symmetry transforms, validates moves
//! against the row/column/block rules, solves boards by exhaustive
//! backtracking, and serialises a board plus an elapsed duration to a flat
//! textual record.
//!
//! Presentation concerns (windowing, rendering, input, file paths) live
//! outside this crate; callers hand the engine plain values and get plain
//! values back.

pub mod board;
pub mod codec;
pub mod decode;
pub mod rng;
pub mod rules;
pub mod solve;
pub mod timer;
pub mod transform;

pub use board::SudokuBoard;
