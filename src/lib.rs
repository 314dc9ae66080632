//! Rules engine and a depth-limited search player for Reversi (Othello) on a
//! rectangular board of at least two columns and two rows.

pub mod vector2;
pub mod reversi;
pub mod board_laws;
pub mod ai;
