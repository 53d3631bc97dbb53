//! A Minesweeper board: mine placement that keeps the first click safe,
//! adjacency counts, flood-fill reveal, flags, and a text rendering.

pub mod cell;
pub mod count;
pub mod board;
pub mod grid;
pub mod laws;
pub mod render;
