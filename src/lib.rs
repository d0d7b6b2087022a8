//! A square minesweeper board: mine placement, adjacency counts, the cascading
//! reveal of empty regions, and the state machine of one game.

pub mod grid;
pub mod cascade;
pub mod game;
