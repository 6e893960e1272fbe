//! A Minesweeper board engine: mine layout, neighbour counts, flood-fill uncovering, flags,
//! and the win and loss rules, each stated and proved.

pub mod board;
pub mod cascade;
pub mod counting;
pub mod game;
