//! A terminal maze: randomized spanning-tree generation over a cell grid,
//! box-drawing wall rendering, and a wall-respecting walk engine with win
//! detection.

pub mod cells;
pub mod direction;
pub mod game;
pub mod maze;
