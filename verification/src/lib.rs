//! Rules engine for a recursive box-pushing puzzle: a world of rectangular
//! grids ("paraboxes") that can contain one another as movable cell contents.
//! The library models the world, resolves directional pushes (including
//! recursive entry into contained boxes), and decides when a level is solved.

pub mod counting;
pub mod describe;
pub mod engine;
pub mod errors;
pub mod level;
pub mod parabox;
pub mod square;
