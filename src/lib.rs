//! Conway's Game of Life on a fixed-size grid whose edges wrap around.

pub mod grid;
pub mod universe;
pub mod seed;
