//! Conway's Game of Life on an unbounded (wrapping) grid of packed coordinates,
//! with integer screen mapping and pixel-buffer drawing.

pub mod chance;
pub mod collections;
pub mod events;
pub mod game;
pub mod input;
pub mod letters;
pub mod life;
pub mod overlay;
pub mod ppair;
pub mod screen;
pub mod timing;
