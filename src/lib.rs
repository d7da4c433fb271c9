//! A text-mode maze explorer: maze generation with a guaranteed path to a
//! boundary exit, the grid walk of a raycaster, and fractal dither patterns.
pub mod bayer;
pub mod grid;
pub mod maze;
pub mod raycast;
pub mod game;
