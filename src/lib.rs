//! Escape-time rendering of the Mandelbrot set on fixed-point coordinates:
//! a grid of sub-sampled points, the escape-time iteration run on batches of
//! 64 lanes, and the mapping from image pixels to escape indices and palette
//! phases.
pub mod fixed;
pub mod grid;
pub mod kernel;
pub mod render;
