//! Escape-time rendering of the Mandelbrot set in fixed-point arithmetic,
//! with a scalar kernel and a lane-batched kernel that agree on every point.

pub mod fixed;
pub mod kernel;
pub mod window;
pub mod render;
