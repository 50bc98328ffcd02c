//! Sierpinski triangle fractal: exact geometry of the subdivision and the
//! sequence of draw commands that renders it.
pub mod geometry;
pub mod render;
pub mod random;
pub mod style;
