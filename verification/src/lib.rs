//! Escape-time rendering of the Mandelbrot set, without the arithmetic.
//!
//! The library owns everything about an image of the set that is decided in
//! integers: the rounds of the escape-time loop, the walk over the pixel
//! grid, the blend along a two-colour gradient and the layout of the RGBA
//! pixel buffer. The caller owns the arithmetic in the complex plane: it
//! tells, for a pixel, whether the orbit is still within the escape radius.

pub mod escape;
pub mod field;
pub mod gradient;
pub mod grid;
pub mod render;
