//! A tile-based incremental renderer for the quadratic escape-time fractal
//! (the Mandelbrot set).
//!
//! All plane coordinates are held in fixed-point integers: a plane value `v`
//! is stored as `v * SCALE` in an `i64`, with `SCALE = 2^48`.  The viewport
//! keeps its center in "zoom units" (plane value = coordinate / zoom), the
//! plane is cut into grid-aligned square tiles, and tile results are memoized
//! across frames in a cache keyed by the tile's exact identity.

use vstd::prelude::*;

mod cache;
mod color;
mod complex;
mod framebuffer;
mod mandelbrot;
mod square;

pub use cache::SquareCache;
pub use color::Rgb;
pub use color::calculate_color;
pub use complex::Complex;
pub use framebuffer::Framebuffer;
pub use mandelbrot::Mandelbrot;
pub use square::Pixel;
pub use square::Square;
pub use square::SquareResult;

verus! {

/// Fixed-point scale: one plane unit is `SCALE` fixed-point steps (2^48).
pub const SCALE: i64 = 0x1_0000_0000_0000;

} // verus!
