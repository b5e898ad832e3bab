//! Escape-time rendering of the Mandelbrot set into RGBA pixel buffers,
//! with every double-precision operation carried out on bit patterns by
//! integer code, so that the whole renderer is open to proof.

pub mod arith;
pub mod convert;
pub mod escape;
pub mod format;
pub mod palette;
pub mod power;
pub mod renderer;
pub mod rounding;
pub mod shading;

pub use crate::format::Binary64;
pub use crate::palette::Color;
pub use crate::renderer::{Mandelbrot, RenderError};
