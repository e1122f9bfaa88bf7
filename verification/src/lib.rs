//! A small software rasterizer: an RGB pixel buffer addressed from the
//! bottom-left corner, a line primitive, an even-odd scanline polygon filler
//! and a 24-bit bitmap encoder.

pub mod bmp;
pub mod framebuffer;
pub mod line;
pub mod polygon;
pub mod text;
