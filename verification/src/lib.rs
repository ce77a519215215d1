//! Rasterizes closed polygons into an RGB pixel canvas and encodes the canvas
//! as an uncompressed 24-bit bitmap.

pub mod bmp;
pub mod framebuffer;
pub mod line_impl;
pub mod polygon;
