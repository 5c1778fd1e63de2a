//! The integer core of a small software rasterizer: an 8-bit RGB color, a
//! framebuffer with clipped pixel, line and triangle drawing, and the
//! index-level mesh utilities of an OBJ-style loader. Every drawing
//! operation carries a contract that pins down exactly which pixels change.

pub mod color;
pub mod image;
pub mod obj;
