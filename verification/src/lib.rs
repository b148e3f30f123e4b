//! Text-to-bitmap rendering: word wrapping, glyph rasterization onto a
//! sparse painted-pixel set, border drawing, and conversion of the sparse
//! set into a dense RGBA pixel buffer.

pub mod border;
pub mod color;
pub mod composite;
pub mod font;
pub mod raster;
pub mod render;
pub mod wrap;

pub use color::Rgba;
