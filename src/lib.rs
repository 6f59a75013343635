//! Rasterization of wireframe shapes into a fixed-size character grid.

pub mod raster;

pub mod buffer;

pub use buffer::ScreenBuffer;
