//! A software 3D rasterizer: frustum clipping, perspective projection,
//! scanline triangle filling with depth testing, and line drawing.
//!
//! All geometry runs on fixed-point integers (16 fractional bits), so the
//! whole pipeline is deterministic integer arithmetic with exact contracts.

pub mod canvas;
pub mod colors;
pub mod fixed;
pub mod structs;
pub mod utils;
pub mod vertex;
