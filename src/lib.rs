//! Integer core of a tile-based sphere and black-hole renderer: pixel walks
//! over rectangles, the tiling of an image into work units, texel addressing
//! for textures, and the assembly of streamed pixel results into one image.
pub mod raster;
pub mod render;
pub mod texture;
pub mod utils;
