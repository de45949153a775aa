//! A mosaic engine: it matches colors against a palette of tile colors, dithers
//! images by error diffusion and lays tiles out on a canvas, band by band.
pub mod algorithms;
pub mod bands;
pub mod dithering;
pub mod minecraftify;
pub mod mosaic;
pub mod paint;
pub mod pixel;
pub mod utils;
