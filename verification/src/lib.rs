//! Verified core of a resin 3D-printer slicer: the run-length model of a
//! layer image, the scanline rasterizer that turns the outline crossings of
//! each pixel row into runs, and the small pieces of state that the editor
//! keeps per model.

pub mod rle;
pub mod raster;
pub mod warnings;
pub mod model;
pub mod printer;
pub mod overlap;
pub mod window;
