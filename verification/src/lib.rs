//! Color-reduction pipeline for in-memory rasters: color-model conversion,
//! bilevel reduction, palette construction and quantization with
//! Floyd-Steinberg error diffusion, linear color-matrix transforms, and
//! mask-weighted compositing.

pub mod bilevel;
pub mod compose;
pub mod convert;
pub mod cssparse;
pub mod errors;
pub mod matrix;
pub mod palette;
pub mod pipeline;
pub mod quantize;
pub mod raster;
pub mod strutil;
