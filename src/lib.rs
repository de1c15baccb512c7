//! Cropping of PNG images held in memory.
//!
//! The chunk stream is read with its framing and CRCs checked, the header rewritten to
//! the rectangle's size, the pixel data decompressed, defiltered, cut to the rectangle,
//! written again with filter type None and recompressed, and the other chunks copied or
//! dropped as a policy says.
mod bytes;
pub mod chunk;
pub mod crop;
pub mod error;
pub mod png;
pub mod raster;

pub use crop::{can_output, crop, crop_with_policy, ChunkPolicy, Rect};
pub use error::PngError;
