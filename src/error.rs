use vstd::prelude::*;

verus! {

/// Why a crop could not be made.
#[derive(Debug, Clone, Copy, PartialEq, Eq, Structural)]
pub enum PngError {
    /// The first eight bytes are not the PNG signature.
    InvalidSignature,
    /// A chunk's framing runs past the end of the buffer.
    Truncated,
    /// A checksum mismatch, inconsistent dimensions or undecodable pixel data.
    Corrupt,
    /// An interlaced image, a bit depth / colour type that is not handled, or an image
    /// whose decompressed data would be too large.
    Unsupported,
    /// The rectangle is empty or leaves the image.
    InvalidRect,
}

} // verus!
