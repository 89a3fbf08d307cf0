//! The error taxonomy for decoding.

use vstd::prelude::*;

verus! {

/// Why a decode attempt failed.  All decode failures are terminal for that
/// call: no partial image is returned and nothing is retried.
#[derive(Debug, Clone, Copy, PartialEq, Eq, Structural)]
pub enum DecodeError {
    /// The input does not start with the fixed 8-byte PNG signature.
    SignatureMismatch,
    /// A chunk is truncated or malformed: its length field runs past the
    /// input, a typed payload has the wrong shape, the chunk stream ends
    /// before an IEND chunk, or the scanline buffer is malformed.
    ChunkFramingError,
    /// The CRC-32 stored in a chunk does not match the checksum recomputed
    /// over the chunk's type and payload.
    CrcMismatch,
    /// The IHDR chunk declares a color type, bit depth, interlace method,
    /// compression method or filter method this library does not know,
    /// or a scanline carries an unknown filter type tag.
    UnsupportedHeaderValue,
    /// The concatenated IDAT stream could not be decompressed, or the
    /// decompressed stream has the wrong length for the declared geometry.
    DecompressionError,
    /// The image is indexed-color but has no PLTE chunk, or a pixel refers
    /// to a palette entry beyond the end of the palette.
    MissingPalette,
}

} // verus!
