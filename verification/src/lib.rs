//! A verified PNG encoder/decoder.
//!
//! The library parses a raw PNG byte stream into an in-memory pixel buffer
//! and serializes a pixel buffer back into valid PNG bytes.  The chunk
//! framing with CRC-32 integrity checks, the per-scanline predictive filter
//! engine, the Adam7 interlacing geometry and the bit-depth and
//! color-type-aware sample codec are all implemented and verified here; the
//! DEFLATE/zlib byte-stream compressor is used as a black box.

pub mod bytes;
pub mod chunks;
pub mod crc;
pub mod errors;
pub mod filters;
pub mod interlacing;
pub mod pixel;
pub mod png;
pub mod utils;
pub mod zlib;

pub use pixel::Pixel;
pub use png::PNG;
