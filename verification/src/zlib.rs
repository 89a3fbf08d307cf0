//! The boundary to the DEFLATE/zlib compressor.  Compression and
//! decompression themselves are outside this library; their results are
//! named here and everything downstream of them is verified against those
//! names.

use vstd::prelude::*;

verus! {

/// The zlib stream that compressing `data` at this library's fixed effort
/// level produces.  Compression is a pure function of the input bytes.
pub uninterp spec fn deflate_of(data: Seq<u8>) -> Seq<u8>;

/// What decompressing a zlib stream yields: the original bytes, or nothing
/// when the stream is corrupt or incomplete.  Decompression is a pure
/// function of the input bytes.
pub uninterp spec fn inflate_of(data: Seq<u8>) -> Option<Seq<u8>>;

/// Relies on miniz_oxide::deflate::compress_to_vec_zlib: it compresses the
/// input to a zlib stream, deterministically for a fixed input and level,
/// and miniz_oxide::inflate::decompress_to_vec_zlib decompresses that
/// stream back to exactly the input.
#[verifier::external_body]
pub fn compress_zlib(data: &Vec<u8>) -> (r: Vec<u8>)
    ensures
        r@ == deflate_of(data@),
        inflate_of(r@) == Some(data@),
{
    miniz_oxide::deflate::compress_to_vec_zlib(data.as_slice(), 8)
}

/// Relies on miniz_oxide::inflate::decompress_to_vec_zlib: it yields the
/// decompressed bytes of a well-formed zlib stream and reports an error on
/// a corrupt or incomplete one, deterministically in the input bytes.
#[verifier::external_body]
pub fn decompress_zlib(data: &Vec<u8>) -> (r: Option<Vec<u8>>)
    ensures
        match r {
            Some(v) => inflate_of(data@) == Some(v@),
            Option::None => inflate_of(data@) is None,
        },
{
    match miniz_oxide::inflate::decompress_to_vec_zlib(data.as_slice()) {
        Ok(v) => Some(v),
        Err(_) => Option::None,
    }
}

} // verus!
