//! The façade: a PNG image broken down into header, preserved chunks and
//! pixels, with `decode` from raw bytes and `encode` back to them.

use crate::bytes::{append_bytes, be16_bytes, push_be16};
use crate::chunks::{
    chunk_bytes_spec, chunk_model_bytes, chunk_model_wf, idat_type_bytes, iend_type_bytes,
    ihdr_payload_spec, phys_payload_spec, phys_type_bytes,
    ihdr_chunk_bytes, parse_chunk, parse_chunk_spec, valid_bit_depth_spec, Chunk, ChunkModel,
    ColorType, Entry, IDATChunk, IENDChunk, IHDRChunk, Interlacing, PLTEChunk, tRNSChunk,
};
use crate::errors::DecodeError;
use crate::filters::{
    expected_data_len, filt_all, filter_scanlines, pass_line_len, pass_offset,
    reconstruct_scanlines, recon_all,
};
use crate::interlacing::{pass_height_spec, pass_width_spec};
use crate::pixel::{image_pixels_bad, pixels_model, Pixel};
use crate::utils::scanline_width_spec;
use crate::zlib::{compress_zlib, decompress_zlib, deflate_of, inflate_of};
use vstd::prelude::*;

verus! {

/// The fixed 8-byte magic every PNG file starts with.
pub open spec fn signature_bytes() -> Seq<u8> {
    seq![0x89u8, 0x50u8, 0x4eu8, 0x47u8, 0x0du8, 0x0au8, 0x1au8, 0x0au8]
}

/// What has accumulated while walking the chunk stream.
pub struct StreamState {
    /// The header, once the IHDR chunk has been seen.
    pub header: Option<IHDRChunk>,
    /// The palette, if a PLTE chunk has been seen.
    pub palette: Option<Seq<Entry>>,
    /// The transparency table, if a tRNS chunk has been seen.
    pub transparency: Option<Seq<u8>>,
    /// The concatenation of every IDAT payload, in file order.
    pub idat: Seq<u8>,
    /// The chunks preserved for replay, in encounter order.
    pub extras: Seq<ChunkModel>,
}

/// The state before any chunk has been read.
pub open spec fn init_state() -> StreamState {
    StreamState {
        header: Option::None,
        palette: Option::None,
        transparency: Option::None,
        idat: Seq::empty(),
        extras: Seq::empty(),
    }
}

/// The shape the transparency table must have for a color type: one 16-bit
/// grey sample, three 16-bit samples, or at most one alpha byte per
/// possible palette index; the alpha-carrying color types admit no table.
pub open spec fn trns_shape_ok(ct: ColorType, t: Seq<u8>) -> bool {
    match ct {
        ColorType::Greyscale => t.len() == 2,
        ColorType::Truecolor => t.len() == 6,
        ColorType::IndexedColor => t.len() <= 256,
        ColorType::GreyscaleWithAlpha => false,
        ColorType::TruecolorWithAlpha => false,
    }
}

/// Fold one chunk into the accumulated state.  The first chunk must be the
/// IHDR and no second IHDR may appear; a tRNS chunk must fit the declared
/// color type; pHYs and unrecognized chunks are preserved for replay.
pub open spec fn accumulate_chunk(st: StreamState, m: ChunkModel) -> Result<
    StreamState,
    DecodeError,
> {
    match st.header {
        Option::None => match m {
            ChunkModel::Ihdr(h) => Ok(StreamState { header: Some(h), ..st }),
            _ => Err(DecodeError::ChunkFramingError),
        },
        Some(h) => match m {
            ChunkModel::Ihdr(_) => Err(DecodeError::ChunkFramingError),
            ChunkModel::Plte(cs) => Ok(StreamState { palette: Some(cs), ..st }),
            ChunkModel::Trns(t) => if trns_shape_ok(h.color_type, t) {
                Ok(StreamState { transparency: Some(t), ..st })
            } else {
                Err(DecodeError::ChunkFramingError)
            },
            ChunkModel::Idat(d) => Ok(StreamState { idat: st.idat + d, ..st }),
            ChunkModel::Iend => Ok(st),
            ChunkModel::Phys(p) => Ok(
                StreamState { extras: st.extras.push(ChunkModel::Phys(p)), ..st },
            ),
            ChunkModel::Other(t, d) => Ok(
                StreamState { extras: st.extras.push(ChunkModel::Other(t, d)), ..st },
            ),
        },
    }
}

/// Walk the chunk stream from `pos`, folding each chunk into the state,
/// until an IEND chunk stops it; running out of input first, or any
/// malformed chunk, fails the walk.
pub open spec fn run_chunks(s: Seq<u8>, pos: int, st: StreamState) -> Result<
    StreamState,
    DecodeError,
>
    decreases s.len() - pos,
        when 0 <= pos <= s.len()
{
    match parse_chunk_spec(s, pos) {
        Err(e) => Err(e),
        Ok((m, np)) => match m {
            ChunkModel::Iend => Ok(st),
            _ => match accumulate_chunk(st, m) {
                Err(e) => Err(e),
                Ok(st2) => if pos + 12 <= np <= s.len() {
                    run_chunks(s, np, st2)
                } else {
                    Err(DecodeError::ChunkFramingError)
                },
            },
        },
    }
}

/// Whether scanline `r` of a run of `ll`-byte scanlines carries a known
/// filter type tag.
pub open spec fn scan_tag_ok(data: Seq<u8>, ll: int, r: int) -> bool {
    data[r * ll] < 5
}

/// Whether scanline `i` of pass `q` carries a known filter type tag.
pub open spec fn pass_tag_ok(data: Seq<u8>, w: int, h: int, pw: int, q: int, i: int) -> bool {
    data[pass_offset(w, h, pw, q) + i * pass_line_len(w, pw, q)] < 5
}

/// Whether every scanline of the decompressed stream carries a known
/// filter type tag.
pub open spec fn tags_ok(data: Seq<u8>, h: IHDRChunk) -> bool {
    let w = h.width as int;
    let hh = h.height as int;
    let pw = crate::chunks::pixel_width_spec(h);
    match h.interlace_method {
        Interlacing::NoInterlace => {
            let ll = scanline_width_spec(w, pw);
            forall|r: int| 0 <= r < hh ==> #[trigger] scan_tag_ok(data, ll, r)
        },
        Interlacing::Adam7 => {
            forall|q: int, i: int|
                (0 <= q < 7 && pass_width_spec(w, q) > 0 && 0 <= i < pass_height_spec(hh, q))
                    ==> #[trigger] pass_tag_ok(data, w, hh, pw, q, i)
        },
    }
}

/// What decoding the decompressed scanline stream yields: the stream must
/// have exactly the length the header calls for, the pixel buffer must be
/// addressable, every scanline must carry a known filter tag, and every
/// palette reference must resolve; then the scanlines are reconstructed
/// and their samples decoded.
pub open spec fn pixels_pipeline_spec(
    data: Seq<u8>,
    h: IHDRChunk,
    pal: Option<Seq<Entry>>,
    trns: Option<Seq<u8>>,
) -> Result<Seq<Pixel>, DecodeError> {
    if data.len() != expected_data_len(h) {
        Err(DecodeError::DecompressionError)
    } else if (h.width as int) * (h.height as int) > usize::MAX {
        Err(DecodeError::DecompressionError)
    } else if !tags_ok(data, h) {
        Err(DecodeError::UnsupportedHeaderValue)
    } else {
        let rec = recon_all(data, h);
        if image_pixels_bad(rec, h, pal) {
            Err(DecodeError::MissingPalette)
        } else {
            Ok(pixels_model(rec, h, pal, trns))
        }
    }
}

/// The mathematical content of a decoded image.
pub struct PngModel {
    /// The image header as the IHDR chunk declared it.
    pub header: IHDRChunk,
    /// The preserved chunks, in encounter order.
    pub extras: Seq<ChunkModel>,
    /// The row-major canonical pixel buffer.
    pub pixels: Seq<Pixel>,
}

/// What decoding a byte stream yields: the signature is checked, the chunk
/// stream walked to IEND, the IDAT payloads decompressed, and the scanline
/// stream reconstructed and decoded into pixels.
pub open spec fn decode_spec(bytes: Seq<u8>) -> Result<PngModel, DecodeError> {
    if bytes.len() < 8 || bytes.subrange(0, 8) != signature_bytes() {
        Err(DecodeError::SignatureMismatch)
    } else {
        match run_chunks(bytes, 8, init_state()) {
            Err(e) => Err(e),
            Ok(st) => match st.header {
                Option::None => Err(DecodeError::ChunkFramingError),
                Some(h) => match inflate_of(st.idat) {
                    Option::None => Err(DecodeError::DecompressionError),
                    Some(data) => match pixels_pipeline_spec(
                        data,
                        h,
                        st.palette,
                        st.transparency,
                    ) {
                        Err(e) => Err(e),
                        Ok(px) => Ok(PngModel { header: h, extras: st.extras, pixels: px }),
                    },
                },
            },
        }
    }
}

/// A PNG image, broken down and interpreted.
#[derive(Debug, Clone)]
pub struct PNG {
    /// The IHDR metadata for the image.
    pub header: IHDRChunk,
    /// Any PNG chunks that the library doesn't interpret.
    pub extra_chunks: Vec<Chunk>,
    /// A collection of pixels.  Top left is 0 and bottom right is
    /// `width * height - 1`.
    pub pixels: Vec<Pixel>,
}

impl PNG {
    /// Construct an image with just the base dimensions and a collection of
    /// pixels.
    pub fn new(height: u32, width: u32, pixels: Vec<Pixel>) -> (r: PNG)
        ensures
            r.header == (IHDRChunk {
                width,
                height,
                bit_depth: 8,
                color_type: ColorType::TruecolorWithAlpha,
                compression_method: 0,
                filter_method: 0,
                interlace_method: Interlacing::NoInterlace,
            }),
            r.extra_chunks@.len() == 0,
            r.pixels == pixels,
    {
        let ihdr = IHDRChunk {
            height,
            width,
            bit_depth: 8,
            color_type: ColorType::TruecolorWithAlpha,
            filter_method: 0,
            compression_method: 0,
            interlace_method: Interlacing::NoInterlace,
        };
        PNG { header: ihdr, extra_chunks: Vec::new(), pixels }
    }
}

/// The exact decompressed stream length the header calls for, computed
/// exactly in 128-bit arithmetic.
fn expected_len_u128(h: &IHDRChunk) -> (r: u128)
    requires
        valid_bit_depth_spec(h.color_type, h.bit_depth),
    ensures
        r as int == expected_data_len(*h),
{
    let ghost wi = h.width as int;
    let ghost hi = h.height as int;
    let ghost pwg = crate::chunks::pixel_width_spec(*h);
    proof {
        assert(1 <= crate::chunks::channel_count_spec(h.color_type) * h.bit_depth <= 64)
            by (nonlinear_arith)
            requires
                1 <= crate::chunks::channel_count_spec(h.color_type) <= 4,
                1 <= h.bit_depth <= 16,
        ;
    }
    let pw = h.pixel_width();
    match h.interlace_method {
        Interlacing::NoInterlace => {
            proof {
                assert((h.width as int) * (pw as int) <= 0x10000000000 && 0 <= (h.width as int) * (
                pw as int)) by (nonlinear_arith)
                    requires
                        0 <= h.width <= 0xffffffffu32,
                        0 <= pw <= 64,
                ;
            }
            let bits: u128 = h.width as u128 * pw as u128;
            let line: u128 = bits / 8 + if bits % 8 > 0 {
                1
            } else {
                0
            } + 1;
            proof {
                assert(bits as int == wi * pwg) by (nonlinear_arith)
                    requires
                        bits as int == (h.width as int) * (pw as int),
                        pw as int == pwg,
                        wi == h.width as int,
                ;
                assert(line as int == scanline_width_spec(wi, pwg));
                assert(hi * (line as int) <= 0x100000000 * 0x4000000000) by (nonlinear_arith)
                    requires
                        0 <= hi < 0x100000000,
                        0 <= (line as int) && (line as int) <= 0x4000000000,
                ;
            }
            proof {
                assert((h.height as int) * (line as int) <= 0x100000000 * 0x4000000000 && 0 <= (
                h.height as int) * (line as int)) by (nonlinear_arith)
                    requires
                        0 <= h.height <= 0xffffffffu32,
                        0 <= (line as int) && (line as int) <= 0x4000000000,
                ;
            }
            let r = h.height as u128 * line;
            proof {
                assert(r as int == hi * (line as int)) by (nonlinear_arith)
                    requires
                        r as int == (h.height as int) * (line as int),
                        hi == h.height as int,
                ;
            }
            r
        },
        Interlacing::Adam7 => {
            let mut acc: u128 = 0;
            let mut q: usize = 0;
            while q < 7
                invariant
                    q <= 7,
                    valid_bit_depth_spec(h.color_type, h.bit_depth),
                    wi == h.width as int,
                    hi == h.height as int,
                    pwg == crate::chunks::pixel_width_spec(*h),
                    1 <= pw as int == pwg,
                    pwg <= 64,
                    acc as int == pass_offset(wi, hi, pwg, q as int),
                    acc as int <= (q as int) * 0x400000000000000000,
                decreases 7 - q,
            {
                let (row_start, col_start, row_stride, col_stride) =
                    crate::interlacing::Adam7Iter::pass_parameters(q);
                let w_usize = h.width as usize;
                let h_usize = h.height as usize;
                let pass_w = if w_usize > col_start {
                    crate::utils::div_ceil(w_usize - col_start, col_stride)
                } else {
                    0
                };
                let pass_h = if h_usize > row_start {
                    crate::utils::div_ceil(h_usize - row_start, row_stride)
                } else {
                    0
                };
                proof {
                    assert(pass_w == pass_width_spec(wi, q as int));
                    assert(pass_h == pass_height_spec(hi, q as int));
                }
                if pass_w > 0 && pass_h > 0 {
                    proof {
                        assert((pass_w as int) * (pw as int) <= 0x10000000000 && 0 <= (pass_w
                            as int) * (pw as int)) by (nonlinear_arith)
                            requires
                                0 <= (pass_w as int) && (pass_w as int) <= 0xffffffff,
                                0 <= pw <= 64,
                        ;
                    }
                    let bits: u128 = pass_w as u128 * pw as u128;
                    let line: u128 = bits / 8 + if bits % 8 > 0 {
                        1
                    } else {
                        0
                    } + 1;
                    proof {
                        assert(bits as int == (pass_w as int) * pwg) by (nonlinear_arith)
                            requires
                                bits as int == (pass_w as int) * (pw as int),
                                pw as int == pwg,
                        ;
                        assert(line as int == pass_line_len(wi, pwg, q as int));
                        assert((pass_h as int) * (line as int) <= 0x100000000 * 0x4000000000
                            && 0 <= (pass_h as int) * (line as int)) by (nonlinear_arith)
                            requires
                                0 <= (pass_h as int) && (pass_h as int) < 0x100000000,
                                0 <= (line as int) && (line as int) <= 0x4000000000,
                        ;
                    }
                    let seg: u128 = pass_h as u128 * line;
                    proof {
                        assert(crate::filters::pass_seg_bytes(wi, hi, pwg, q as int) == seg as int);
                        assert(seg as int <= 0x400000000000000000);
                        assert((q as int + 1) * 0x400000000000000000 == (q as int)
                            * 0x400000000000000000 + 0x400000000000000000) by (nonlinear_arith);
                        assert((q as int) * 0x400000000000000000 <= 7 * 0x400000000000000000)
                            by (nonlinear_arith)
                            requires
                                0 <= q <= 7,
                        ;
                    }
                    acc = acc + seg;
                } else {
                    proof {
                        assert(crate::filters::pass_seg_bytes(wi, hi, pwg, q as int) == 0);
                    }
                }
                q = q + 1;
            }
            acc
        },
    }
}

/// Whether every scanline of the decompressed stream carries a known
/// filter type tag.
fn check_tags(data: &Vec<u8>, h: &IHDRChunk) -> (r: bool)
    requires
        data@.len() == expected_data_len(*h),
        valid_bit_depth_spec(h.color_type, h.bit_depth),
    ensures
        r == tags_ok(data@, *h),
{
    let ghost wi = h.width as int;
    let ghost hi = h.height as int;
    let ghost pwg = crate::chunks::pixel_width_spec(*h);
    proof {
        assert(1 <= crate::chunks::channel_count_spec(h.color_type) * h.bit_depth <= 64)
            by (nonlinear_arith)
            requires
                1 <= crate::chunks::channel_count_spec(h.color_type) <= 4,
                1 <= h.bit_depth <= 16,
        ;
    }
    let pwbits = h.pixel_width();
    let _n = data.len();
    match h.interlace_method {
        Interlacing::NoInterlace => {
            if h.height == 0 {
                return true;
            }
            let ghost ll = scanline_width_spec(wi, pwg);
            proof {
                assert(wi * pwg >= 0) by (nonlinear_arith)
                    requires
                        wi >= 0,
                        pwg >= 0,
                ;
                assert(ll * 1 <= hi * ll && ll * 1 == ll && hi * ll == ll * hi)
                    by (nonlinear_arith)
                    requires
                        1 <= hi,
                        0 <= ll,
                ;
            }
            let line_len = crate::utils::calculate_scanline_width(h.width, pwbits);
            let h_usize = h.height as usize;
            let mut row: usize = 0;
            while row < h_usize
                invariant
                    row <= h_usize,
                    h_usize as int == hi,
                    1 <= hi,
                    wi == h.width as int,
                    hi == h.height as int,
                    pwg == crate::chunks::pixel_width_spec(*h),
                    h.interlace_method == Interlacing::NoInterlace,
                    ll == scanline_width_spec(wi, pwg),
                    line_len as int == ll,
                    1 <= ll,
                    data@.len() == hi * ll,
                    data@.len() <= usize::MAX,
                    forall|rr: int| 0 <= rr < row ==> #[trigger] scan_tag_ok(data@, ll, rr),
                decreases h_usize - row,
            {
                proof {
                    assert((row as int) * ll + ll <= hi * ll && 0 <= (row as int) * ll)
                        by (nonlinear_arith)
                        requires
                            0 <= row < hi,
                            1 <= ll,
                    ;
                }
                if data[row * line_len] >= 5 {
                    proof {
                        assert(!scan_tag_ok(data@, ll, row as int));
                        assert(!tags_ok(data@, *h)) by {
                            assert(ll == scanline_width_spec(
                                h.width as int,
                                crate::chunks::pixel_width_spec(*h),
                            ));
                            if tags_ok(data@, *h) {
                                assert(scan_tag_ok(
                                    data@,
                                    scanline_width_spec(
                                        h.width as int,
                                        crate::chunks::pixel_width_spec(*h),
                                    ),
                                    row as int,
                                ));
                            }
                        }
                    }
                    return false;
                }
                proof {
                    assert(scan_tag_ok(data@, ll, row as int));
                }
                row = row + 1;
            }
            true
        },
        Interlacing::Adam7 => {
            let w_usize = h.width as usize;
            let h_usize = h.height as usize;
            let mut offset: usize = 0;
            let mut q: usize = 0;
            while q < 7
                invariant
                    q <= 7,
                    wi == h.width as int,
                    hi == h.height as int,
                    w_usize as int == wi,
                    h_usize as int == hi,
                    pwg == crate::chunks::pixel_width_spec(*h),
                    1 <= pwbits as int == pwg,
                    h.interlace_method == Interlacing::Adam7,
                    valid_bit_depth_spec(h.color_type, h.bit_depth),
                    data@.len() == pass_offset(wi, hi, pwg, 7),
                    data@.len() <= usize::MAX,
                    offset == pass_offset(wi, hi, pwg, q as int),
                    forall|qq: int, ii: int|
                        (0 <= qq < q && pass_width_spec(wi, qq) > 0 && 0 <= ii < pass_height_spec(
                            hi,
                            qq,
                        )) ==> #[trigger] pass_tag_ok(data@, wi, hi, pwg, qq, ii),
                decreases 7 - q,
            {
                let (row_start, col_start, row_stride, col_stride) =
                    crate::interlacing::Adam7Iter::pass_parameters(q);
                let pass_w = if w_usize > col_start {
                    crate::utils::div_ceil(w_usize - col_start, col_stride)
                } else {
                    0
                };
                let pass_h = if h_usize > row_start {
                    crate::utils::div_ceil(h_usize - row_start, row_stride)
                } else {
                    0
                };
                proof {
                    assert(pass_w == pass_width_spec(wi, q as int));
                    assert(pass_h == pass_height_spec(hi, q as int));
                    crate::filters::lemma_pass_offset_mono_pub(wi, hi, pwg, q as int + 1, 7);
                }
                if pass_w == 0 || pass_h == 0 {
                    q = q + 1;
                    continue ;
                }
                let ghost llg = pass_line_len(wi, pwg, q as int);
                proof {
                    assert(pass_offset(wi, hi, pwg, q as int + 1) == offset + (pass_h as int)
                        * llg);
                    assert(llg * 1 <= (pass_h as int) * llg && llg * 1 == llg && (pass_h as int)
                        * llg == llg * (pass_h as int) && 0 <= (pass_h as int) * llg)
                        by (nonlinear_arith)
                        requires
                            1 <= pass_h,
                            0 <= llg,
                    ;
                }
                let ll = crate::utils::calculate_scanline_width(pass_w as u32, pwbits);
                let mut i: usize = 0;
                while i < pass_h
                    invariant
                        i <= pass_h,
                        wi == h.width as int,
                        hi == h.height as int,
                        w_usize as int == wi,
                        h_usize as int == hi,
                        pwg == crate::chunks::pixel_width_spec(*h),
                        1 <= pwbits as int == pwg,
                        h.interlace_method == Interlacing::Adam7,
                        valid_bit_depth_spec(h.color_type, h.bit_depth),
                        data@.len() == pass_offset(wi, hi, pwg, 7),
                        data@.len() <= usize::MAX,
                        q < 7,
                        1 <= pass_w as int == pass_width_spec(wi, q as int),
                        1 <= pass_h as int == pass_height_spec(hi, q as int),
                        llg == pass_line_len(wi, pwg, q as int),
                        ll as int == llg,
                        1 <= llg,
                        offset == pass_offset(wi, hi, pwg, q as int),
                        offset + (pass_h as int) * llg <= data@.len(),
                        forall|qq: int, ii: int|
                            (0 <= qq < q && pass_width_spec(wi, qq) > 0 && 0 <= ii
                                < pass_height_spec(hi, qq)) ==> #[trigger] pass_tag_ok(
                                data@,
                                wi,
                                hi,
                                pwg,
                                qq,
                                ii,
                            ),
                        forall|ii: int|
                            0 <= ii < i ==> #[trigger] pass_tag_ok(
                                data@,
                                wi,
                                hi,
                                pwg,
                                q as int,
                                ii,
                            ),
                    decreases pass_h - i,
                {
                    proof {
                        assert((i as int) * llg + llg <= (pass_h as int) * llg && 0 <= (i as int)
                            * llg && (i as int + 1) * llg == (i as int) * llg + llg)
                            by (nonlinear_arith)
                            requires
                                0 <= i < pass_h,
                                1 <= llg,
                        ;
                    }
                    if data[offset + i * ll] >= 5 {
                        proof {
                            assert(!pass_tag_ok(data@, wi, hi, pwg, q as int, i as int));
                            assert(!tags_ok(data@, *h)) by {
                                if tags_ok(data@, *h) {
                                    assert(pass_tag_ok(data@, wi, hi, pwg, q as int, i as int));
                                }
                            }
                        }
                        return false;
                    }
                    proof {
                        assert(pass_tag_ok(data@, wi, hi, pwg, q as int, i as int));
                    }
                    i = i + 1;
                }
                offset = offset + ll * pass_h;
                q = q + 1;
            }
            true
        },
    }
}

/// The stream state the exec decoder's accumulators stand for.
pub open spec fn st_of(
    header: Option<IHDRChunk>,
    palette: Option<PLTEChunk>,
    transparency: Option<tRNSChunk>,
    idat: Seq<u8>,
    extras: Seq<Chunk>,
) -> StreamState {
    StreamState {
        header,
        palette: match palette {
            Some(p) => Some(p@),
            Option::None => Option::None,
        },
        transparency: match transparency {
            Some(t) => Some(t@),
            Option::None => Option::None,
        },
        idat,
        extras: Seq::new(extras.len(), |i: int| extras[i]@),
    }
}

impl PNG {
    /// Decode a series of bytes as a PNG image, returning the failure the
    /// bytes provoke if a problem is found with the data.
    pub fn decode(bytes: &Vec<u8>) -> (r: Result<PNG, DecodeError>)
        ensures
            ({
                match decode_spec(bytes@) {
                    Ok(m) => {
                        &&& r matches Ok(p)
                        &&& p.header == m.header
                        &&& p.extra_chunks@.len() == m.extras.len()
                        &&& forall|i: int|
                            0 <= i < m.extras.len() ==> (#[trigger] p.extra_chunks@[i])@
                                == m.extras[i]
                        &&& p.pixels@ == m.pixels
                    },
                    Err(e) => r == Err::<PNG, DecodeError>(e),
                }
            }),
    {
        let n = bytes.len();
        if n < 8 {
            return Err(DecodeError::SignatureMismatch);
        }
        let sig_ok = bytes[0] == 0x89 && bytes[1] == 0x50 && bytes[2] == 0x4e && bytes[3] == 0x47
            && bytes[4] == 0x0d && bytes[5] == 0x0a && bytes[6] == 0x1a && bytes[7] == 0x0a;
        proof {
            if sig_ok {
                assert(bytes@.subrange(0, 8) =~= signature_bytes());
            } else {
                assert(bytes@.subrange(0, 8) != signature_bytes()) by {
                    if bytes@.subrange(0, 8) == signature_bytes() {
                        assert(bytes@.subrange(0, 8)[0] == bytes@[0]);
                        assert(bytes@.subrange(0, 8)[1] == bytes@[1]);
                        assert(bytes@.subrange(0, 8)[2] == bytes@[2]);
                        assert(bytes@.subrange(0, 8)[3] == bytes@[3]);
                        assert(bytes@.subrange(0, 8)[4] == bytes@[4]);
                        assert(bytes@.subrange(0, 8)[5] == bytes@[5]);
                        assert(bytes@.subrange(0, 8)[6] == bytes@[6]);
                        assert(bytes@.subrange(0, 8)[7] == bytes@[7]);
                    }
                }
            }
        }
        if !sig_ok {
            return Err(DecodeError::SignatureMismatch);
        }
        let mut pos: usize = 8;
        let mut header: Option<IHDRChunk> = Option::None;
        let mut palette: Option<PLTEChunk> = Option::None;
        let mut transparency: Option<tRNSChunk> = Option::None;
        let mut idat: Vec<u8> = Vec::new();
        let mut extras: Vec<Chunk> = Vec::new();
        proof {
            assert(st_of(header, palette, transparency, idat@, extras@).extras =~= Seq::<
                ChunkModel,
            >::empty());
            assert(st_of(header, palette, transparency, idat@, extras@) == init_state());
        }
        loop
            invariant
                8 <= pos <= n,
                n == bytes@.len(),
                bytes@.len() >= 8,
                bytes@.subrange(0, 8) == signature_bytes(),
                run_chunks(bytes@, 8, init_state()) == run_chunks(
                    bytes@,
                    pos as int,
                    st_of(header, palette, transparency, idat@, extras@),
                ),
                header is Some ==> valid_bit_depth_spec(
                    header->0.color_type,
                    header->0.bit_depth,
                ),
                header is Some && transparency is Some ==> trns_shape_ok(
                    header->0.color_type,
                    transparency->0@,
                ),
                header is None ==> transparency is None,
            decreases n - pos,
        {
            let ghost stm = st_of(header, palette, transparency, idat@, extras@);
            let (c, np) = match parse_chunk(bytes, pos) {
                Err(e) => {
                    proof {
                        assert(run_chunks(bytes@, pos as int, stm) == Err::<
                            StreamState,
                            DecodeError,
                        >(e));
                    }
                    return Err(e);
                },
                Ok(cp) => cp,
            };
            let ghost m = c@;
            match c {
                Chunk::IEND => {
                    proof {
                        assert(run_chunks(bytes@, pos as int, stm) == Ok::<
                            StreamState,
                            DecodeError,
                        >(stm));
                    }
                    let hh = match header {
                        Option::None => {
                            return Err(DecodeError::ChunkFramingError);
                        },
                        Some(hh) => hh,
                    };
                    let decompressed = match decompress_zlib(&idat) {
                        Option::None => {
                            return Err(DecodeError::DecompressionError);
                        },
                        Some(d) => d,
                    };
                    let expected = expected_len_u128(&hh);
                    if decompressed.len() as u128 != expected {
                        return Err(DecodeError::DecompressionError);
                    }
                    proof {
                        assert((hh.width as int) * (hh.height as int) < 0x10000000000000000)
                            by (nonlinear_arith)
                            requires
                                0 <= hh.width <= 0xffffffffu32,
                                0 <= hh.height <= 0xffffffffu32,
                        ;
                    }
                    let wh: u64 = hh.width as u64 * hh.height as u64;
                    if wh > usize::MAX as u64 {
                        return Err(DecodeError::DecompressionError);
                    }
                    if !check_tags(&decompressed, &hh) {
                        return Err(DecodeError::UnsupportedHeaderValue);
                    }
                    let mut buf = decompressed;
                    let ghost raw = buf@;
                    reconstruct_scanlines(&mut buf, &hh);
                    proof {
                        crate::filters::lemma_all_len(raw, hh);
                        assert(buf@.len() == raw.len());
                    }
                    let pal_ref: Option<&PLTEChunk> = match &palette {
                        Some(p) => Some(p),
                        Option::None => Option::None,
                    };
                    let trns_ref: Option<&tRNSChunk> = match &transparency {
                        Some(t) => Some(t),
                        Option::None => Option::None,
                    };
                    let px = match crate::pixel::parse_pixels(&buf, &hh, pal_ref, trns_ref) {
                        Err(e) => {
                            return Err(e);
                        },
                        Ok(px) => px,
                    };
                    return Ok(PNG { header: hh, extra_chunks: extras, pixels: px });
                },
                Chunk::IHDR(hh) => {
                    if header.is_some() {
                        return Err(DecodeError::ChunkFramingError);
                    }
                    header = Some(hh);
                },
                Chunk::PLTE(p) => {
                    if header.is_none() {
                        return Err(DecodeError::ChunkFramingError);
                    }
                    palette = Some(p);
                },
                Chunk::tRNS(t) => {
                    let hh = match &header {
                        Option::None => {
                            return Err(DecodeError::ChunkFramingError);
                        },
                        Some(hh) => hh,
                    };
                    let tlen = t.len();
                    let shape_ok = match hh.color_type {
                        ColorType::Greyscale => tlen == 2,
                        ColorType::Truecolor => tlen == 6,
                        ColorType::IndexedColor => tlen <= 256,
                        ColorType::GreyscaleWithAlpha => false,
                        ColorType::TruecolorWithAlpha => false,
                    };
                    if !shape_ok {
                        return Err(DecodeError::ChunkFramingError);
                    }
                    transparency = Some(t);
                },
                Chunk::IDAT(d) => {
                    if header.is_none() {
                        return Err(DecodeError::ChunkFramingError);
                    }
                    append_bytes(&mut idat, &d.data);
                },
                Chunk::pHYs(p) => {
                    if header.is_none() {
                        return Err(DecodeError::ChunkFramingError);
                    }
                    extras.push(Chunk::pHYs(p));
                    proof {
                        assert(st_of(header, palette, transparency, idat@, extras@).extras
                            =~= stm.extras.push(m));
                    }
                },
                Chunk::Unknown(rc) => {
                    if header.is_none() {
                        return Err(DecodeError::ChunkFramingError);
                    }
                    extras.push(Chunk::Unknown(rc));
                    proof {
                        assert(st_of(header, palette, transparency, idat@, extras@).extras
                            =~= stm.extras.push(m));
                    }
                },
            }
            proof {
                let stm2 = st_of(header, palette, transparency, idat@, extras@);
                assert(accumulate_chunk(stm, m) == Ok::<StreamState, DecodeError>(stm2));
                assert(run_chunks(bytes@, pos as int, stm) == run_chunks(
                    bytes@,
                    np as int,
                    stm2,
                ));
            }
            pos = np;
        }
    }
}

/// The header encode always emits: the source dimensions at bit depth 16,
/// truecolor with alpha, not interlaced.
pub open spec fn canonical_header(h: IHDRChunk) -> IHDRChunk {
    IHDRChunk {
        width: h.width,
        height: h.height,
        bit_depth: 16,
        color_type: ColorType::TruecolorWithAlpha,
        compression_method: 0,
        filter_method: 0,
        interlace_method: Interlacing::NoInterlace,
    }
}

/// One pixel's eight stored bytes: each channel big-endian at 16 bits.
pub open spec fn pix_bytes(px: Pixel) -> Seq<u8> {
    be16_bytes(px.red) + be16_bytes(px.green) + be16_bytes(px.blue) + be16_bytes(px.alpha)
}

/// One packed scanline, built left to right: the zero tag byte, then the
/// first `col` pixels of row `row`.
pub open spec fn row_bytes(pixels: Seq<Pixel>, w: int, row: int, col: int) -> Seq<u8>
    decreases col,
{
    if col <= 0 {
        seq![0u8]
    } else {
        row_bytes(pixels, w, row, col - 1) + pix_bytes(pixels[row * w + (col - 1)])
    }
}

/// The packed scanline stream of the first `rows` rows.
pub open spec fn packed_rows(pixels: Seq<Pixel>, w: int, rows: int) -> Seq<u8>
    decreases rows,
{
    if rows <= 0 {
        Seq::empty()
    } else {
        packed_rows(pixels, w, rows - 1) + row_bytes(pixels, w, rows - 1, w)
    }
}

/// A packed row is a tag byte plus eight bytes per pixel.
pub proof fn lemma_row_len(pixels: Seq<Pixel>, w: int, row: int, col: int)
    requires
        0 <= col,
    ensures
        row_bytes(pixels, w, row, col).len() == 1 + 8 * col,
    decreases col,
{
    if col > 0 {
        lemma_row_len(pixels, w, row, col - 1);
    }
}

/// The packed stream is one tag byte plus eight bytes per pixel, per row.
pub proof fn lemma_packed_len(pixels: Seq<Pixel>, w: int, rows: int, col: int)
    requires
        0 <= w,
        0 <= rows,
        0 <= col,
    ensures
        row_bytes(pixels, w, rows, col).len() == 1 + 8 * col,
        packed_rows(pixels, w, rows).len() == rows * (1 + 8 * w),
    decreases rows,
{
    lemma_row_len(pixels, w, rows, col);
    if rows > 0 {
        lemma_packed_len(pixels, w, rows - 1, 0);
        lemma_row_len(pixels, w, rows - 1, w);
        assert(rows * (1 + 8 * w) == (rows - 1) * (1 + 8 * w) + (1 + 8 * w)) by (nonlinear_arith);
    } else {
        assert(0 * (1 + 8 * w) == 0) by (nonlinear_arith);
    }
}

/// The serialized bytes of the first `k` preserved chunks.
pub open spec fn extras_bytes_upto(extras: Seq<ChunkModel>, k: int) -> Seq<u8>
    decreases k,
{
    if k <= 0 {
        Seq::empty()
    } else {
        extras_bytes_upto(extras, k - 1) + chunk_model_bytes(extras[k - 1])
    }
}

/// The models of a vector of chunks, in order.
pub open spec fn extras_view(extras: Seq<Chunk>) -> Seq<ChunkModel> {
    Seq::new(extras.len(), |i: int| extras[i]@)
}

/// The filtered scanline stream `encode` compresses: the pixels packed at
/// 16-bit RGBA and passed through the Sub filter.
pub open spec fn filtered_spec(png: PNG) -> Seq<u8> {
    filt_all(
        packed_rows(png.pixels@, png.header.width as int, png.header.height as int),
        canonical_header(png.header),
    )
}

/// The exact bytes `encode` emits: the signature, the canonical IHDR, the
/// preserved chunks replayed in order, one IDAT holding the compressed
/// filtered scanlines, and the IEND terminator.
pub open spec fn encode_bytes_spec(png: PNG) -> Seq<u8> {
    signature_bytes() + ihdr_chunk_bytes(canonical_header(png.header)) + extras_bytes_upto(
        extras_view(png.extra_chunks@),
        png.extra_chunks@.len() as int,
    ) + chunk_bytes_spec(idat_type_bytes(), deflate_of(filtered_spec(png))) + chunk_bytes_spec(
        iend_type_bytes(),
        Seq::<u8>::empty(),
    )
}

/// Pack a pixel buffer into scanline bytes: each row is a zero tag byte
/// followed by each pixel's four channels big-endian at 16 bits.
fn pack_scanlines(pixels: &Vec<Pixel>, width: u32, height: u32) -> (r: Vec<u8>)
    requires
        pixels@.len() == (width as int) * (height as int),
        (height as int) * (1 + 8 * (width as int)) <= usize::MAX,
    ensures
        r@ == packed_rows(pixels@, width as int, height as int),
{
    let ghost wi = width as int;
    let ghost hi = height as int;
    let _np = pixels.len();
    let w_usize = width as usize;
    let h_usize = height as usize;
    let mut out: Vec<u8> = Vec::new();
    let mut row: usize = 0;
    while row < h_usize
        invariant
            row <= h_usize,
            w_usize as int == wi,
            h_usize as int == hi,
            pixels@.len() == wi * hi,
            pixels@.len() <= usize::MAX,
            hi * (1 + 8 * wi) <= usize::MAX,
            out@ == packed_rows(pixels@, wi, row as int),
        decreases h_usize - row,
    {
        out.push(0);
        proof {
            assert(out@ =~= packed_rows(pixels@, wi, row as int) + row_bytes(
                pixels@,
                wi,
                row as int,
                0,
            ));
        }
        let mut col: usize = 0;
        while col < w_usize
            invariant
                col <= w_usize,
                row < h_usize,
                w_usize as int == wi,
                h_usize as int == hi,
                pixels@.len() == wi * hi,
                pixels@.len() <= usize::MAX,
                hi * (1 + 8 * wi) <= usize::MAX,
                out@ == packed_rows(pixels@, wi, row as int) + row_bytes(
                    pixels@,
                    wi,
                    row as int,
                    col as int,
                ),
            decreases w_usize - col,
        {
            proof {
                assert((row as int) * wi + col < wi * hi && 0 <= (row as int) * wi + col)
                    by (nonlinear_arith)
                    requires
                        0 <= row < hi,
                        0 <= col < wi,
                ;
                lemma_packed_len(pixels@, wi, row as int, col as int);
                assert((row as int) * (1 + 8 * wi) + 1 + 8 * col + 8 <= hi * (1 + 8 * wi))
                    by (nonlinear_arith)
                    requires
                        0 <= row < hi,
                        0 <= col < wi,
                ;
                assert(packed_rows(pixels@, wi, row as int).len() == (row as int) * (1 + 8 * wi));
            }
            let px = pixels[row * w_usize + col];
            push_be16(&mut out, px.red);
            push_be16(&mut out, px.green);
            push_be16(&mut out, px.blue);
            push_be16(&mut out, px.alpha);
            proof {
                assert(out@ =~= packed_rows(pixels@, wi, row as int) + row_bytes(
                    pixels@,
                    wi,
                    row as int,
                    col as int + 1,
                ));
            }
            col = col + 1;
        }
        proof {
            assert(out@ =~= packed_rows(pixels@, wi, row as int + 1));
        }
        row = row + 1;
    }
    out
}

impl PNG {
    /// Encode the image into bytes that can be saved to disk or sent over a
    /// network: the canonical 16-bit RGBA form of the pixels, Sub-filtered
    /// and zlib-compressed into one IDAT chunk, with the preserved chunks
    /// replayed in order.
    pub fn encode(&self) -> (r: Vec<u8>)
        requires
            self.pixels@.len() == (self.header.width as int) * (self.header.height as int),
            (self.header.height as int) * (1 + 8 * (self.header.width as int)) <= usize::MAX,
            forall|i: int|
                0 <= i < self.extra_chunks@.len() ==> chunk_model_wf(
                    (#[trigger] self.extra_chunks@[i])@,
                ),
            deflate_of(filtered_spec(*self)).len() < 0x100000000,
        ensures
            r@ == encode_bytes_spec(*self),
            inflate_of(deflate_of(filtered_spec(*self))) == Some(filtered_spec(*self)),
    {
        let ch = IHDRChunk {
            width: self.header.width,
            height: self.header.height,
            bit_depth: 16,
            color_type: ColorType::TruecolorWithAlpha,
            compression_method: 0,
            filter_method: 0,
            interlace_method: Interlacing::NoInterlace,
        };
        let ghost wi = self.header.width as int;
        let ghost hi = self.header.height as int;
        let mut data = pack_scanlines(&self.pixels, self.header.width, self.header.height);
        proof {
            lemma_packed_len(self.pixels@, wi, hi, 0);
            assert(crate::chunks::pixel_width_spec(ch) == 64);
            assert(scanline_width_spec(wi, 64) == 1 + 8 * wi) by {
                assert(wi * 64 == 8 * (8 * wi) + 0) by (nonlinear_arith);
                vstd::arithmetic::div_mod::lemma_fundamental_div_mod_converse(wi * 64, 8, 8 * wi, 0);
            }
            assert(expected_data_len(ch) == hi * (1 + 8 * wi));
            assert(data@.len() == expected_data_len(ch));
        }
        filter_scanlines(&mut data, &ch);
        let compressed = compress_zlib(&data);
        let mut out: Vec<u8> = Vec::new();
        out.push(0x89);
        out.push(0x50);
        out.push(0x4e);
        out.push(0x47);
        out.push(0x0d);
        out.push(0x0a);
        out.push(0x1a);
        out.push(0x0a);
        proof {
            assert(out@ =~= signature_bytes());
        }
        let hb = ch.to_bytes();
        append_bytes(&mut out, &hb);
        let ghost ex = extras_view(self.extra_chunks@);
        let ghost base = signature_bytes() + ihdr_chunk_bytes(canonical_header(self.header));
        proof {
            assert(ch == canonical_header(self.header));
            assert(out@ =~= base + extras_bytes_upto(ex, 0));
        }
        let mut i: usize = 0;
        while i < self.extra_chunks.len()
            invariant
                i <= self.extra_chunks@.len(),
                ex == extras_view(self.extra_chunks@),
                forall|k: int|
                    0 <= k < self.extra_chunks@.len() ==> chunk_model_wf(
                        (#[trigger] self.extra_chunks@[k])@,
                    ),
                out@ == base + extras_bytes_upto(ex, i as int),
            decreases self.extra_chunks@.len() - i,
        {
            let cb = self.extra_chunks[i].to_bytes();
            append_bytes(&mut out, &cb);
            proof {
                assert(out@ =~= base + extras_bytes_upto(ex, i as int + 1));
            }
            i = i + 1;
        }
        let idat_chunk = IDATChunk::from_bytes(compressed);
        let ib = idat_chunk.to_bytes();
        append_bytes(&mut out, &ib);
        let eb = IENDChunk.to_bytes();
        append_bytes(&mut out, &eb);
        proof {
            assert(out@ =~= encode_bytes_spec(*self));
        }
        out
    }

    /// Encode the image if its compressed stream fits the 4 GiB chunk
    /// length field; in practice it always does.
    pub fn encode_checked(&self) -> (r: Option<Vec<u8>>)
        requires
            self.pixels@.len() == (self.header.width as int) * (self.header.height as int),
            (self.header.height as int) * (1 + 8 * (self.header.width as int)) <= usize::MAX,
            forall|i: int|
                0 <= i < self.extra_chunks@.len() ==> chunk_model_wf(
                    (#[trigger] self.extra_chunks@[i])@,
                ),
        ensures
            match r {
                Some(v) => deflate_of(filtered_spec(*self)).len() < 0x100000000 && v@
                    == encode_bytes_spec(*self),
                Option::None => deflate_of(filtered_spec(*self)).len() >= 0x100000000,
            },
    {
        let ch = IHDRChunk {
            width: self.header.width,
            height: self.header.height,
            bit_depth: 16,
            color_type: ColorType::TruecolorWithAlpha,
            compression_method: 0,
            filter_method: 0,
            interlace_method: Interlacing::NoInterlace,
        };
        let ghost wi = self.header.width as int;
        let ghost hi = self.header.height as int;
        let mut data = pack_scanlines(&self.pixels, self.header.width, self.header.height);
        proof {
            lemma_packed_len(self.pixels@, wi, hi, 0);
            assert(crate::chunks::pixel_width_spec(ch) == 64);
            assert(scanline_width_spec(wi, 64) == 1 + 8 * wi) by {
                assert(wi * 64 == 8 * (8 * wi) + 0) by (nonlinear_arith);
                vstd::arithmetic::div_mod::lemma_fundamental_div_mod_converse(wi * 64, 8, 8 * wi, 0);
            }
            assert(expected_data_len(ch) == hi * (1 + 8 * wi));
            assert(data@.len() == expected_data_len(ch));
        }
        filter_scanlines(&mut data, &ch);
        let compressed = compress_zlib(&data);
        proof {
            assert(ch == canonical_header(self.header));
            assert(compressed@ == deflate_of(filtered_spec(*self)));
        }
        if (compressed.len() as u64) < 0x100000000u64 {
            let out = self.encode();
            proof {
                if forall|i: int|
                    0 <= i < self.extra_chunks@.len() ==> replayable(
                        (#[trigger] self.extra_chunks@[i])@,
                    ) {
                    lemma_encode_decode_round_trip(*self);
                }
            }
            Some(out)
        } else {
            Option::None
        }
    }
}

/// The bytes of one packed row: a zero tag, then each pixel's eight bytes
/// in order.
proof fn lemma_row_bytes_index(pixels: Seq<Pixel>, w: int, row: int, cols: int, c: int, t: int)
    requires
        0 <= c < cols,
        0 <= t < 8,
    ensures
        row_bytes(pixels, w, row, cols)[0] == 0,
        row_bytes(pixels, w, row, cols)[1 + 8 * c + t] == pix_bytes(pixels[row * w + c])[t],
    decreases cols,
{
    lemma_row_len(pixels, w, row, cols - 1);
    if c == cols - 1 {
        assert(row_bytes(pixels, w, row, cols) == row_bytes(pixels, w, row, cols - 1) + pix_bytes(
            pixels[row * w + (cols - 1)],
        ));
        if cols - 1 > 0 {
            lemma_row_bytes_index(pixels, w, row, cols - 1, 0, 0);
        }
    } else {
        lemma_row_bytes_index(pixels, w, row, cols - 1, c, t);
    }
}

/// The bytes of the packed stream: row `row` starts at `row * (1 + 8w)`,
/// holds a zero tag, and then each pixel's eight big-endian channel bytes.
proof fn lemma_packed_index(pixels: Seq<Pixel>, w: int, rows: int, row: int, off: int)
    requires
        0 <= row < rows,
        0 <= off < 1 + 8 * w,
        0 <= w,
    ensures
        packed_rows(pixels, w, rows)[row * (1 + 8 * w) + off] == row_bytes(pixels, w, row, w)[off],
    decreases rows,
{
    lemma_packed_len(pixels, w, rows - 1, 0);
    lemma_row_len(pixels, w, rows - 1, w);
    if row == rows - 1 {
        assert(packed_rows(pixels, w, rows) == packed_rows(pixels, w, rows - 1) + row_bytes(
            pixels,
            w,
            rows - 1,
            w,
        ));
        assert(row * (1 + 8 * w) + off - (rows - 1) * (1 + 8 * w) == off) by (nonlinear_arith)
            requires
                row == rows - 1,
        ;
    } else {
        lemma_packed_index(pixels, w, rows - 1, row, off);
        assert(row * (1 + 8 * w) + off < (rows - 1) * (1 + 8 * w) && 0 <= row * (1 + 8 * w) + off)
            by (nonlinear_arith)
            requires
                0 <= row <= rows - 2,
                0 <= off < 1 + 8 * w,
                0 <= w,
        ;
    }
}

/// The packed stream holds a zero tag byte at each row start and the
/// big-endian bytes of each pixel channel at their positions.
proof fn lemma_packed_cell(pixels: Seq<Pixel>, w: int, rows: int, row: int, c: int, t: int)
    requires
        0 <= row < rows,
        0 <= c < w,
        0 <= t < 8,
    ensures
        packed_rows(pixels, w, rows)[row * (1 + 8 * w)] == 0,
        packed_rows(pixels, w, rows)[row * (1 + 8 * w) + 1 + 8 * c + t] == pix_bytes(
            pixels[row * w + c],
        )[t],
{
    lemma_row_bytes_index(pixels, w, row, w, c, t);
    lemma_packed_index(pixels, w, rows, row, 0);
    lemma_packed_index(pixels, w, rows, row, 1 + 8 * c + t);
}

/// A preserved chunk that decode would hand back unchanged: the pixel
/// density chunk, or an opaque chunk whose type tag is none of the six the
/// library interprets.
pub open spec fn replayable(m: ChunkModel) -> bool {
    match m {
        ChunkModel::Phys(_) => true,
        ChunkModel::Other(t, d) => {
            &&& t.len() == 4
            &&& d.len() < 0x100000000
            &&& t != crate::chunks::ihdr_type_bytes()
            &&& t != crate::chunks::plte_type_bytes()
            &&& t != phys_type_bytes()
            &&& t != idat_type_bytes()
            &&& t != crate::chunks::trns_type_bytes()
            &&& t != iend_type_bytes()
        },
        _ => false,
    }
}

/// The serialized bytes of the preserved chunks from position `k` on.
pub open spec fn extras_bytes_from(ex: Seq<ChunkModel>, k: int) -> Seq<u8>
    decreases ex.len() - k,
        when 0 <= k <= ex.len()
{
    if k >= ex.len() {
        Seq::empty()
    } else {
        chunk_model_bytes(ex[k]) + extras_bytes_from(ex, k + 1)
    }
}

/// Serializing the first `k` chunks and then the rest gives the whole
/// serialization.
proof fn lemma_extras_bytes_split(ex: Seq<ChunkModel>, k: int)
    requires
        0 <= k <= ex.len(),
    ensures
        extras_bytes_upto(ex, ex.len() as int) == extras_bytes_upto(ex, k) + extras_bytes_from(
            ex,
            k,
        ),
    decreases ex.len() - k,
{
    if k == ex.len() {
        assert(extras_bytes_upto(ex, ex.len() as int) =~= extras_bytes_upto(ex, k)
            + extras_bytes_from(ex, k));
    } else {
        lemma_extras_bytes_split(ex, k + 1);
        assert(extras_bytes_upto(ex, k + 1) == extras_bytes_upto(ex, k) + chunk_model_bytes(
            ex[k],
        ));
        assert(extras_bytes_upto(ex, k) + extras_bytes_from(ex, k) =~= (extras_bytes_upto(ex, k)
            + chunk_model_bytes(ex[k])) + extras_bytes_from(ex, k + 1));
    }
}

/// Walking the chunk stream over the replayed chunks, one IDAT and the
/// IEND accumulates exactly those chunks and that payload.
proof fn lemma_run_tail(
    s: Seq<u8>,
    pos: int,
    ex: Seq<ChunkModel>,
    k: int,
    st: StreamState,
    idat_payload: Seq<u8>,
)
    requires
        0 <= k <= ex.len(),
        0 <= pos,
        st.header is Some,
        forall|j: int| k <= j < ex.len() ==> replayable(#[trigger] ex[j]),
        idat_payload.len() < 0x100000000,
        s.len() == pos + extras_bytes_from(ex, k).len() + 24 + idat_payload.len(),
        forall|j: int|
            0 <= j < s.len() - pos ==> s[pos + j] == (extras_bytes_from(ex, k) + chunk_bytes_spec(
                idat_type_bytes(),
                idat_payload,
            ) + chunk_bytes_spec(iend_type_bytes(), Seq::<u8>::empty()))[j],
    ensures
        run_chunks(s, pos, st) == Ok::<StreamState, DecodeError>(
            StreamState {
                idat: st.idat + idat_payload,
                extras: st.extras + ex.skip(k),
                ..st
            },
        ),
    decreases ex.len() - k,
{
    let tail = extras_bytes_from(ex, k) + chunk_bytes_spec(idat_type_bytes(), idat_payload)
        + chunk_bytes_spec(iend_type_bytes(), Seq::<u8>::empty());
    let li = idat_payload.len() as int;
    if k == ex.len() {
        assert(extras_bytes_from(ex, k).len() == 0);
        assert forall|j: int| 0 <= j < 12 + li implies s[pos + j] == chunk_bytes_spec(
            idat_type_bytes(),
            idat_payload,
        )[j] by {
            assert(s[pos + j] == tail[j]);
        }
        crate::chunks::lemma_parse_encoded_chunk(s, pos, idat_type_bytes(), idat_payload);
        let t = s.subrange(pos + 4, pos + 8);
        assert(t != crate::chunks::ihdr_type_bytes()) by {
            assert(t[1] == 0x44 && crate::chunks::ihdr_type_bytes()[1] == 0x48);
        }
        assert(t != crate::chunks::plte_type_bytes()) by {
            assert(t[0] == 0x49 && crate::chunks::plte_type_bytes()[0] == 0x50);
        }
        assert(t != phys_type_bytes()) by {
            assert(t[0] == 0x49 && phys_type_bytes()[0] == 0x70);
        }
        let np = pos + 12 + li;
        assert(parse_chunk_spec(s, pos) == Ok::<(ChunkModel, int), DecodeError>(
            (ChunkModel::Idat(idat_payload), np),
        ));
        let st2 = StreamState { idat: st.idat + idat_payload, ..st };
        assert(accumulate_chunk(st, ChunkModel::Idat(idat_payload)) == Ok::<
            StreamState,
            DecodeError,
        >(st2));
        assert forall|j: int| 0 <= j < 12 implies s[np + j] == chunk_bytes_spec(
            iend_type_bytes(),
            Seq::<u8>::empty(),
        )[j] by {
            assert(s[np + j] == s[pos + (12 + li + j)]);
            assert(s[pos + (12 + li + j)] == tail[12 + li + j]);
        }
        crate::chunks::lemma_parse_encoded_chunk(s, np, iend_type_bytes(), Seq::<u8>::empty());
        let t2 = s.subrange(np + 4, np + 8);
        assert(t2 != crate::chunks::ihdr_type_bytes()) by {
            assert(t2[1] == 0x45 && crate::chunks::ihdr_type_bytes()[1] == 0x48);
        }
        assert(t2 != crate::chunks::plte_type_bytes()) by {
            assert(t2[0] == 0x49 && crate::chunks::plte_type_bytes()[0] == 0x50);
        }
        assert(t2 != phys_type_bytes()) by {
            assert(t2[0] == 0x49 && phys_type_bytes()[0] == 0x70);
        }
        assert(t2 != idat_type_bytes()) by {
            assert(t2[1] == 0x45 && idat_type_bytes()[1] == 0x44);
        }
        assert(t2 != crate::chunks::trns_type_bytes()) by {
            assert(t2[0] == 0x49 && crate::chunks::trns_type_bytes()[0] == 0x74);
        }
        assert(parse_chunk_spec(s, np) == Ok::<(ChunkModel, int), DecodeError>(
            (ChunkModel::Iend, np + 12),
        ));
        assert(run_chunks(s, np, st2) == Ok::<StreamState, DecodeError>(st2));
        assert(run_chunks(s, pos, st) == Ok::<StreamState, DecodeError>(st2));
        assert(st2.extras =~= st.extras + ex.skip(k));
        assert(run_chunks(s, pos, st) == Ok::<StreamState, DecodeError>(
            StreamState { idat: st.idat + idat_payload, extras: st.extras + ex.skip(k), ..st },
        ));
    } else {
        let m = ex[k];
        let mb = chunk_model_bytes(m);
        let rest = extras_bytes_from(ex, k + 1) + chunk_bytes_spec(idat_type_bytes(), idat_payload)
            + chunk_bytes_spec(iend_type_bytes(), Seq::<u8>::empty());
        assert(extras_bytes_from(ex, k) == mb + extras_bytes_from(ex, k + 1));
        assert(forall|j: int| 0 <= j < mb.len() ==> tail[j] == mb[j]);
        assert(forall|j: int| 0 <= j < rest.len() ==> tail[mb.len() + j] == rest[j]);
        let np = pos + mb.len();
        match m {
            ChunkModel::Phys(p) => {
                assert(mb == chunk_bytes_spec(phys_type_bytes(), phys_payload_spec(p)));
                assert(phys_payload_spec(p).len() == 9);
                assert forall|j: int| 0 <= j < mb.len() implies s[pos + j] == mb[j] by {
                    assert(s[pos + j] == tail[j]);
                }
                crate::chunks::lemma_parse_encoded_chunk(
                    s,
                    pos,
                    phys_type_bytes(),
                    phys_payload_spec(p),
                );
                let t = s.subrange(pos + 4, pos + 8);
                assert(t != crate::chunks::ihdr_type_bytes()) by {
                    assert(t[0] == 0x70 && crate::chunks::ihdr_type_bytes()[0] == 0x49);
                }
                assert(t != crate::chunks::plte_type_bytes()) by {
                    assert(t[0] == 0x70 && crate::chunks::plte_type_bytes()[0] == 0x50);
                }
                crate::chunks::lemma_phys_payload_round_trip(p);
                assert(parse_chunk_spec(s, pos) == Ok::<(ChunkModel, int), DecodeError>(
                    (ChunkModel::Phys(p), np),
                ));
            },
            ChunkModel::Other(t0, d0) => {
                assert(mb == chunk_bytes_spec(t0, d0));
                assert forall|j: int| 0 <= j < mb.len() implies s[pos + j] == mb[j] by {
                    assert(s[pos + j] == tail[j]);
                }
                crate::chunks::lemma_parse_encoded_chunk(s, pos, t0, d0);
                assert(parse_chunk_spec(s, pos) == Ok::<(ChunkModel, int), DecodeError>(
                    (ChunkModel::Other(t0, d0), np),
                ));
            },
            _ => {
                assert(false);
            },
        }
        let st2 = StreamState { extras: st.extras.push(m), ..st };
        assert(accumulate_chunk(st, m) == Ok::<StreamState, DecodeError>(st2));
        assert(s.len() == np + extras_bytes_from(ex, k + 1).len() + 24 + idat_payload.len());
        assert forall|j: int| 0 <= j < s.len() - np implies s[np + j] == rest[j] by {
            assert(s[np + j] == s[pos + (mb.len() + j)]);
            assert(s[pos + (mb.len() + j)] == tail[mb.len() + j]);
            assert(tail[mb.len() + j] == rest[j]);
        }
        lemma_run_tail(s, np, ex, k + 1, st2, idat_payload);
        assert(st2.extras + ex.skip(k + 1) =~= st.extras + ex.skip(k));
        assert(run_chunks(s, pos, st) == run_chunks(s, np, st2));
    }
}

/// The canonical header's sample geometry: 64 bits per pixel, an 8-byte
/// filter stride, and one of the depths the format allows.
proof fn lemma_canonical_widths(h: IHDRChunk)
    ensures
        crate::chunks::pixel_width_spec(canonical_header(h)) == 64,
        crate::chunks::filter_width_spec(canonical_header(h)) == 8,
        valid_bit_depth_spec(
            canonical_header(h).color_type,
            canonical_header(h).bit_depth,
        ),
        scanline_width_spec(h.width as int, 64) == 1 + 8 * (h.width as int),
{
    let ch = canonical_header(h);
    assert(crate::chunks::channel_count_spec(ch.color_type) == 4);
    assert(ch.bit_depth == 16);
    assert(4 * 16 == 64) by (nonlinear_arith);
    assert((16int / 8) == 2);
    assert(4 * 2 == 8) by (nonlinear_arith);
    let wi = h.width as int;
    assert(wi * 64 == 8 * (8 * wi) + 0) by (nonlinear_arith);
    vstd::arithmetic::div_mod::lemma_fundamental_div_mod_converse(wi * 64, 8, 8 * wi, 0);
}

/// Through packing, Sub-filtering and reconstruction, every data byte of
/// the canonical scanline stream comes back exactly as packed.
#[verifier::rlimit(100)]
#[verifier::spinoff_prover]
proof fn lemma_recon_byte(png: PNG, row: int, off: int)
    requires
        png.pixels@.len() == (png.header.width as int) * (png.header.height as int),
        0 <= row < png.header.height as int,
        1 <= off < 1 + 8 * (png.header.width as int),
    ensures
        ({
            let wi = png.header.width as int;
            let hi = png.header.height as int;
            let ll = 1 + 8 * wi;
            let packed = packed_rows(png.pixels@, wi, hi);
            let ch = canonical_header(png.header);
            recon_all(filt_all(packed, ch), ch)[row * ll + off] == packed[row * ll + off]
        }),
{
    let wi = png.header.width as int;
    let hi = png.header.height as int;
    let ll = 1 + 8 * wi;
    let packed = packed_rows(png.pixels@, wi, hi);
    let ch = canonical_header(png.header);
    lemma_canonical_widths(png.header);
    assert(crate::chunks::pixel_width_spec(ch) == 64);
    assert(crate::chunks::filter_width_spec(ch) == 8);
    assert(scanline_width_spec(wi, 64) == ll);
    lemma_packed_len(png.pixels@, wi, hi, 0);
    let filtered = filt_all(packed, ch);
    assert(filtered == crate::filters::filt_region(packed, 0, ll, 8, hi));
    crate::filters::lemma_all_len(packed, ch);
    let rec = recon_all(filtered, ch);
    assert(rec == crate::filters::recon_region(filtered, 0, ll, 8, hi));
    let p = row * ll + off;
    assert(0 <= row * ll && row * ll + ll <= hi * ll && hi * ll == packed.len())
        by (nonlinear_arith)
        requires
            0 <= row < hi,
            1 <= ll,
            packed.len() == hi * (1 + 8 * wi),
            ll == 1 + 8 * wi,
    ;
    vstd::arithmetic::div_mod::lemma_fundamental_div_mod_converse(p, ll, row, off);
    assert(rec[p] == crate::filters::recon_rc(filtered, 0, ll, 8, (p - 0) / ll, (p - 0) % ll));
    crate::filters::lemma_reconstruct_undoes_filter(packed, 0, ll, 8, hi, row, off);
    assert(crate::filters::recon_rc(filtered, 0, ll, 8, row, off) == packed[p]);
}

/// Round trip: decoding the bytes `encode` produces recovers the original
/// pixel buffer exactly, along with the canonical header and the
/// preserved chunks in their original order.  The compressed stream must
/// fit the 4 GiB chunk length field, and the compressor's documented
/// round trip is taken as given.
#[verifier::rlimit(100)]
#[verifier::spinoff_prover]
pub proof fn lemma_encode_decode_round_trip(png: PNG)
    requires
        png.pixels@.len() == (png.header.width as int) * (png.header.height as int),
        (png.header.height as int) * (1 + 8 * (png.header.width as int)) <= usize::MAX,
        forall|i: int|
            0 <= i < png.extra_chunks@.len() ==> replayable((#[trigger] png.extra_chunks@[i])@),
        deflate_of(filtered_spec(png)).len() < 0x100000000,
        inflate_of(deflate_of(filtered_spec(png))) == Some(filtered_spec(png)),
    ensures
        ({
            &&& decode_spec(encode_bytes_spec(png)) matches Ok(m)
            &&& m.header == canonical_header(png.header)
            &&& m.extras == extras_view(png.extra_chunks@)
            &&& m.pixels == png.pixels@
        }),
{
    let s = encode_bytes_spec(png);
    let ch = canonical_header(png.header);
    let wi = png.header.width as int;
    let hi = png.header.height as int;
    let ll = 1 + 8 * wi;
    let packed = packed_rows(png.pixels@, wi, hi);
    let filtered = filtered_spec(png);
    let comp = deflate_of(filtered);
    let ex = extras_view(png.extra_chunks@);
    let ihdrb = ihdr_chunk_bytes(ch);
    let extb = extras_bytes_upto(ex, ex.len() as int);
    let idatb = chunk_bytes_spec(idat_type_bytes(), comp);
    let iendb = chunk_bytes_spec(iend_type_bytes(), Seq::<u8>::empty());
    assert(ihdr_payload_spec(ch).len() == 13);
    assert(ihdrb.len() == 25);
    assert(idatb.len() == 12 + comp.len());
    assert(iendb.len() == 12);
    assert(s == signature_bytes() + ihdrb + extb + idatb + iendb);
    assert(s.len() == 8 + 25 + extb.len() + 12 + comp.len() + 12);
    // The signature reads back.
    assert(s.subrange(0, 8) =~= signature_bytes()) by {
        assert(forall|j: int| 0 <= j < 8 ==> s[j] == signature_bytes()[j]);
    }
    // The IHDR chunk parses back to the canonical header.
    assert forall|j: int| 0 <= j < 25 implies s[8 + j] == ihdrb[j] by {
        assert(s[8 + j] == (signature_bytes() + ihdrb)[8 + j]);
    }
    crate::chunks::lemma_parse_encoded_chunk(s, 8, crate::chunks::ihdr_type_bytes(),
        ihdr_payload_spec(ch));
    crate::chunks::lemma_ihdr_payload_round_trip(ch);
    assert(parse_chunk_spec(s, 8) == Ok::<(ChunkModel, int), DecodeError>(
        (ChunkModel::Ihdr(ch), 33),
    ));
    let st1 = StreamState {
        header: Some(ch),
        palette: Option::None,
        transparency: Option::None,
        idat: Seq::empty(),
        extras: Seq::empty(),
    };
    assert(accumulate_chunk(init_state(), ChunkModel::Ihdr(ch)) == Ok::<StreamState, DecodeError>(
        st1,
    )) by {
        let st1b = StreamState { header: Some(ch), ..init_state() };
        assert(st1b == st1);
    }
    // The replayed chunks, the IDAT and the IEND walk back into the state.
    lemma_extras_bytes_split(ex, 0);
    assert(extras_bytes_from(ex, 0) == extb) by {
        assert(extras_bytes_upto(ex, 0) =~= Seq::<u8>::empty());
        assert(extras_bytes_upto(ex, 0) + extras_bytes_from(ex, 0) =~= extras_bytes_from(ex, 0));
    }
    let tail = extras_bytes_from(ex, 0) + idatb + iendb;
    assert forall|j: int| 0 <= j < s.len() - 33 implies s[33 + j] == tail[j] by {
        if j < extb.len() {
            assert(s[33 + j] == ((signature_bytes() + ihdrb + extb) + idatb + iendb)[33 + j]);
            assert(s[33 + j] == extb[j]);
            assert(tail[j] == extb[j]);
        } else if j < extb.len() + idatb.len() {
            assert(s[33 + j] == idatb[j - extb.len()]);
            assert(tail[j] == idatb[j - extb.len()]);
        } else {
            assert(s[33 + j] == iendb[j - extb.len() - idatb.len()]);
            assert(tail[j] == iendb[j - extb.len() - idatb.len()]);
        }
    }
    lemma_run_tail(s, 33, ex, 0, st1, comp);
    let stf = StreamState { idat: st1.idat + comp, extras: st1.extras + ex.skip(0), ..st1 };
    assert(run_chunks(s, 8, init_state()) == Ok::<StreamState, DecodeError>(stf));
    assert(stf.idat =~= comp);
    assert(stf.extras =~= ex);
    // Decompression recovers the filtered scanline stream.
    assert(inflate_of(stf.idat) == Some(filtered));
    // The pipeline accepts the stream and decodes the original pixels.
    lemma_pipeline_round_trip(png);
}

/// The channel of a pixel by index: red, green, blue, then alpha.
pub open spec fn pix_channel(px: Pixel, k: int) -> u16 {
    if k == 0 {
        px.red
    } else if k == 1 {
        px.green
    } else if k == 2 {
        px.blue
    } else {
        px.alpha
    }
}


/// The scanline pipeline round trip: the filtered stream encode produces
/// has the expected length, carries only Sub tags, reconstructs to the
/// packed pixels, and decodes to exactly the original pixel buffer.
#[verifier::rlimit(100)]
#[verifier::spinoff_prover]
proof fn lemma_pipeline_round_trip(png: PNG)
    requires
        png.pixels@.len() == (png.header.width as int) * (png.header.height as int),
        (png.header.height as int) * (1 + 8 * (png.header.width as int)) <= usize::MAX,
    ensures
        ({
            &&& pixels_pipeline_spec(
                filtered_spec(png),
                canonical_header(png.header),
                Option::None,
                Option::None,
            ) matches Ok(pxs)
            &&& pxs == png.pixels@
        }),
{
    let ch = canonical_header(png.header);
    let wi = png.header.width as int;
    let hi = png.header.height as int;
    let ll = 1 + 8 * wi;
    let packed = packed_rows(png.pixels@, wi, hi);
    let filtered = filtered_spec(png);
    lemma_canonical_widths(png.header);
    assert(crate::chunks::pixel_width_spec(ch) == 64);
    assert(crate::chunks::filter_width_spec(ch) == 8);
    assert(scanline_width_spec(wi, 64) == ll);
    lemma_packed_len(png.pixels@, wi, hi, 0);
    crate::filters::lemma_all_len(packed, ch);
    assert(filtered == crate::filters::filt_region(packed, 0, ll, 8, hi));
    assert(filtered.len() == hi * ll);
    assert(expected_data_len(ch) == hi * ll);
    assert(wi * hi <= hi * (1 + 8 * wi)) by (nonlinear_arith)
        requires
            0 <= wi,
            0 <= hi,
    ;
    assert(tags_ok(filtered, ch)) by {
        assert forall|r: int| 0 <= r < hi implies #[trigger] scan_tag_ok(filtered, ll, r) by {
            let p = r * ll;
            assert(0 <= p && p + ll <= hi * ll) by (nonlinear_arith)
                requires
                    0 <= r < hi,
                    1 <= ll,
                    p == r * ll,
            ;
            vstd::arithmetic::div_mod::lemma_fundamental_div_mod_converse(p, ll, r, 0);
            assert(0 <= p && p < 0 + hi * ll && ll >= 1);
            assert((p - 0) / ll == r && (p - 0) % ll == 0);
            assert(crate::filters::filt_region(packed, 0, ll, 8, hi)[p]
                == crate::filters::filt_rc(packed, 0, ll, 8, r, 0));
            assert(filtered[p] == crate::filters::filt_rc(packed, 0, ll, 8, r, 0));
            assert(filtered[p] == 1u8);
        }
        assert(scanline_width_spec(wi, crate::chunks::pixel_width_spec(ch)) == ll);
    }
    let rec = recon_all(filtered, ch);
    crate::filters::lemma_all_len(filtered, ch);
    assert(!image_pixels_bad(rec, ch, Option::None)) by {
        if image_pixels_bad(rec, ch, Option::None) {
            let llx = scanline_width_spec(wi, crate::chunks::pixel_width_spec(ch));
            let rr = choose|rr: int|
                0 <= rr < hi && #[trigger] crate::pixel::some_pixel_bad(
                    rec,
                    8 * (rr * llx + 1),
                    wi,
                    ch.color_type,
                    ch.bit_depth,
                    Option::None,
                );
            let kk = choose|kk: int|
                0 <= kk < wi && #[trigger] crate::pixel::pixel_bad(
                    rec,
                    8 * (rr * llx + 1),
                    kk,
                    ch.color_type,
                    ch.bit_depth,
                    Option::None,
                );
            assert(false);
        }
    }
    // Every decoded pixel equals the original.
    let model = pixels_model(rec, ch, Option::None, Option::None);
    assert forall|idx: int| 0 <= idx < wi * hi implies model[idx] == png.pixels@[idx] by {
        assert(1 <= wi && 1 <= hi) by {
            if wi == 0 || hi == 0 {
                assert(wi * hi == 0) by (nonlinear_arith)
                    requires
                        (wi == 0 || hi == 0) && 0 <= wi && 0 <= hi,
                ;
            }
        }
        vstd::arithmetic::div_mod::lemma_fundamental_div_mod(idx, wi);
        let row = idx / wi;
        let col = idx % wi;
        assert(0 <= row < hi && 0 <= col < wi && idx == row * wi + col) by (nonlinear_arith)
            requires
                0 <= idx < wi * hi,
                1 <= wi,
                idx == wi * row + col,
                0 <= col < wi,
        ;
        let base = 8 * (row * ll + 1);
        let px = png.pixels@[row * wi + col];
        assert forall|t: int| 0 <= t < 8 implies rec[row * ll + 1 + 8 * col + t] == pix_bytes(
            px,
        )[t] by {
            assert(1 + 8 * col + t < ll);
            lemma_recon_byte(png, row, 1 + 8 * col + t);
            lemma_packed_cell(png.pixels@, wi, hi, row, col, t);
        }
        assert forall|k: int| 0 <= k < 4 implies (#[trigger] crate::pixel::channel_sample(
            rec,
            base,
            col,
            16,
            4,
            k,
        )) == pix_channel(px, k) by {
            let bitpos = base + (col * 4 + k) * 16;
            assert(bitpos == 8 * (row * ll + 1 + 8 * col + 2 * k)) by (nonlinear_arith)
                requires
                    base == 8 * (row * ll + 1),
                    bitpos == base + (col * 4 + k) * 16,
            ;
            let bb = row * ll + 1 + 8 * col + 2 * k;
            assert(bitpos / 8 == bb && bitpos % 8 == 0) by (nonlinear_arith)
                requires
                    bitpos == 8 * bb,
                    0 <= bb,
            ;
            assert(rec[bb] == pix_bytes(px)[2 * k]);
            assert(rec[bb + 1] == pix_bytes(px)[2 * k + 1]);
            assert(be16_bytes(px.red).len() == 2 && be16_bytes(px.green).len() == 2 && be16_bytes(
                px.blue,
            ).len() == 2 && be16_bytes(px.alpha).len() == 2);
            if k == 0 {
                assert(pix_bytes(px)[0] == be16_bytes(px.red)[0] && pix_bytes(px)[1] == be16_bytes(
                    px.red,
                )[1]);
            } else if k == 1 {
                assert(pix_bytes(px)[2] == be16_bytes(px.green)[0] && pix_bytes(px)[3]
                    == be16_bytes(px.green)[1]);
            } else if k == 2 {
                assert(pix_bytes(px)[4] == be16_bytes(px.blue)[0] && pix_bytes(px)[5]
                    == be16_bytes(px.blue)[1]);
            } else {
                assert(pix_bytes(px)[6] == be16_bytes(px.alpha)[0] && pix_bytes(px)[7]
                    == be16_bytes(px.alpha)[1]);
            }
            assert(pix_bytes(px)[2 * k] == be16_bytes(pix_channel(px, k))[0] && pix_bytes(px)[2 * k
                + 1] == be16_bytes(pix_channel(px, k))[1]);
            crate::bytes::lemma_be16_round_trip(pix_channel(px, k), 0, 0);
        }
        assert(crate::pixel::pixel_value(rec, base, col, ch.color_type, ch.bit_depth,
            Option::None, Option::None) == px) by {
            assert(crate::pixel::channel_sample(rec, base, col, 16, 4, 0) == px.red);
            assert(crate::pixel::channel_sample(rec, base, col, 16, 4, 1) == px.green);
            assert(crate::pixel::channel_sample(rec, base, col, 16, 4, 2) == px.blue);
            assert(crate::pixel::channel_sample(rec, base, col, 16, 4, 3) == px.alpha);
        }
        assert(model[idx] == crate::pixel::pixel_at_image(rec, ch, Option::None, Option::None,
            idx));
        assert(scanline_width_spec(wi, crate::chunks::pixel_width_spec(ch)) == ll);
    }
    assert(model =~= png.pixels@);
}

/// Whether position `c` lies within the type tag or payload of one of the
/// chunks the stream walk visits from `pos` on.
pub open spec fn corrupt_in_walk(s: Seq<u8>, pos: int, c: int) -> bool
    decreases s.len() - pos,
        when 0 <= pos <= s.len()
{
    match parse_chunk_spec(s, pos) {
        Err(_) => false,
        Ok((m, np)) => {
            ||| (pos + 4 <= c < np - 4)
            ||| (!(m is Iend) && pos + 12 <= np <= s.len() && np <= c && corrupt_in_walk(s, np, c))
        },
    }
}

/// A position inside the walk lies past the current chunk's length field.
proof fn lemma_corrupt_pos(s: Seq<u8>, pos: int, c: int)
    requires
        0 <= pos <= s.len(),
        corrupt_in_walk(s, pos, c),
    ensures
        pos + 4 <= c,
    decreases s.len() - pos,
{
    match parse_chunk_spec(s, pos) {
        Err(_) => {},
        Ok((m, np)) => {
            if !(pos + 4 <= c < np - 4) {
                lemma_corrupt_pos(s, np, c);
            }
        },
    }
}

/// Walking a stream whose successful walk passes a corrupted chunk stops
/// with a CRC mismatch at that chunk.
proof fn lemma_run_chunks_corruption(s1: Seq<u8>, s2: Seq<u8>, pos: int, st: StreamState, c: int)
    requires
        0 <= pos <= s1.len(),
        s1.len() == s2.len(),
        run_chunks(s1, pos, st) is Ok,
        corrupt_in_walk(s1, pos, c),
        s1[c] != s2[c],
        forall|j: int| 0 <= j < s1.len() && j != c ==> s1[j] == s2[j],
    ensures
        run_chunks(s2, pos, st) == Err::<StreamState, DecodeError>(DecodeError::CrcMismatch),
    decreases s1.len() - pos,
{
    let l = crate::bytes::be32_of(s1[pos], s1[pos + 1], s1[pos + 2], s1[pos + 3]) as int;
    match parse_chunk_spec(s1, pos) {
        Err(_) => {
            assert(false);
        },
        Ok((m, np)) => {
            assert(np == pos + 12 + l);
            if pos + 4 <= c < np - 4 {
                crate::chunks::lemma_chunk_corruption_detected(s1, s2, pos, c);
            } else {
                lemma_corrupt_pos(s1, np, c);
                crate::chunks::lemma_parse_chunk_window(s1, s2, pos);
                assert(parse_chunk_spec(s2, pos) == Ok::<(ChunkModel, int), DecodeError>((m, np)));
                match accumulate_chunk(st, m) {
                    Err(_) => {
                        assert(false);
                    },
                    Ok(st2) => {
                        lemma_run_chunks_corruption(s1, s2, np, st2, c);
                    },
                }
            }
        },
    }
}

/// CRC sensitivity at the decode level: corrupting any single byte, in any
/// one or more of its bits, inside the type tag or payload of any chunk a
/// successful decode reads, makes decoding the corrupted stream fail with
/// a CRC mismatch.
pub proof fn lemma_decode_detects_corruption(s1: Seq<u8>, s2: Seq<u8>, c: int)
    requires
        decode_spec(s1) is Ok,
        s1.len() == s2.len(),
        0 <= c < s1.len(),
        s1[c] != s2[c],
        forall|j: int| 0 <= j < s1.len() && j != c ==> s1[j] == s2[j],
        corrupt_in_walk(s1, 8, c),
    ensures
        decode_spec(s2) == Err::<PngModel, DecodeError>(DecodeError::CrcMismatch),
{
    lemma_corrupt_pos(s1, 8, c);
    assert(s2.subrange(0, 8) =~= s1.subrange(0, 8));
    assert(run_chunks(s1, 8, init_state()) is Ok);
    lemma_run_chunks_corruption(s1, s2, 8, init_state(), c);
}

} // verus!
