//! The pixel sample codec: packed on-disk samples of bit depth 1, 2, 4, 8
//! or 16 become canonical 16-bit RGBA pixels, resolving the palette and the
//! transparency table on the way.

use crate::bytes::be16_of;
use crate::chunks::{
    channel_count_spec, pixel_width_spec, trns_palette_alpha, valid_bit_depth_spec, ColorType,
    Entry, IHDRChunk, Interlacing, PLTEChunk, tRNSChunk,
};
use crate::errors::DecodeError;
use crate::filters::{expected_data_len, pass_line_len, pass_offset};
use crate::interlacing::{
    pass_col_start, pass_col_stride, pass_contains, pass_height_spec, pass_of_spec, pass_row_start,
    pass_row_stride, pass_width_spec, steps_in, Adam7Iter,
};
use crate::utils::scanline_width_spec;
use vstd::arithmetic::div_mod::{
    lemma_fundamental_div_mod, lemma_fundamental_div_mod_converse, lemma_mod_multiples_vanish,
};
use vstd::prelude::*;

verus! {

/// A pixel of an image, held at the highest precision PNG supports: red,
/// green, blue and alpha at 16 bits each, regardless of source precision.
#[derive(Debug, Clone, Copy, PartialEq, Eq, Structural)]
pub struct Pixel {
    /// The red channel.  For greyscale images this equals green and blue.
    pub red: u16,
    /// The green channel.  For greyscale images this equals red and blue.
    pub green: u16,
    /// The blue channel.  For greyscale images this equals red and green.
    pub blue: u16,
    /// The alpha channel.  Images without transparency get `u16::MAX`.
    pub alpha: u16,
}

impl Pixel {
    /// Construct a pixel from its four channels.
    pub fn new(red: u16, green: u16, blue: u16, alpha: u16) -> (r: Pixel)
        ensures
            r == (Pixel { red, green, blue, alpha }),
    {
        Pixel { red, green, blue, alpha }
    }
}

impl Default for Pixel {
    /// The all-zero, fully transparent pixel.
    fn default() -> (r: Pixel)
        ensures
            r == (Pixel { red: 0, green: 0, blue: 0, alpha: 0 }),
    {
        Pixel { red: 0, green: 0, blue: 0, alpha: 0 }
    }
}

/// The factor that spreads a sample of `depth` bits over the 16-bit range:
/// `65535 / (2^depth - 1)`, exact for the depths the format allows.
pub open spec fn scale_factor(depth: u8) -> u16 {
    if depth == 1 {
        65535
    } else if depth == 2 {
        21845
    } else if depth == 4 {
        4369
    } else {
        257
    }
}

/// One more than the largest raw sample a bit depth can store.
pub open spec fn sample_limit(depth: u8) -> int {
    if depth == 1 {
        2
    } else if depth == 2 {
        4
    } else if depth == 4 {
        16
    } else if depth == 8 {
        256
    } else {
        65536
    }
}

/// A raw sample of `depth` bits spread over the 16-bit range; depth 16
/// passes through unchanged.
pub open spec fn scale_spec(v: u16, depth: u8) -> u16
    recommends
        depth == 1 || depth == 2 || depth == 4 || depth == 8 || depth == 16,
        (v as int) < sample_limit(depth),
{
    if depth == 16 {
        v
    } else {
        (v * scale_factor(depth)) as u16
    }
}

/// Spread a raw sample of `from_bit_depth` bits over the 16-bit range:
/// zero maps to zero, the largest sample maps to 65535, and depth 16 passes
/// through unchanged.
pub fn scale(value: u16, from_bit_depth: u8) -> (r: u16)
    requires
        from_bit_depth == 1 || from_bit_depth == 2 || from_bit_depth == 4 || from_bit_depth == 8
            || from_bit_depth == 16,
        (value as int) < sample_limit(from_bit_depth),
    ensures
        r == scale_spec(value, from_bit_depth),
        value == 0 ==> r == 0,
        from_bit_depth == 16 ==> r == value,
        value as int == sample_limit(from_bit_depth) - 1 ==> r == 65535,
{
    if from_bit_depth == 16 {
        value
    } else if from_bit_depth == 8 {
        value * 257
    } else if from_bit_depth == 4 {
        value * 4369
    } else if from_bit_depth == 2 {
        value * 21845
    } else {
        value * 65535
    }
}

/// The raw sample of `depth` bits at absolute bit position `bitpos`,
/// MSB-first within each byte.  Depth 16 reads two whole bytes big-endian;
/// smaller depths read a field of one byte.
pub open spec fn sample_at_spec(data: Seq<u8>, bitpos: int, depth: int) -> u16
    recommends
        depth == 1 || depth == 2 || depth == 4 || depth == 8 || depth == 16,
        0 <= bitpos,
        bitpos % 8 + depth <= 8 || depth == 16,
        depth == 16 ==> bitpos % 8 == 0,
{
    if depth == 16 {
        be16_of(data[bitpos / 8], data[bitpos / 8 + 1])
    } else {
        ((data[bitpos / 8] as u16) >> ((8 - bitpos % 8 - depth) as u16)) & (((1u16 << (
        depth as u16)) - 1) as u16)
    }
}

/// Read the raw sample of `depth` bits at byte `byte_off`, bit `bit_off`.
pub fn read_sample(data: &Vec<u8>, byte_off: usize, bit_off: u8, depth: u8) -> (r: u16)
    requires
        depth == 1 || depth == 2 || depth == 4 || depth == 8 || depth == 16,
        depth == 16 ==> bit_off == 0 && byte_off + 2 <= data@.len(),
        depth != 16 ==> bit_off + depth <= 8 && byte_off + 1 <= data@.len(),
    ensures
        r == sample_at_spec(data@, 8 * byte_off + bit_off, depth as int),
        (r as int) < sample_limit(depth),
        depth == 16 || r < 256,
{
    let _n = data.len();
    proof {
        assert((8 * byte_off + bit_off) / 8 == byte_off as int && (8 * byte_off + bit_off) % 8
            == bit_off as int) by (nonlinear_arith)
            requires
                0 <= bit_off < 8,
                0 <= byte_off,
        ;
    }
    if depth == 16 {
        ((data[byte_off] as u16) << 8) | (data[byte_off + 1] as u16)
    } else {
        let sh: u16 = (8 - bit_off - depth) as u16;
        proof {
            assert((1u16 << (depth as u16)) >= 2) by (bit_vector)
                requires
                    depth == 1 || depth == 2 || depth == 4 || depth == 8,
            ;
        }
        let mask: u16 = (1u16 << (depth as u16)) - 1;
        let r = ((data[byte_off] as u16) >> sh) & mask;
        proof {
            let b = data@[byte_off as int];
            assert(((b as u16) >> sh) & (((1u16 << (depth as u16)) - 1) as u16) < (1u16 << (
            depth as u16)) && (1u16 << (depth as u16)) > 0 && ((depth == 1 || depth == 2 || depth
                == 4 || depth == 8) ==> ((b as u16) >> sh) & (((1u16 << (depth as u16)) - 1) as u16)
                < 256)) by (bit_vector)
                requires
                    depth == 1 || depth == 2 || depth == 4 || depth == 8,
                    sh < 8,
            ;
            assert((depth == 1 ==> (1u16 << (depth as u16)) == 2) && (depth == 2 ==> (1u16
                << (depth as u16)) == 4) && (depth == 4 ==> (1u16 << (depth as u16)) == 16) && (
            depth == 8 ==> (1u16 << (depth as u16)) == 256)) by (bit_vector);
        }
        r
    }
}

/// The raw sample of channel `ch` of pixel `k` in a scanline whose data
/// begins at absolute bit `base_bit`.
pub open spec fn channel_sample(
    data: Seq<u8>,
    base_bit: int,
    k: int,
    depth: u8,
    channels: int,
    ch: int,
) -> u16 {
    sample_at_spec(data, base_bit + (k * channels + ch) * (depth as int), depth as int)
}

/// Whether decoding pixel `k` fails: only an indexed-color pixel can fail,
/// when there is no palette at all or its index runs past the palette.
pub open spec fn pixel_bad(
    data: Seq<u8>,
    base_bit: int,
    k: int,
    ct: ColorType,
    depth: u8,
    pal: Option<Seq<Entry>>,
) -> bool {
    ct == ColorType::IndexedColor && (match pal {
        Option::None => true,
        Some(p) => channel_sample(data, base_bit, k, depth, 1, 0) as int >= p.len(),
    })
}

/// The canonical pixel decoded from the samples of pixel `k`.  Greyscale
/// and truecolor pixels compare their raw samples against the transparency
/// table's declared value, an exact match meaning fully transparent;
/// indexed pixels look their index up in the palette and take their alpha
/// byte from the table, opaque past its end; the alpha-carrying color
/// types carry their alpha explicitly and ignore the table.
pub open spec fn pixel_value(
    data: Seq<u8>,
    base_bit: int,
    k: int,
    ct: ColorType,
    depth: u8,
    pal: Option<Seq<Entry>>,
    trns: Option<Seq<u8>>,
) -> Pixel
    recommends
        !pixel_bad(data, base_bit, k, ct, depth, pal),
{
    match ct {
        ColorType::Greyscale => {
            let v = channel_sample(data, base_bit, k, depth, 1, 0);
            let alpha: u16 = match trns {
                Some(t) => if v == be16_of(t[0], t[1]) {
                    0
                } else {
                    65535
                },
                Option::None => 65535,
            };
            Pixel {
                red: scale_spec(v, depth),
                green: scale_spec(v, depth),
                blue: scale_spec(v, depth),
                alpha,
            }
        },
        ColorType::Truecolor => {
            let r = channel_sample(data, base_bit, k, depth, 3, 0);
            let g = channel_sample(data, base_bit, k, depth, 3, 1);
            let b = channel_sample(data, base_bit, k, depth, 3, 2);
            let alpha: u16 = match trns {
                Some(t) => if r == be16_of(t[0], t[1]) && g == be16_of(t[2], t[3]) && b == be16_of(
                    t[4],
                    t[5],
                ) {
                    0
                } else {
                    65535
                },
                Option::None => 65535,
            };
            Pixel {
                red: scale_spec(r, depth),
                green: scale_spec(g, depth),
                blue: scale_spec(b, depth),
                alpha,
            }
        },
        ColorType::IndexedColor => {
            let idx = channel_sample(data, base_bit, k, depth, 1, 0);
            match pal {
                Some(p) => {
                    let e = p[idx as int];
                    let alpha: u16 = match trns {
                        Some(t) => scale_spec(trns_palette_alpha(t, idx as u8) as u16, 8),
                        Option::None => 65535,
                    };
                    Pixel {
                        red: scale_spec(e.0 as u16, 8),
                        green: scale_spec(e.1 as u16, 8),
                        blue: scale_spec(e.2 as u16, 8),
                        alpha,
                    }
                },
                Option::None => Pixel { red: 0, green: 0, blue: 0, alpha: 0 },
            }
        },
        ColorType::GreyscaleWithAlpha => {
            let v = channel_sample(data, base_bit, k, depth, 2, 0);
            let a = channel_sample(data, base_bit, k, depth, 2, 1);
            Pixel {
                red: scale_spec(v, depth),
                green: scale_spec(v, depth),
                blue: scale_spec(v, depth),
                alpha: scale_spec(a, depth),
            }
        },
        ColorType::TruecolorWithAlpha => {
            let r = channel_sample(data, base_bit, k, depth, 4, 0);
            let g = channel_sample(data, base_bit, k, depth, 4, 1);
            let b = channel_sample(data, base_bit, k, depth, 4, 2);
            let a = channel_sample(data, base_bit, k, depth, 4, 3);
            Pixel {
                red: scale_spec(r, depth),
                green: scale_spec(g, depth),
                blue: scale_spec(b, depth),
                alpha: scale_spec(a, depth),
            }
        },
    }
}

/// Advance a bit cursor by one sample and return the sample read.
fn next_sample(data: &Vec<u8>, byte_off: &mut usize, bit_off: &mut u8, depth: u8) -> (r: u16)
    requires
        depth == 1 || depth == 2 || depth == 4 || depth == 8 || depth == 16,
        *old(bit_off) < 8,
        depth != 16 ==> *old(bit_off) as int % (depth as int) == 0,
        depth == 16 ==> *old(bit_off) == 0,
        8 * *old(byte_off) + *old(bit_off) + depth <= 8 * data@.len(),
    ensures
        8 * *final(byte_off) + *final(bit_off) == 8 * *old(byte_off) + *old(bit_off) + depth,
        *final(bit_off) < 8,
        depth != 16 ==> *final(bit_off) as int % (depth as int) == 0,
        depth == 16 ==> *final(bit_off) == 0,
        r == sample_at_spec(data@, 8 * *old(byte_off) + *old(bit_off), depth as int),
        (r as int) < sample_limit(depth),
        depth == 16 || r < 256,
{
    let _n = data.len();
    if depth == 16 {
        let r = read_sample(data, *byte_off, 0, 16);
        *byte_off = *byte_off + 2;
        r
    } else {
        proof {
            assert(*old(bit_off) + depth <= 8);
        }
        let r = read_sample(data, *byte_off, *bit_off, depth);
        if *bit_off + depth == 8 {
            *bit_off = 0;
            *byte_off = *byte_off + 1;
        } else {
            *bit_off = *bit_off + depth;
        }
        r
    }
}

/// Decode one pixel at the cursor, advancing the cursor past its samples.
#[verifier::rlimit(60)]
fn parse_one_pixel(
    data: &Vec<u8>,
    byte_off: &mut usize,
    bit_off: &mut u8,
    color_type: ColorType,
    bit_depth: u8,
    palette: Option<&PLTEChunk>,
    transparency: Option<&tRNSChunk>,
    Ghost(base): Ghost<int>,
    Ghost(k): Ghost<int>,
) -> (r: Result<Pixel, DecodeError>)
    requires
        crate::chunks::valid_bit_depth_spec(color_type, bit_depth),
        color_type == ColorType::Greyscale && transparency is Some ==> transparency->0@.len() >= 2,
        color_type == ColorType::Truecolor && transparency is Some ==> transparency->0@.len() >= 6,
        0 <= base,
        0 <= k,
        8 * *old(byte_off) + *old(bit_off) == base + k * channel_count_spec(color_type) * bit_depth,
        8 * *old(byte_off) + *old(bit_off) + channel_count_spec(color_type) * bit_depth <= 8
            * data@.len(),
        *old(bit_off) < 8,
        bit_depth != 16 ==> *old(bit_off) as int % (bit_depth as int) == 0,
        bit_depth == 16 ==> *old(bit_off) == 0,
    ensures
        8 * *final(byte_off) + *final(bit_off) == 8 * *old(byte_off) + *old(bit_off)
            + channel_count_spec(color_type) * bit_depth,
        *final(bit_off) < 8,
        bit_depth != 16 ==> *final(bit_off) as int % (bit_depth as int) == 0,
        bit_depth == 16 ==> *final(bit_off) == 0,
        ({
            let pal = match palette {
                Some(p) => Some(p@),
                Option::None => Option::None,
            };
            let t = match transparency {
                Some(t) => Some(t@),
                Option::None => Option::None,
            };
            match r {
                Ok(px) => !pixel_bad(data@, base, k, color_type, bit_depth, pal) && px
                    == pixel_value(data@, base, k, color_type, bit_depth, pal, t),
                Err(e) => e == DecodeError::MissingPalette && pixel_bad(
                    data@,
                    base,
                    k,
                    color_type,
                    bit_depth,
                    pal,
                ),
            }
        }),
{
    let ghost pal = match palette {
        Some(p) => Some(p@),
        Option::None => Option::None::<Seq<Entry>>,
    };
    let ghost d_i = bit_depth as int;
    let channels = color_type.channel_count();
    proof {
        assert((k * 1 + 0) * d_i == k * 1 * d_i && (k * 2 + 0) * d_i == k * 2 * d_i && (k * 2 + 1)
            * d_i == k * 2 * d_i + d_i && (k * 3 + 0) * d_i == k * 3 * d_i && (k * 3 + 1) * d_i == k
            * 3 * d_i + d_i && (k * 3 + 2) * d_i == k * 3 * d_i + 2 * d_i && (k * 4 + 0) * d_i == k
            * 4 * d_i && (k * 4 + 1) * d_i == k * 4 * d_i + d_i && (k * 4 + 2) * d_i == k * 4 * d_i
            + 2 * d_i && (k * 4 + 3) * d_i == k * 4 * d_i + 3 * d_i) by (nonlinear_arith);
    }
    match color_type {
        ColorType::Greyscale => {
            let v = next_sample(data, byte_off, bit_off, bit_depth);
            let alpha: u16 = match transparency {
                Some(t) => {
                    if v == t.as_greyscale() {
                        0
                    } else {
                        65535
                    }
                },
                Option::None => 65535,
            };
            Ok(
                Pixel {
                    red: scale(v, bit_depth),
                    green: scale(v, bit_depth),
                    blue: scale(v, bit_depth),
                    alpha,
                },
            )
        },
        ColorType::IndexedColor => {
            let idx = next_sample(data, byte_off, bit_off, bit_depth);
            proof {
                assert(idx == channel_sample(data@, base, k, bit_depth, 1, 0));
            }
            match palette {
                Option::None => Err(DecodeError::MissingPalette),
                Some(p) => {
                    match p.get_color(idx as u8) {
                        Option::None => Err(DecodeError::MissingPalette),
                        Some(e) => {
                            let Entry(er, eg, eb) = e;
                            let alpha: u16 = match transparency {
                                Some(t) => scale(t.as_palette(idx as u8) as u16, 8),
                                Option::None => 65535,
                            };
                            Ok(
                                Pixel {
                                    red: scale(er as u16, 8),
                                    green: scale(eg as u16, 8),
                                    blue: scale(eb as u16, 8),
                                    alpha,
                                },
                            )
                        },
                    }
                },
            }
        },
        ColorType::GreyscaleWithAlpha => {
            let v = next_sample(data, byte_off, bit_off, bit_depth);
            let a = next_sample(data, byte_off, bit_off, bit_depth);
            Ok(
                Pixel {
                    red: scale(v, bit_depth),
                    green: scale(v, bit_depth),
                    blue: scale(v, bit_depth),
                    alpha: scale(a, bit_depth),
                },
            )
        },
        ColorType::Truecolor => {
            let cr = next_sample(data, byte_off, bit_off, bit_depth);
            let cg = next_sample(data, byte_off, bit_off, bit_depth);
            let cb = next_sample(data, byte_off, bit_off, bit_depth);
            let alpha: u16 = match transparency {
                Some(t) => {
                    let (t0, t1, t2) = t.as_truecolor();
                    if cr == t0 && cg == t1 && cb == t2 {
                        0
                    } else {
                        65535
                    }
                },
                Option::None => 65535,
            };
            Ok(
                Pixel {
                    red: scale(cr, bit_depth),
                    green: scale(cg, bit_depth),
                    blue: scale(cb, bit_depth),
                    alpha,
                },
            )
        },
        ColorType::TruecolorWithAlpha => {
            let cr = next_sample(data, byte_off, bit_off, bit_depth);
            let cg = next_sample(data, byte_off, bit_off, bit_depth);
            let cb = next_sample(data, byte_off, bit_off, bit_depth);
            let ca = next_sample(data, byte_off, bit_off, bit_depth);
            Ok(
                Pixel {
                    red: scale(cr, bit_depth),
                    green: scale(cg, bit_depth),
                    blue: scale(cb, bit_depth),
                    alpha: scale(ca, bit_depth),
                },
            )
        },
    }
}

/// Whether any of the first `count` pixels of a scanline fails to decode.
pub open spec fn some_pixel_bad(
    data: Seq<u8>,
    base_bit: int,
    count: int,
    ct: ColorType,
    depth: u8,
    pal: Option<Seq<Entry>>,
) -> bool {
    exists|k: int| 0 <= k < count && #[trigger] pixel_bad(data, base_bit, k, ct, depth, pal)
}

/// Decode the `count` pixels of one scanline whose data bytes (the tag byte
/// excluded) start at `byte_start`.
pub fn parse_scanline_pixels(
    data: &Vec<u8>,
    byte_start: usize,
    count: usize,
    color_type: ColorType,
    bit_depth: u8,
    palette: Option<&PLTEChunk>,
    transparency: Option<&tRNSChunk>,
) -> (r: Result<Vec<Pixel>, DecodeError>)
    requires
        crate::chunks::valid_bit_depth_spec(color_type, bit_depth),
        color_type == ColorType::Greyscale && transparency is Some ==> transparency->0@.len() >= 2,
        color_type == ColorType::Truecolor && transparency is Some ==> transparency->0@.len() >= 6,
        8 * byte_start + count * channel_count_spec(color_type) * bit_depth <= 8 * data@.len(),
    ensures
        ({
            let base = 8 * byte_start;
            let pal = match palette {
                Some(p) => Some(p@),
                Option::None => Option::None,
            };
            let t = match transparency {
                Some(t) => Some(t@),
                Option::None => Option::None,
            };
            match r {
                Ok(v) => {
                    &&& v@.len() == count
                    &&& !some_pixel_bad(data@, base, count as int, color_type, bit_depth, pal)
                    &&& forall|k: int|
                        0 <= k < count ==> v@[k] == pixel_value(
                            data@,
                            base,
                            k,
                            color_type,
                            bit_depth,
                            pal,
                            t,
                        )
                },
                Err(e) => {
                    &&& e == DecodeError::MissingPalette
                    &&& some_pixel_bad(data@, base, count as int, color_type, bit_depth, pal)
                },
            }
        }),
{
    let ghost base = 8 * byte_start as int;
    let ghost pal = match palette {
        Some(p) => Some(p@),
        Option::None => Option::None::<Seq<Entry>>,
    };
    let ghost tg = match transparency {
        Some(t) => Some(t@),
        Option::None => Option::None::<Seq<u8>>,
    };
    let channels = color_type.channel_count();
    let mut out: Vec<Pixel> = Vec::new();
    let mut byte_off: usize = byte_start;
    let mut bit_off: u8 = 0;
    let mut k: usize = 0;
    while k < count
        invariant
            k <= count,
            channels == channel_count_spec(color_type),
            crate::chunks::valid_bit_depth_spec(color_type, bit_depth),
            color_type == ColorType::Greyscale && transparency is Some ==> transparency->0@.len()
                >= 2,
            color_type == ColorType::Truecolor && transparency is Some ==> transparency->0@.len()
                >= 6,
            base == 8 * byte_start as int,
            pal == (match palette {
                Some(p) => Some(p@),
                Option::None => Option::None::<Seq<Entry>>,
            }),
            tg == (match transparency {
                Some(t) => Some(t@),
                Option::None => Option::None::<Seq<u8>>,
            }),
            8 * byte_start + count * channels * bit_depth <= 8 * data@.len(),
            8 * byte_off + bit_off == base + (k as int) * (channels as int) * (bit_depth as int),
            bit_off < 8,
            bit_depth != 16 ==> bit_off as int % (bit_depth as int) == 0,
            bit_depth == 16 ==> bit_off == 0,
            out@.len() == k,
            forall|q: int| 0 <= q < k ==> !pixel_bad(data@, base, q, color_type, bit_depth, pal),
            forall|q: int|
                0 <= q < k ==> out@[q] == pixel_value(
                    data@,
                    base,
                    q,
                    color_type,
                    bit_depth,
                    pal,
                    tg,
                ),
        decreases count - k,
    {
        proof {
            assert((k as int + 1) * (channels as int) * (bit_depth as int) <= (count as int) * (
            channels as int) * (bit_depth as int) && (k as int) * (channels as int) * (bit_depth
                as int) + (channels as int) * (bit_depth as int) == (k as int + 1) * (channels
                as int) * (bit_depth as int) && (k as int) * (channels as int) * (bit_depth as int)
                >= 0) by (nonlinear_arith)
                requires
                    0 <= k < count,
                    channels >= 1,
                    bit_depth >= 1,
            ;
        }
        let px = match parse_one_pixel(
            data,
            &mut byte_off,
            &mut bit_off,
            color_type,
            bit_depth,
            palette,
            transparency,
            Ghost(base),
            Ghost(k as int),
        ) {
            Ok(px) => px,
            Err(e) => {
                proof {
                    assert(0 <= (k as int) && (k as int) < count && pixel_bad(
                        data@,
                        8 * byte_start as int,
                        k as int,
                        color_type,
                        bit_depth,
                        pal,
                    ));
                }
                return Err(e);
            },
        };
        out.push(px);
        k = k + 1;
    }
    Ok(out)
}

/// The pixel of the full image at index `idx`, read from the reconstructed
/// scanline stream: for a non-interlaced image from scanline `idx / width`,
/// for an Adam7 image from the scanline of the one pass that covers it.
pub open spec fn pixel_at_image(
    data: Seq<u8>,
    h: IHDRChunk,
    pal: Option<Seq<Entry>>,
    trns: Option<Seq<u8>>,
    idx: int,
) -> Pixel {
    let w = h.width as int;
    let row = idx / w;
    let col = idx % w;
    match h.interlace_method {
        Interlacing::NoInterlace => {
            let ll = scanline_width_spec(w, pixel_width_spec(h));
            pixel_value(data, 8 * (row * ll + 1), col, h.color_type, h.bit_depth, pal, trns)
        },
        Interlacing::Adam7 => {
            let q = pass_of_spec(row, col);
            let i = (row - pass_row_start(q)) / pass_row_stride(q);
            let j = (col - pass_col_start(q)) / pass_col_stride(q);
            let ll = pass_line_len(w, pixel_width_spec(h), q);
            let off = pass_offset(w, h.height as int, pixel_width_spec(h), q);
            pixel_value(data, 8 * (off + i * ll + 1), j, h.color_type, h.bit_depth, pal, trns)
        },
    }
}

/// The full pixel buffer of the image, row-major.
pub open spec fn pixels_model(
    data: Seq<u8>,
    h: IHDRChunk,
    pal: Option<Seq<Entry>>,
    trns: Option<Seq<u8>>,
) -> Seq<Pixel> {
    Seq::new(
        ((h.width as int) * (h.height as int)) as nat,
        |idx: int| pixel_at_image(data, h, pal, trns, idx),
    )
}

/// Whether any pixel of the image fails to decode: some scanline of the
/// image (of some pass, under Adam7) holds a bad palette reference.
pub open spec fn image_pixels_bad(data: Seq<u8>, h: IHDRChunk, pal: Option<Seq<Entry>>) -> bool {
    let w = h.width as int;
    let hh = h.height as int;
    let pw = pixel_width_spec(h);
    match h.interlace_method {
        Interlacing::NoInterlace => {
            let ll = scanline_width_spec(w, pw);
            exists|row: int|
                0 <= row < hh && #[trigger] some_pixel_bad(
                    data,
                    8 * (row * ll + 1),
                    w,
                    h.color_type,
                    h.bit_depth,
                    pal,
                )
        },
        Interlacing::Adam7 => {
            exists|q: int, i: int|
                {
                    &&& 0 <= q < 7
                    &&& pass_width_spec(w, q) > 0
                    &&& 0 <= i < pass_height_spec(hh, q)
                    &&& #[trigger] some_pixel_bad(
                        data,
                        8 * (pass_offset(w, hh, pw, q) + i * pass_line_len(w, pw, q) + 1),
                        pass_width_spec(w, q),
                        h.color_type,
                        h.bit_depth,
                        pal,
                    )
                }
        },
    }
}

/// The coordinates of cell `(i, j)` of pass `q`: where its pixel sits in
/// the full image, that exactly pass `q` covers it, and that the cell's
/// indices can be recovered from the pixel's coordinates.
proof fn lemma_cell_coords(w: int, h: int, q: int, i: int, j: int)
    requires
        1 <= w,
        1 <= h,
        0 <= q < 7,
        0 <= i < pass_height_spec(h, q),
        0 <= j < pass_width_spec(w, q),
    ensures
        ({
            let r = pass_row_start(q) + i * pass_row_stride(q);
            let c = pass_col_start(q) + j * pass_col_stride(q);
            &&& 0 <= r < h
            &&& 0 <= c < w
            &&& pass_of_spec(r, c) == q
            &&& (r * w + c) / w == r
            &&& (r * w + c) % w == c
            &&& 0 <= r * w + c < w * h
            &&& (r - pass_row_start(q)) / pass_row_stride(q) == i
            &&& (c - pass_col_start(q)) / pass_col_stride(q) == j
        }),
{
    let rs = pass_row_start(q);
    let rstr = pass_row_stride(q);
    let cs = pass_col_start(q);
    let cstr = pass_col_stride(q);
    let r = rs + i * rstr;
    let c = cs + j * cstr;
    crate::interlacing::lemma_steps_in_bound_pub(rs, rstr, h, i);
    crate::interlacing::lemma_steps_in_bound_pub(cs, cstr, w, j);
    lemma_mod_multiples_vanish(i, rs, rstr);
    lemma_mod_multiples_vanish(j, cs, cstr);
    assert(r == rstr * i + rs && c == cstr * j + cs) by (nonlinear_arith)
        requires
            r == rs + i * rstr,
            c == cs + j * cstr,
    ;
    assert(pass_contains(q, r, c));
    crate::interlacing::lemma_pass_partition(r, c);
    lemma_fundamental_div_mod_converse(r * w + c, w, r, c);
    assert(0 <= r * w + c < w * h) by (nonlinear_arith)
        requires
            0 <= r < h,
            0 <= c < w,
    ;
    lemma_fundamental_div_mod_converse(r - rs, rstr, i, 0);
    lemma_fundamental_div_mod_converse(c - cs, cstr, j, 0);
    assert(r - rs == rstr * i + 0 && c - cs == cstr * j + 0) by (nonlinear_arith)
        requires
            r == rs + i * rstr,
            c == cs + j * cstr,
    ;
}

/// A pixel covered by pass `q` lies at a cell of that pass's grid, whose
/// row and column indices its coordinates determine.
proof fn lemma_cell_inverse(w: int, h: int, q: int, idx: int)
    requires
        1 <= w,
        1 <= h,
        0 <= idx < w * h,
        0 <= q < 7,
        pass_of_spec(idx / w, idx % w) == q,
    ensures
        ({
            let r = idx / w;
            let c = idx % w;
            let i = (r - pass_row_start(q)) / pass_row_stride(q);
            let j = (c - pass_col_start(q)) / pass_col_stride(q);
            &&& 0 <= i < pass_height_spec(h, q)
            &&& 0 <= j < pass_width_spec(w, q)
            &&& r == pass_row_start(q) + i * pass_row_stride(q)
            &&& c == pass_col_start(q) + j * pass_col_stride(q)
        }),
{
    let r = idx / w;
    let c = idx % w;
    lemma_fundamental_div_mod(idx, w);
    assert(0 <= r < h && 0 <= c < w) by (nonlinear_arith)
        requires
            0 <= idx < w * h,
            1 <= w,
            idx == w * r + c,
            0 <= c < w,
    ;
    crate::interlacing::lemma_pass_partition(r, c);
    assert(pass_contains(q, r, c));
    let rs = pass_row_start(q);
    let rstr = pass_row_stride(q);
    let cs = pass_col_start(q);
    let cstr = pass_col_stride(q);
    lemma_fundamental_div_mod(r, rstr);
    lemma_fundamental_div_mod(c, cstr);
    assert(r >= rs && (r - rs) % rstr == 0 && c >= cs && (c - cs) % cstr == 0) by (nonlinear_arith)
        requires
            r == rstr * (r / rstr) + r % rstr,
            c == cstr * (c / cstr) + c % cstr,
            r % rstr == rs,
            c % cstr == cs,
            0 <= r,
            0 <= c,
            rstr >= 1,
            cstr >= 1,
            0 <= rs < rstr,
            0 <= cs < cstr,
    ;
    crate::interlacing::lemma_steps_in_cover_pub(rs, rstr, h, r);
    crate::interlacing::lemma_steps_in_cover_pub(cs, cstr, w, c);
}

/// Rounding a bit count up to whole bytes never loses bits.
proof fn lemma_ceil_bytes(x: int)
    requires
        0 <= x,
    ensures
        8 * crate::utils::spec_div_ceil(x, 8) >= x,
{
    lemma_fundamental_div_mod(x, 8);
}

/// Whether the scatter of Adam7 passes has already written the pixel at
/// `idx`, when the scatter stands at pass `q`, sub-image row `i`, column
/// `j`: the pixel's own pass is earlier, or it is the current pass and the
/// pixel's cell comes earlier in it.
pub open spec fn cell_done(h: IHDRChunk, idx: int, q: int, i: int, j: int) -> bool {
    let w = h.width as int;
    let r = idx / w;
    let c = idx % w;
    let p = pass_of_spec(r, c);
    let ip = (r - pass_row_start(p)) / pass_row_stride(p);
    let jp = (c - pass_col_start(p)) / pass_col_stride(p);
    p < q || (p == q && (ip < i || (ip == i && jp < j)))
}

/// Decode the whole pixel buffer from the reconstructed scanline stream,
/// row by row for a non-interlaced image, or pass by pass under Adam7,
/// scattering each pass's pixels to their absolute positions.
#[verifier::loop_isolation(false)]
#[verifier::rlimit(100)]
pub fn parse_pixels(
    data: &Vec<u8>,
    header: &IHDRChunk,
    palette: Option<&PLTEChunk>,
    transparency: Option<&tRNSChunk>,
) -> (r: Result<Vec<Pixel>, DecodeError>)
    requires
        data@.len() == expected_data_len(*header),
        valid_bit_depth_spec(header.color_type, header.bit_depth),
        header.color_type == ColorType::Greyscale && transparency is Some
            ==> transparency->0@.len() >= 2,
        header.color_type == ColorType::Truecolor && transparency is Some
            ==> transparency->0@.len() >= 6,
        (header.width as int) * (header.height as int) <= usize::MAX,
    ensures
        ({
            let pal = match palette {
                Some(p) => Some(p@),
                Option::None => Option::None,
            };
            let t = match transparency {
                Some(t) => Some(t@),
                Option::None => Option::None,
            };
            match r {
                Ok(v) => !image_pixels_bad(data@, *header, pal) && v@ == pixels_model(
                    data@,
                    *header,
                    pal,
                    t,
                ),
                Err(e) => e == DecodeError::MissingPalette && image_pixels_bad(
                    data@,
                    *header,
                    pal,
                ),
            }
        }),
{
    let ghost pal = match palette {
        Some(p) => Some(p@),
        Option::None => Option::None::<Seq<Entry>>,
    };
    let ghost tg = match transparency {
        Some(t) => Some(t@),
        Option::None => Option::None::<Seq<u8>>,
    };
    let ghost wi = header.width as int;
    let ghost hi = header.height as int;
    let ghost pwg = pixel_width_spec(*header);
    let ghost model = pixels_model(data@, *header, pal, tg);
    proof {
        assert(1 <= channel_count_spec(header.color_type) * header.bit_depth <= 64)
            by (nonlinear_arith)
            requires
                1 <= channel_count_spec(header.color_type) <= 4,
                1 <= header.bit_depth <= 16,
        ;
    }
    let pwbits = header.pixel_width();
    let _n = data.len();
    let w_usize = header.width as usize;
    let h_usize = header.height as usize;
    if w_usize == 0 || h_usize == 0 {
        let empty: Vec<Pixel> = Vec::new();
        proof {
            assert(wi * hi == 0) by (nonlinear_arith)
                requires
                    wi == 0 || hi == 0,
            ;
            assert(empty@ =~= model);
            assert(!image_pixels_bad(data@, *header, pal)) by {
                if image_pixels_bad(data@, *header, pal) {
                    match header.interlace_method {
                        Interlacing::NoInterlace => {
                            let ll0 = scanline_width_spec(wi, pwg);
                            let rr = choose|rr: int|
                                0 <= rr < hi && #[trigger] some_pixel_bad(
                                    data@,
                                    8 * (rr * ll0 + 1),
                                    wi,
                                    header.color_type,
                                    header.bit_depth,
                                    pal,
                                );
                            assert(wi == 0);
                            let k = choose|k: int|
                                0 <= k < wi && #[trigger] pixel_bad(
                                    data@,
                                    8 * (rr * ll0 + 1),
                                    k,
                                    header.color_type,
                                    header.bit_depth,
                                    pal,
                                );
                            assert(false);
                        },
                        Interlacing::Adam7 => {
                            let (q, i) = choose|q: int, i: int|
                                {
                                    &&& 0 <= q < 7
                                    &&& pass_width_spec(wi, q) > 0
                                    &&& 0 <= i < pass_height_spec(hi, q)
                                    &&& #[trigger] some_pixel_bad(
                                        data@,
                                        8 * (pass_offset(wi, hi, pwg, q) + i * pass_line_len(
                                            wi,
                                            pwg,
                                            q,
                                        ) + 1),
                                        pass_width_spec(wi, q),
                                        header.color_type,
                                        header.bit_depth,
                                        pal,
                                    )
                                };
                            if wi == 0 {
                                assert(pass_width_spec(wi, q) == 0);
                            } else {
                                assert(hi == 0);
                                assert(pass_height_spec(hi, q) == 0);
                            }
                            assert(false);
                        },
                    }
                }
            }
        }
        return Ok(empty);
    }
    let total_count = w_usize * h_usize;
    let def = Pixel::new(0, 0, 0, 0);
    let mut total: Vec<Pixel> = Vec::new();
    let mut z: usize = 0;
    while z < total_count
        invariant
            z <= total_count,
            total@.len() == z,
            forall|idx: int| 0 <= idx < z ==> total@[idx] == def,
        decreases total_count - z,
    {
        total.push(def);
        z = z + 1;
    }
    match header.interlace_method {
        Interlacing::NoInterlace => {
            let ghost ll = scanline_width_spec(wi, pwg);
            proof {
                assert(wi * pwg >= 0) by (nonlinear_arith)
                    requires
                        wi >= 0,
                        pwg >= 0,
                ;
                assert(1 <= ll);
                assert(ll * 1 <= hi * ll && ll * 1 == ll && hi * ll == ll * hi)
                    by (nonlinear_arith)
                    requires
                        1 <= hi,
                        0 <= ll,
                ;
            }
            let line_len = crate::utils::calculate_scanline_width(header.width, pwbits);
            let mut row: usize = 0;
            while row < h_usize
                invariant
                    row <= h_usize,
                    1 <= w_usize,
                    1 <= h_usize,
                    wi == header.width as int,
                    hi == header.height as int,
                    w_usize as int == wi,
                    h_usize as int == hi,
                    pwg == pixel_width_spec(*header),
                    1 <= pwbits as int == pwg,
                    header.interlace_method == Interlacing::NoInterlace,
                    valid_bit_depth_spec(header.color_type, header.bit_depth),
                    header.color_type == ColorType::Greyscale && transparency is Some
                        ==> transparency->0@.len() >= 2,
                    header.color_type == ColorType::Truecolor && transparency is Some
                        ==> transparency->0@.len() >= 6,
                    pal == (match palette {
                        Some(p) => Some(p@),
                        Option::None => Option::None::<Seq<Entry>>,
                    }),
                    tg == (match transparency {
                        Some(t) => Some(t@),
                        Option::None => Option::None::<Seq<u8>>,
                    }),
                    data@.len() == hi * ll,
                    data@.len() <= usize::MAX,
                    ll == scanline_width_spec(wi, pwg),
                    line_len as int == ll,
                    1 <= ll,
                    total_count == w_usize * h_usize,
                    total@.len() == total_count,
                    model == pixels_model(data@, *header, pal, tg),
                    total_count as int == wi * hi,
                    forall|idx: int| 0 <= idx < (row as int) * wi ==> total@[idx] == model[idx],
                    forall|rr: int|
                        0 <= rr < row ==> !(#[trigger] some_pixel_bad(
                            data@,
                            8 * (rr * ll + 1),
                            wi,
                            header.color_type,
                            header.bit_depth,
                            pal,
                        )),
                decreases h_usize - row,
            {
                proof {
                    assert((row as int) * ll + ll <= hi * ll && 0 <= (row as int) * ll && (row
                        as int + 1) * ll == (row as int) * ll + ll) by (nonlinear_arith)
                        requires
                            0 <= row < hi,
                            1 <= ll,
                    ;
                    assert((row as int) * ll + 1 <= data@.len());
                    lemma_ceil_bytes(wi * pwg);
                    assert(wi * (channel_count_spec(header.color_type) * header.bit_depth) == wi
                        * pwg && (wi * channel_count_spec(header.color_type)) * header.bit_depth
                        == wi * (channel_count_spec(header.color_type) * header.bit_depth))
                        by (nonlinear_arith)
                        requires
                            pwg == channel_count_spec(header.color_type) * header.bit_depth,
                    ;
                }
                let byte_start = row * line_len + 1;
                let v = match parse_scanline_pixels(
                    data,
                    byte_start,
                    w_usize,
                    header.color_type,
                    header.bit_depth,
                    palette,
                    transparency,
                ) {
                    Ok(v) => v,
                    Err(e) => {
                        proof {
                            assert(some_pixel_bad(
                                data@,
                                8 * ((row as int) * ll + 1),
                                wi,
                                header.color_type,
                                header.bit_depth,
                                pal,
                            ));
                            assert(image_pixels_bad(data@, *header, pal));
                        }
                        return Err(e);
                    },
                };
                let mut col: usize = 0;
                while col < w_usize
                    invariant
                        col <= w_usize,
                        1 <= w_usize,
                        row < h_usize,
                        wi == header.width as int,
                        w_usize as int == wi,
                        h_usize as int == hi,
                        total_count == w_usize * h_usize,
                        total_count as int == wi * hi,
                        total@.len() == total_count,
                        model == pixels_model(data@, *header, pal, tg),
                        header.interlace_method == Interlacing::NoInterlace,
                        pwg == pixel_width_spec(*header),
                        ll == scanline_width_spec(wi, pwg),
                        v@.len() == w_usize,
                        forall|k: int|
                            0 <= k < w_usize ==> v@[k] == pixel_value(
                                data@,
                                8 * ((row as int) * ll + 1),
                                k,
                                header.color_type,
                                header.bit_depth,
                                pal,
                                tg,
                            ),
                        forall|idx: int|
                            0 <= idx < (row as int) * wi + col ==> total@[idx] == model[idx],
                    decreases w_usize - col,
                {
                    proof {
                        assert((row as int) * wi + col < wi * hi && (row as int) * wi + wi <= hi
                            * wi && hi * wi == wi * hi) by (nonlinear_arith)
                            requires
                                0 <= row < hi,
                                0 <= col < wi,
                        ;
                        assert((row as int) * wi + col == wi * (row as int) + col)
                            by (nonlinear_arith);
                        lemma_fundamental_div_mod_converse(
                            (row as int) * wi + col,
                            wi,
                            row as int,
                            col as int,
                        );
                        let idx0 = (row as int) * wi + col;
                        assert(0 <= idx0 < model.len());
                        assert(model[idx0] == pixel_at_image(data@, *header, pal, tg, idx0));
                        assert(idx0 / wi == row as int && idx0 % wi == col as int);
                        assert(model[idx0] == pixel_value(
                            data@,
                            8 * ((row as int) * ll + 1),
                            col as int,
                            header.color_type,
                            header.bit_depth,
                            pal,
                            tg,
                        ));
                    }
                    let idx = row * w_usize + col;
                    total[idx] = v[col];
                    col = col + 1;
                }
                proof {
                    assert((row as int + 1) * wi == (row as int) * wi + wi) by (nonlinear_arith);
                    assert(!some_pixel_bad(
                        data@,
                        8 * ((row as int) * ll + 1),
                        wi,
                        header.color_type,
                        header.bit_depth,
                        pal,
                    ));
                }
                row = row + 1;
            }
            proof {
                assert(hi * wi == wi * hi) by (nonlinear_arith);
                assert(total@ =~= model);
                assert(!image_pixels_bad(data@, *header, pal));
            }
            Ok(total)
        },
        Interlacing::Adam7 => {
            parse_pixels_interlaced(data, header, palette, transparency, total)
        },
    }
}


/// Decode the pixel buffer of an Adam7-interlaced image, pass by pass,
/// scattering each pass's pixels to their absolute positions.
#[verifier::rlimit(100)]
fn parse_pixels_interlaced(
    data: &Vec<u8>,
    header: &IHDRChunk,
    palette: Option<&PLTEChunk>,
    transparency: Option<&tRNSChunk>,
    mut total: Vec<Pixel>,
) -> (r: Result<Vec<Pixel>, DecodeError>)
    requires
        data@.len() == expected_data_len(*header),
        valid_bit_depth_spec(header.color_type, header.bit_depth),
        header.color_type == ColorType::Greyscale && transparency is Some
            ==> transparency->0@.len() >= 2,
        header.color_type == ColorType::Truecolor && transparency is Some
            ==> transparency->0@.len() >= 6,
        header.interlace_method == Interlacing::Adam7,
        (header.width as int) * (header.height as int) <= usize::MAX,
        1 <= header.width,
        1 <= header.height,
        total@.len() == (header.width as int) * (header.height as int),
        forall|idx: int|
            0 <= idx < total@.len() ==> total@[idx] == (Pixel {
                red: 0,
                green: 0,
                blue: 0,
                alpha: 0,
            }),
    ensures
        ({
            let pal = match palette {
                Some(p) => Some(p@),
                Option::None => Option::None,
            };
            let t = match transparency {
                Some(t) => Some(t@),
                Option::None => Option::None,
            };
            match r {
                Ok(v) => !image_pixels_bad(data@, *header, pal) && v@ == pixels_model(
                    data@,
                    *header,
                    pal,
                    t,
                ),
                Err(e) => e == DecodeError::MissingPalette && image_pixels_bad(
                    data@,
                    *header,
                    pal,
                ),
            }
        }),
{
    let ghost pal = match palette {
        Some(p) => Some(p@),
        Option::None => Option::None::<Seq<Entry>>,
    };
    let ghost tg = match transparency {
        Some(t) => Some(t@),
        Option::None => Option::None::<Seq<u8>>,
    };
    let ghost wi = header.width as int;
    let ghost hi = header.height as int;
    let ghost pwg = pixel_width_spec(*header);
    let ghost model = pixels_model(data@, *header, pal, tg);
    let ghost def = (Pixel { red: 0, green: 0, blue: 0, alpha: 0 });
    proof {
        assert(1 <= channel_count_spec(header.color_type) * header.bit_depth <= 64)
            by (nonlinear_arith)
            requires
                1 <= channel_count_spec(header.color_type) <= 4,
                1 <= header.bit_depth <= 16,
        ;
    }
    let pwbits = header.pixel_width();
    let _n = data.len();
    let w_usize = header.width as usize;
    let h_usize = header.height as usize;
    let total_count = total.len();
    proof {
        assert(total_count as int == wi * hi);
    }
    let mut offset: usize = 0;
    let mut q: usize = 0;
    while q < 7
        invariant
            wi == header.width as int,
            hi == header.height as int,
            w_usize as int == wi,
            h_usize as int == hi,
            1 <= w_usize,
            1 <= h_usize,
            pwg == pixel_width_spec(*header),
            1 <= pwbits as int == pwg,
            header.interlace_method == Interlacing::Adam7,
            valid_bit_depth_spec(header.color_type, header.bit_depth),
            header.color_type == ColorType::Greyscale && transparency is Some ==> transparency->0@.len() >= 2,
            header.color_type == ColorType::Truecolor && transparency is Some ==> transparency->0@.len() >= 6,
            pal == (match palette { Some(p) => Some(p@), Option::None => Option::None::<Seq<Entry>>, }),
            tg == (match transparency { Some(t) => Some(t@), Option::None => Option::None::<Seq<u8>>, }),
            data@.len() == pass_offset(wi, hi, pwg, 7),
            data@.len() <= usize::MAX,
            model == pixels_model(data@, *header, pal, tg),
            total_count as int == wi * hi,
            def == (Pixel { red: 0, green: 0, blue: 0, alpha: 0 }),
            q <= 7,
            offset == pass_offset(wi, hi, pwg, q as int),
            total@.len() == total_count,
            forall|idx: int|
                0 <= idx < wi * hi ==> total@[idx] == (if cell_done(
                    *header,
                    idx,
                    q as int,
                    0,
                    0,
                ) {
                    model[idx]
                } else {
                    def
                }),
            forall|qq: int, ii: int|
                {
                    &&& 0 <= qq < q
                    &&& pass_width_spec(wi, qq) > 0
                    &&& 0 <= ii < pass_height_spec(hi, qq)
                } ==> !(#[trigger] some_pixel_bad(
                    data@,
                    8 * (pass_offset(wi, hi, pwg, qq) + ii * pass_line_len(wi, pwg, qq)
                        + 1),
                    pass_width_spec(wi, qq),
                    header.color_type,
                    header.bit_depth,
                    pal,
                )),
        decreases 7 - q,
    {
        let (row_start, col_start, row_stride, col_stride) = Adam7Iter::pass_parameters(q);
        let pass_w = if w_usize > col_start {
            crate::utils::div_ceil(w_usize - col_start, col_stride)
        } else {
            0
        };
        let pass_h = if h_usize > row_start {
            crate::utils::div_ceil(h_usize - row_start, row_stride)
        } else {
            0
        };
        proof {
            assert(pass_w == pass_width_spec(wi, q as int));
            assert(pass_h == pass_height_spec(hi, q as int));
            crate::filters::lemma_pass_offset_mono_pub(wi, hi, pwg, q as int + 1, 7);
        }
        if pass_w == 0 || pass_h == 0 {
            proof {
                assert forall|idx: int| 0 <= idx < wi * hi implies (cell_done(
                    *header,
                    idx,
                    q as int + 1,
                    0,
                    0,
                ) == cell_done(*header, idx, q as int, 0, 0)) by {
                    let p = pass_of_spec(idx / wi, idx % wi);
                    if p == q as int {
                        lemma_cell_inverse(wi, hi, q as int, idx);
                    }
                }
            }
            q = q + 1;
            continue ;
        }
        let ghost llg = pass_line_len(wi, pwg, q as int);
        proof {
            assert(pass_offset(wi, hi, pwg, q as int + 1) == offset + (pass_h as int)
                * llg);
            assert(llg * 1 <= (pass_h as int) * llg && llg * 1 == llg && (pass_h as int)
                * llg == llg * (pass_h as int) && 0 <= (pass_h as int) * llg)
                by (nonlinear_arith)
                requires
                    1 <= pass_h,
                    0 <= llg,
            ;
        }
        let ll = crate::utils::calculate_scanline_width(pass_w as u32, pwbits);
        let mut i: usize = 0;
        while i < pass_h
            invariant
                wi == header.width as int,
                hi == header.height as int,
                w_usize as int == wi,
                h_usize as int == hi,
                1 <= w_usize,
                1 <= h_usize,
                pwg == pixel_width_spec(*header),
                1 <= pwbits as int == pwg,
                header.interlace_method == Interlacing::Adam7,
                valid_bit_depth_spec(header.color_type, header.bit_depth),
                header.color_type == ColorType::Greyscale && transparency is Some ==> transparency->0@.len() >= 2,
                header.color_type == ColorType::Truecolor && transparency is Some ==> transparency->0@.len() >= 6,
                pal == (match palette { Some(p) => Some(p@), Option::None => Option::None::<Seq<Entry>>, }),
                tg == (match transparency { Some(t) => Some(t@), Option::None => Option::None::<Seq<u8>>, }),
                data@.len() == pass_offset(wi, hi, pwg, 7),
                data@.len() <= usize::MAX,
                model == pixels_model(data@, *header, pal, tg),
                total_count as int == wi * hi,
                def == (Pixel { red: 0, green: 0, blue: 0, alpha: 0 }),
                q < 7,
                row_start == pass_row_start(q as int),
                col_start == pass_col_start(q as int),
                row_stride == pass_row_stride(q as int),
                col_stride == pass_col_stride(q as int),
                1 <= pass_w as int == pass_width_spec(wi, q as int),
                1 <= pass_h as int == pass_height_spec(hi, q as int),
                llg == pass_line_len(wi, pwg, q as int),
                ll as int == llg,
                1 <= llg,
                offset == pass_offset(wi, hi, pwg, q as int),
                offset + (pass_h as int) * llg <= data@.len(),
                i <= pass_h,
                total@.len() == total_count,
                forall|idx: int|
                    0 <= idx < wi * hi ==> total@[idx] == (if cell_done(
                        *header,
                        idx,
                        q as int,
                        i as int,
                        0,
                    ) {
                        model[idx]
                    } else {
                        def
                    }),
                forall|qq: int, ii: int|
                    {
                        &&& 0 <= qq < q
                        &&& pass_width_spec(wi, qq) > 0
                        &&& 0 <= ii < pass_height_spec(hi, qq)
                    } ==> !(#[trigger] some_pixel_bad(
                        data@,
                        8 * (pass_offset(wi, hi, pwg, qq) + ii * pass_line_len(
                            wi,
                            pwg,
                            qq,
                        ) + 1),
                        pass_width_spec(wi, qq),
                        header.color_type,
                        header.bit_depth,
                        pal,
                    )),
                forall|ii: int|
                    0 <= ii < i ==> !(#[trigger] some_pixel_bad(
                        data@,
                        8 * (pass_offset(wi, hi, pwg, q as int) + ii * pass_line_len(
                            wi,
                            pwg,
                            q as int,
                        ) + 1),
                        pass_width_spec(wi, q as int),
                        header.color_type,
                        header.bit_depth,
                        pal,
                    )),
            decreases pass_h - i,
        {
            proof {
                assert((i as int) * llg + llg <= (pass_h as int) * llg && 0 <= (i as int)
                    * llg && (i as int + 1) * llg == (i as int) * llg + llg)
                    by (nonlinear_arith)
                    requires
                        0 <= i < pass_h,
                        1 <= llg,
                ;
                assert(offset + (i as int) * llg + 1 <= data@.len());
                lemma_ceil_bytes((pass_w as int) * pwg);
                assert((pass_w as int) * (channel_count_spec(header.color_type)
                    * header.bit_depth) == (pass_w as int) * pwg && ((pass_w as int)
                    * channel_count_spec(header.color_type)) * header.bit_depth == (pass_w
                    as int) * (channel_count_spec(header.color_type) * header.bit_depth)
                    && 0 <= (pass_w as int) * pwg) by (nonlinear_arith)
                    requires
                        pwg == channel_count_spec(header.color_type) * header.bit_depth,
                        0 <= pass_w,
                        0 <= pwg,
                ;
            }
            let byte_start = offset + i * ll + 1;
            let v = match parse_scanline_pixels(
                data,
                byte_start,
                pass_w,
                header.color_type,
                header.bit_depth,
                palette,
                transparency,
            ) {
                Ok(v) => v,
                Err(e) => {
                    proof {
                        assert(some_pixel_bad(
                            data@,
                            8 * (pass_offset(wi, hi, pwg, q as int) + (i as int)
                                * pass_line_len(wi, pwg, q as int) + 1),
                            pass_width_spec(wi, q as int),
                            header.color_type,
                            header.bit_depth,
                            pal,
                        ));
                        assert(image_pixels_bad(data@, *header, pal));
                    }
                    return Err(e);
                },
            };
            let mut j: usize = 0;
            while j < pass_w
                invariant
                    wi == header.width as int,
                    hi == header.height as int,
                    w_usize as int == wi,
                    h_usize as int == hi,
                    1 <= w_usize,
                    1 <= h_usize,
                    pwg == pixel_width_spec(*header),
                    1 <= pwbits as int == pwg,
                    header.interlace_method == Interlacing::Adam7,
                    valid_bit_depth_spec(header.color_type, header.bit_depth),
                    header.color_type == ColorType::Greyscale && transparency is Some ==> transparency->0@.len() >= 2,
                    header.color_type == ColorType::Truecolor && transparency is Some ==> transparency->0@.len() >= 6,
                    pal == (match palette { Some(p) => Some(p@), Option::None => Option::None::<Seq<Entry>>, }),
                    tg == (match transparency { Some(t) => Some(t@), Option::None => Option::None::<Seq<u8>>, }),
                    data@.len() == pass_offset(wi, hi, pwg, 7),
                    data@.len() <= usize::MAX,
                    model == pixels_model(data@, *header, pal, tg),
                    total_count as int == wi * hi,
                    def == (Pixel { red: 0, green: 0, blue: 0, alpha: 0 }),
                    q < 7,
                    row_start == pass_row_start(q as int),
                    col_start == pass_col_start(q as int),
                    row_stride == pass_row_stride(q as int),
                    col_stride == pass_col_stride(q as int),
                    1 <= pass_w as int == pass_width_spec(wi, q as int),
                    1 <= pass_h as int == pass_height_spec(hi, q as int),
                    llg == pass_line_len(wi, pwg, q as int),
                    ll as int == llg,
                    1 <= llg,
                    offset == pass_offset(wi, hi, pwg, q as int),
                    offset + (pass_h as int) * llg <= data@.len(),
                    i < pass_h,
                    byte_start == offset + (i as int) * llg + 1,
                    j <= pass_w,
                    total@.len() == total_count,
                    v@.len() == pass_w,
                    forall|k: int|
                        0 <= k < pass_w ==> v@[k] == pixel_value(
                            data@,
                            8 * (offset + (i as int) * llg + 1),
                            k,
                            header.color_type,
                            header.bit_depth,
                            pal,
                            tg,
                        ),
                    forall|idx: int|
                        0 <= idx < wi * hi ==> total@[idx] == (if cell_done(
                            *header,
                            idx,
                            q as int,
                            i as int,
                            j as int,
                        ) {
                            model[idx]
                        } else {
                            def
                        }),
                decreases pass_w - j,
            {
                proof {
                    lemma_cell_coords(wi, hi, q as int, i as int, j as int);
                }
                let r_abs = row_start + i * row_stride;
                let c_abs = col_start + j * col_stride;
                let idx = r_abs * w_usize + c_abs;
                let ghost pre_total = total@;
                total[idx] = v[j];
                proof {
                    let idx0 = idx as int;
                    assert(model[idx0] == pixel_at_image(data@, *header, pal, tg, idx0));
                    assert(model[idx0] == v@[j as int]);
                    assert forall|idx2: int| 0 <= idx2 < wi * hi implies total@[idx2] == (
                    if cell_done(*header, idx2, q as int, i as int, j as int + 1) {
                        model[idx2]
                    } else {
                        def
                    }) by {
                        if idx2 == idx0 {
                            assert(idx0 / wi == r_abs as int && idx0 % wi == c_abs as int);
                            assert(cell_done(*header, idx0, q as int, i as int, j as int + 1));
                            assert(total@[idx0] == model[idx0]);
                        } else {
                            assert(total@[idx2] == pre_total[idx2]);
                            let p = pass_of_spec(idx2 / wi, idx2 % wi);
                            if p == q as int {
                                lemma_cell_inverse(wi, hi, q as int, idx2);
                                let r2 = idx2 / wi;
                                let c2 = idx2 % wi;
                                lemma_fundamental_div_mod(idx2, wi);
                                assert(wi * r2 + c2 == r2 * wi + c2) by (nonlinear_arith);
                                let ip = (r2 - pass_row_start(p)) / pass_row_stride(p);
                                let jp = (c2 - pass_col_start(p)) / pass_col_stride(p);
                                if ip == i as int && jp == j as int {
                                    assert(r2 == r_abs as int && c2 == c_abs as int);
                                    assert(idx2 == idx0);
                                }
                            }
                        }
                    }
                }
                j = j + 1;
            }
            proof {
                assert forall|idx2: int| 0 <= idx2 < wi * hi implies (cell_done(
                    *header,
                    idx2,
                    q as int,
                    i as int + 1,
                    0,
                ) == cell_done(*header, idx2, q as int, i as int, pass_w as int)) by {
                    let p = pass_of_spec(idx2 / wi, idx2 % wi);
                    if p == q as int {
                        lemma_cell_inverse(wi, hi, q as int, idx2);
                    }
                }
                assert(!some_pixel_bad(
                    data@,
                    8 * (pass_offset(wi, hi, pwg, q as int) + (i as int) * pass_line_len(
                        wi,
                        pwg,
                        q as int,
                    ) + 1),
                    pass_width_spec(wi, q as int),
                    header.color_type,
                    header.bit_depth,
                    pal,
                ));
            }
            i = i + 1;
        }
        proof {
            assert forall|idx2: int| 0 <= idx2 < wi * hi implies (cell_done(
                *header,
                idx2,
                q as int + 1,
                0,
                0,
            ) == cell_done(*header, idx2, q as int, pass_h as int, 0)) by {
                let p = pass_of_spec(idx2 / wi, idx2 % wi);
                if p == q as int {
                    lemma_cell_inverse(wi, hi, q as int, idx2);
                }
            }
        }
        offset = offset + ll * pass_h;
        q = q + 1;
    }
    proof {
        assert forall|idx: int| 0 <= idx < wi * hi implies cell_done(
            *header,
            idx,
            7,
            0,
            0,
        ) by {
            let p = pass_of_spec(idx / wi, idx % wi);
        }
        assert(hi * wi == wi * hi) by (nonlinear_arith);
        assert(total@ =~= model);
        assert(!image_pixels_bad(data@, *header, pal)) by {
            if image_pixels_bad(data@, *header, pal) {
                let (qq, ii) = choose|qq: int, ii: int|
                    {
                        &&& 0 <= qq < 7
                        &&& pass_width_spec(wi, qq) > 0
                        &&& 0 <= ii < pass_height_spec(hi, qq)
                        &&& #[trigger] some_pixel_bad(
                            data@,
                            8 * (pass_offset(wi, hi, pwg, qq) + ii * pass_line_len(
                                wi,
                                pwg,
                                qq,
                            ) + 1),
                            pass_width_spec(wi, qq),
                            header.color_type,
                            header.bit_depth,
                            pal,
                        )
                    };
                assert(false);
            }
        }
    }
    Ok(total)
}

} // verus!
