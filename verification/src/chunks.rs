//! The PNG chunk layer: the generic length-prefixed, type-tagged,
//! CRC-trailed envelope, and the typed codecs for IHDR, PLTE, tRNS, pHYs,
//! IDAT and IEND, plus an opaque chunk that preserves anything else
//! byte-for-byte.

use crate::bytes::{be16_of, be32_bytes, be32_of, copy_range, push_be32, read_be32};
use crate::crc::{calculate_crc, crc32_spec, lemma_crc_single_change};
use crate::errors::DecodeError;
use vstd::prelude::*;

verus! {

/// The four ASCII bytes naming the IHDR chunk.
pub open spec fn ihdr_type_bytes() -> Seq<u8> {
    seq![0x49u8, 0x48u8, 0x44u8, 0x52u8]
}

/// The four ASCII bytes naming the PLTE chunk.
pub open spec fn plte_type_bytes() -> Seq<u8> {
    seq![0x50u8, 0x4cu8, 0x54u8, 0x45u8]
}

/// The four ASCII bytes naming the IDAT chunk.
pub open spec fn idat_type_bytes() -> Seq<u8> {
    seq![0x49u8, 0x44u8, 0x41u8, 0x54u8]
}

/// The four ASCII bytes naming the IEND chunk.
pub open spec fn iend_type_bytes() -> Seq<u8> {
    seq![0x49u8, 0x45u8, 0x4eu8, 0x44u8]
}

/// The four ASCII bytes naming the tRNS chunk.
pub open spec fn trns_type_bytes() -> Seq<u8> {
    seq![0x74u8, 0x52u8, 0x4eu8, 0x53u8]
}

/// The four ASCII bytes naming the pHYs chunk.
pub open spec fn phys_type_bytes() -> Seq<u8> {
    seq![0x70u8, 0x48u8, 0x59u8, 0x73u8]
}

/// The envelope of one chunk: big-endian payload length, 4-byte type tag,
/// payload, and a CRC-32 over type and payload.
pub open spec fn chunk_bytes_spec(ctype: Seq<u8>, payload: Seq<u8>) -> Seq<u8>
    recommends
        ctype.len() == 4,
        payload.len() < 0x100000000,
{
    be32_bytes(payload.len() as u32) + ctype + payload + be32_bytes(crc32_spec(ctype + payload))
}

/// Serialize one chunk envelope around the given type tag and payload.
pub fn encode_chunk(t0: u8, t1: u8, t2: u8, t3: u8, payload: &Vec<u8>) -> (r: Vec<u8>)
    requires
        payload@.len() < 0x100000000,
    ensures
        r@ == chunk_bytes_spec(seq![t0, t1, t2, t3], payload@),
{
    let mut body: Vec<u8> = Vec::new();
    body.push(t0);
    body.push(t1);
    body.push(t2);
    body.push(t3);
    let mut k: usize = 0;
    while k < payload.len()
        invariant
            k <= payload@.len(),
            body@ == seq![t0, t1, t2, t3] + payload@.take(k as int),
        decreases payload@.len() - k,
    {
        body.push(payload[k]);
        proof {
            assert(payload@.take(k + 1) =~= payload@.take(k as int) + seq![payload@[k as int]]);
            assert(body@ =~= seq![t0, t1, t2, t3] + payload@.take(k + 1));
        }
        k = k + 1;
    }
    proof {
        assert(payload@.take(payload@.len() as int) =~= payload@);
    }
    let crc = calculate_crc(&body);
    let mut out: Vec<u8> = Vec::new();
    push_be32(&mut out, payload.len() as u32);
    let mut k2: usize = 0;
    while k2 < body.len()
        invariant
            k2 <= body@.len(),
            body@ == seq![t0, t1, t2, t3] + payload@,
            out@ == be32_bytes(payload@.len() as u32) + body@.take(k2 as int),
        decreases body@.len() - k2,
    {
        out.push(body[k2]);
        proof {
            assert(body@.take(k2 + 1) =~= body@.take(k2 as int) + seq![body@[k2 as int]]);
            assert(out@ =~= be32_bytes(payload@.len() as u32) + body@.take(k2 + 1));
        }
        k2 = k2 + 1;
    }
    proof {
        assert(body@.take(body@.len() as int) =~= body@);
    }
    push_be32(&mut out, crc);
    proof {
        assert(out@ =~= chunk_bytes_spec(seq![t0, t1, t2, t3], payload@));
    }
    out
}

/// The color model a PNG image stores its samples in.
#[derive(Debug, Clone, Copy, PartialEq, Eq, Structural)]
pub enum ColorType {
    /// One luminance sample per pixel.
    Greyscale,
    /// Red, green and blue samples per pixel.
    Truecolor,
    /// One palette index per pixel.
    IndexedColor,
    /// Luminance plus alpha.
    GreyscaleWithAlpha,
    /// Red, green, blue plus alpha.
    TruecolorWithAlpha,
}

/// The color type a code byte names, if any.
pub open spec fn color_type_from_u8_spec(v: u8) -> Option<ColorType> {
    if v == 0 {
        Some(ColorType::Greyscale)
    } else if v == 2 {
        Some(ColorType::Truecolor)
    } else if v == 3 {
        Some(ColorType::IndexedColor)
    } else if v == 4 {
        Some(ColorType::GreyscaleWithAlpha)
    } else if v == 6 {
        Some(ColorType::TruecolorWithAlpha)
    } else {
        Option::None
    }
}

/// The code byte of a color type.
pub open spec fn color_type_to_u8_spec(c: ColorType) -> u8 {
    match c {
        ColorType::Greyscale => 0,
        ColorType::Truecolor => 2,
        ColorType::IndexedColor => 3,
        ColorType::GreyscaleWithAlpha => 4,
        ColorType::TruecolorWithAlpha => 6,
    }
}

/// How many samples each pixel of a color type carries.
pub open spec fn channel_count_spec(c: ColorType) -> u8 {
    match c {
        ColorType::Greyscale => 1,
        ColorType::IndexedColor => 1,
        ColorType::GreyscaleWithAlpha => 2,
        ColorType::Truecolor => 3,
        ColorType::TruecolorWithAlpha => 4,
    }
}

/// The bit depths the format allows for a color type.
pub open spec fn valid_bit_depth_spec(c: ColorType, depth: u8) -> bool {
    match c {
        ColorType::Greyscale => depth == 1 || depth == 2 || depth == 4 || depth == 8 || depth
            == 16,
        ColorType::Truecolor => depth == 8 || depth == 16,
        ColorType::IndexedColor => depth == 1 || depth == 2 || depth == 4 || depth == 8,
        ColorType::GreyscaleWithAlpha => depth == 8 || depth == 16,
        ColorType::TruecolorWithAlpha => depth == 8 || depth == 16,
    }
}

impl ColorType {
    /// Decode a color type code; 0, 2, 3, 4 and 6 are the known codes.
    pub fn from_u8(v: u8) -> (r: Option<ColorType>)
        ensures
            r == color_type_from_u8_spec(v),
    {
        match v {
            0 => Some(ColorType::Greyscale),
            2 => Some(ColorType::Truecolor),
            3 => Some(ColorType::IndexedColor),
            4 => Some(ColorType::GreyscaleWithAlpha),
            6 => Some(ColorType::TruecolorWithAlpha),
            _ => Option::None,
        }
    }

    /// The code byte of this color type.
    pub fn to_u8(&self) -> (r: u8)
        ensures
            r == color_type_to_u8_spec(*self),
    {
        match self {
            ColorType::Greyscale => 0,
            ColorType::Truecolor => 2,
            ColorType::IndexedColor => 3,
            ColorType::GreyscaleWithAlpha => 4,
            ColorType::TruecolorWithAlpha => 6,
        }
    }

    /// How many samples each pixel of this color type carries.
    pub fn channel_count(&self) -> (r: u8)
        ensures
            r == channel_count_spec(*self),
    {
        match self {
            ColorType::Greyscale => 1,
            ColorType::IndexedColor => 1,
            ColorType::GreyscaleWithAlpha => 2,
            ColorType::Truecolor => 3,
            ColorType::TruecolorWithAlpha => 4,
        }
    }
}

/// Whether and how the image's scanlines are interleaved.
#[derive(Debug, Clone, Copy, PartialEq, Eq, Structural)]
pub enum Interlacing {
    /// Scanlines stored top to bottom at full resolution.
    NoInterlace,
    /// The seven-pass Adam7 scheme.
    Adam7,
}

/// The interlace method a code byte names, if any.
pub open spec fn interlacing_from_u8_spec(v: u8) -> Option<Interlacing> {
    if v == 0 {
        Some(Interlacing::NoInterlace)
    } else if v == 1 {
        Some(Interlacing::Adam7)
    } else {
        Option::None
    }
}

/// The code byte of an interlace method.
pub open spec fn interlacing_to_u8_spec(i: Interlacing) -> u8 {
    match i {
        Interlacing::NoInterlace => 0,
        Interlacing::Adam7 => 1,
    }
}

impl Interlacing {
    /// Decode an interlace method code; 0 and 1 are the known codes.
    pub fn from_u8(v: u8) -> (r: Option<Interlacing>)
        ensures
            r == interlacing_from_u8_spec(v),
    {
        match v {
            0 => Some(Interlacing::NoInterlace),
            1 => Some(Interlacing::Adam7),
            _ => Option::None,
        }
    }

    /// The code byte of this interlace method.
    pub fn to_u8(&self) -> (r: u8)
        ensures
            r == interlacing_to_u8_spec(*self),
    {
        match self {
            Interlacing::NoInterlace => 0,
            Interlacing::Adam7 => 1,
        }
    }
}

/// The image header: dimensions, sample layout and interlacing, created
/// once from the IHDR chunk and immutable thereafter.
#[derive(Debug, Clone, Copy, PartialEq, Eq, Structural)]
pub struct IHDRChunk {
    /// Image width in pixels.
    pub width: u32,
    /// Image height in pixels.
    pub height: u32,
    /// Bits per sample (1, 2, 4, 8 or 16, depending on the color type).
    pub bit_depth: u8,
    /// The color model of the samples.
    pub color_type: ColorType,
    /// The compression method byte; 0 is the only defined value.
    pub compression_method: u8,
    /// The filter method byte; 0 is the only defined value.
    pub filter_method: u8,
    /// Whether the scanlines are Adam7-interleaved.
    pub interlace_method: Interlacing,
}

/// Bits per pixel: channels times bit depth.
pub open spec fn pixel_width_spec(h: IHDRChunk) -> int {
    channel_count_spec(h.color_type) * h.bit_depth
}

/// The filter engine's neighbor stride in bytes: channels times the rounded
/// up byte width of one sample.
pub open spec fn filter_width_spec(h: IHDRChunk) -> int {
    if h.bit_depth >= 8 {
        channel_count_spec(h.color_type) * (h.bit_depth as int / 8)
    } else {
        channel_count_spec(h.color_type) as int
    }
}

/// The 13 payload bytes of the IHDR chunk.
pub open spec fn ihdr_payload_spec(h: IHDRChunk) -> Seq<u8> {
    be32_bytes(h.width) + be32_bytes(h.height) + seq![
        h.bit_depth,
        color_type_to_u8_spec(h.color_type),
        h.compression_method,
        h.filter_method,
        interlacing_to_u8_spec(h.interlace_method),
    ]
}

/// The full serialized IHDR chunk.
pub open spec fn ihdr_chunk_bytes(h: IHDRChunk) -> Seq<u8> {
    chunk_bytes_spec(ihdr_type_bytes(), ihdr_payload_spec(h))
}

/// What parsing an IHDR payload yields: the header, or the failure the
/// payload provokes.  The payload must be exactly 13 bytes; the color type,
/// interlace method and compression and filter method codes must be known,
/// and the bit depth must be one the color type allows.
pub open spec fn ihdr_from_bytes_spec(p: Seq<u8>) -> Result<IHDRChunk, DecodeError> {
    if p.len() != 13 {
        Err(DecodeError::ChunkFramingError)
    } else {
        match color_type_from_u8_spec(p[9]) {
            Option::None => Err(DecodeError::UnsupportedHeaderValue),
            Some(ct) => {
                match interlacing_from_u8_spec(p[12]) {
                    Option::None => Err(DecodeError::UnsupportedHeaderValue),
                    Some(il) => {
                        if !valid_bit_depth_spec(ct, p[8]) {
                            Err(DecodeError::UnsupportedHeaderValue)
                        } else if p[10] != 0 || p[11] != 0 {
                            Err(DecodeError::UnsupportedHeaderValue)
                        } else {
                            Ok(
                                IHDRChunk {
                                    width: be32_of(p[0], p[1], p[2], p[3]),
                                    height: be32_of(p[4], p[5], p[6], p[7]),
                                    bit_depth: p[8],
                                    color_type: ct,
                                    compression_method: p[10],
                                    filter_method: p[11],
                                    interlace_method: il,
                                },
                            )
                        }
                    },
                }
            },
        }
    }
}

impl IHDRChunk {
    /// The filter engine's neighbor stride in bytes.
    pub fn filter_width(&self) -> (r: u8)
        ensures
            r == filter_width_spec(*self),
    {
        let channel_count = self.color_type.channel_count();
        let sample_width = if self.bit_depth / 8 >= 1 {
            self.bit_depth / 8
        } else {
            1
        };
        proof {
            assert(channel_count_spec(self.color_type) * (self.bit_depth as int / 8) <= 4 * 31)
                by (nonlinear_arith)
                requires
                    channel_count_spec(self.color_type) <= 4,
                    0 <= self.bit_depth as int / 8 <= 31,
            ;
        }
        channel_count * sample_width
    }

    /// Bits per pixel.
    pub fn pixel_width(&self) -> (r: u8)
        requires
            pixel_width_spec(*self) <= u8::MAX,
        ensures
            r == pixel_width_spec(*self),
    {
        self.color_type.channel_count() * self.bit_depth
    }

    /// Parse the 13-byte IHDR payload.
    pub fn from_bytes(p: &Vec<u8>) -> (r: Result<IHDRChunk, DecodeError>)
        ensures
            r == ihdr_from_bytes_spec(p@),
    {
        if p.len() != 13 {
            return Err(DecodeError::ChunkFramingError);
        }
        let ct = match ColorType::from_u8(p[9]) {
            Some(ct) => ct,
            Option::None => {
                return Err(DecodeError::UnsupportedHeaderValue);
            },
        };
        let il = match Interlacing::from_u8(p[12]) {
            Some(il) => il,
            Option::None => {
                return Err(DecodeError::UnsupportedHeaderValue);
            },
        };
        let d = p[8];
        let depth_ok = match ct {
            ColorType::Greyscale => d == 1 || d == 2 || d == 4 || d == 8 || d == 16,
            ColorType::Truecolor => d == 8 || d == 16,
            ColorType::IndexedColor => d == 1 || d == 2 || d == 4 || d == 8,
            ColorType::GreyscaleWithAlpha => d == 8 || d == 16,
            ColorType::TruecolorWithAlpha => d == 8 || d == 16,
        };
        if !depth_ok {
            return Err(DecodeError::UnsupportedHeaderValue);
        }
        if p[10] != 0 || p[11] != 0 {
            return Err(DecodeError::UnsupportedHeaderValue);
        }
        Ok(
            IHDRChunk {
                width: read_be32(p, 0),
                height: read_be32(p, 4),
                bit_depth: d,
                color_type: ct,
                compression_method: p[10],
                filter_method: p[11],
                interlace_method: il,
            },
        )
    }

    /// Serialize this header as a complete IHDR chunk.
    pub fn to_bytes(&self) -> (r: Vec<u8>)
        ensures
            r@ == ihdr_chunk_bytes(*self),
    {
        let mut payload: Vec<u8> = Vec::new();
        push_be32(&mut payload, self.width);
        push_be32(&mut payload, self.height);
        payload.push(self.bit_depth);
        payload.push(self.color_type.to_u8());
        payload.push(self.compression_method);
        payload.push(self.filter_method);
        payload.push(self.interlace_method.to_u8());
        proof {
            assert(payload@ =~= ihdr_payload_spec(*self));
        }
        encode_chunk(0x49, 0x48, 0x44, 0x52, &payload)
    }
}

/// One palette entry: red, green and blue at 8 bits each.
#[derive(Debug, Clone, Copy, PartialEq, Eq, Structural)]
pub struct Entry(pub u8, pub u8, pub u8);

/// The palette payload: each entry's three bytes in order.
pub open spec fn plte_payload_spec(colors: Seq<Entry>) -> Seq<u8> {
    Seq::new(
        (colors.len() * 3) as nat,
        |i: int|
            if i % 3 == 0 {
                colors[i / 3].0
            } else if i % 3 == 1 {
                colors[i / 3].1
            } else {
                colors[i / 3].2
            },
    )
}

/// What parsing a PLTE payload yields: the entries, or a framing failure
/// when the length is not a multiple of 3 or exceeds 256 entries.
pub open spec fn plte_from_bytes_spec(p: Seq<u8>) -> Result<Seq<Entry>, DecodeError> {
    if p.len() % 3 != 0 || p.len() > 768 {
        Err(DecodeError::ChunkFramingError)
    } else {
        Ok(Seq::new(p.len() / 3, |i: int| Entry(p[3 * i], p[3 * i + 1], p[3 * i + 2])))
    }
}

/// The image's palette: an ordered table of at most 256 RGB entries that
/// indexed-color pixels refer to.
#[derive(Debug, Clone)]
pub struct PLTEChunk {
    colors: Vec<Entry>,
}

impl View for PLTEChunk {
    type V = Seq<Entry>;

    closed spec fn view(&self) -> Seq<Entry> {
        self.colors@
    }
}

impl PLTEChunk {
    /// The entry at a palette index, if the palette is that large.
    pub fn get_color(&self, index: u8) -> (r: Option<Entry>)
        ensures
            (index as int) < self@.len() ==> r == Some(self@[index as int]),
            (index as int) >= self@.len() ==> r is None,
    {
        if (index as usize) < self.colors.len() {
            Some(self.colors[index as usize])
        } else {
            Option::None
        }
    }

    /// How many entries the palette holds.
    pub fn len(&self) -> (r: usize)
        ensures
            r == self@.len(),
    {
        self.colors.len()
    }

    /// Parse a PLTE payload into its entries.
    pub fn from_bytes(p: &Vec<u8>) -> (r: Result<PLTEChunk, DecodeError>)
        ensures
            match r {
                Ok(c) => plte_from_bytes_spec(p@) == Ok::<Seq<Entry>, DecodeError>(c@),
                Err(e) => plte_from_bytes_spec(p@) == Err::<Seq<Entry>, DecodeError>(e),
            },
    {
        let n = p.len();
        if n % 3 != 0 || n > 768 {
            return Err(DecodeError::ChunkFramingError);
        }
        let count = n / 3;
        let mut colors: Vec<Entry> = Vec::new();
        let mut i: usize = 0;
        while i < count
            invariant
                i <= count,
                count == p@.len() / 3,
                p@.len() == 3 * count,
                p@.len() <= 768,
                colors@.len() == i,
                forall|k: int|
                    0 <= k < i ==> colors@[k] == Entry(p@[3 * k], p@[3 * k + 1], p@[3 * k + 2]),
            decreases count - i,
        {
            colors.push(Entry(p[3 * i], p[3 * i + 1], p[3 * i + 2]));
            i = i + 1;
        }
        let r = PLTEChunk { colors };
        proof {
            assert(plte_from_bytes_spec(p@) matches Ok(s) && s =~= r@);
        }
        Ok(r)
    }

    /// Serialize this palette as a complete PLTE chunk.
    pub fn to_bytes(&self) -> (r: Vec<u8>)
        requires
            self@.len() <= 256,
        ensures
            r@ == chunk_bytes_spec(plte_type_bytes(), plte_payload_spec(self@)),
    {
        let mut payload: Vec<u8> = Vec::new();
        let mut i: usize = 0;
        while i < self.colors.len()
            invariant
                i <= self@.len(),
                self@.len() <= 256,
                payload@.len() == 3 * i,
                forall|k: int|
                    0 <= k < payload@.len() ==> payload@[k] == plte_payload_spec(self@)[k],
            decreases self@.len() - i,
        {
            let Entry(a, b, c) = self.colors[i];
            payload.push(a);
            payload.push(b);
            payload.push(c);
            proof {
                assert forall|k: int| 0 <= k < payload@.len() implies payload@[k]
                    == plte_payload_spec(self@)[k] by {
                    if k >= 3 * i {
                        assert(k / 3 == i && (k == 3 * i ==> k % 3 == 0) && (k == 3 * i + 1 ==> k
                            % 3 == 1) && (k == 3 * i + 2 ==> k % 3 == 2)) by (nonlinear_arith)
                            requires
                                3 * i <= k < 3 * i + 3,
                                0 <= i,
                        ;
                    }
                }
            }
            i = i + 1;
        }
        proof {
            assert(payload@ =~= plte_payload_spec(self@));
        }
        encode_chunk(0x50, 0x4c, 0x54, 0x45, &payload)
    }
}

/// The transparency table: a single grey sample, an RGB triple, or one
/// alpha byte per palette index, depending on the color type.
#[derive(Debug, Clone)]
pub struct tRNSChunk {
    data: Vec<u8>,
}

impl View for tRNSChunk {
    type V = Seq<u8>;

    closed spec fn view(&self) -> Seq<u8> {
        self.data@
    }
}

impl tRNSChunk {
    /// Wrap a tRNS payload; any byte string is representable.
    pub fn from_bytes(data: Vec<u8>) -> (r: tRNSChunk)
        ensures
            r@ == data@,
    {
        tRNSChunk { data }
    }

    /// The transparent grey sample, for greyscale images.
    pub fn as_greyscale(&self) -> (r: u16)
        requires
            self@.len() >= 2,
        ensures
            r == be16_of(self@[0], self@[1]),
    {
        let _n = self.data.len();
        ((self.data[0] as u16) << 8) | (self.data[1] as u16)
    }

    /// The transparent RGB sample triple, for truecolor images.
    pub fn as_truecolor(&self) -> (r: (u16, u16, u16))
        requires
            self@.len() >= 6,
        ensures
            r.0 == be16_of(self@[0], self@[1]),
            r.1 == be16_of(self@[2], self@[3]),
            r.2 == be16_of(self@[4], self@[5]),
    {
        let _n = self.data.len();
        (
            ((self.data[0] as u16) << 8) | (self.data[1] as u16),
            ((self.data[2] as u16) << 8) | (self.data[3] as u16),
            ((self.data[4] as u16) << 8) | (self.data[5] as u16),
        )
    }

    /// The alpha byte of a palette index; indices beyond the table are
    /// fully opaque.
    pub fn as_palette(&self, index: u8) -> (r: u8)
        ensures
            r == trns_palette_alpha(self@, index),
    {
        if (index as usize) < self.data.len() {
            self.data[index as usize]
        } else {
            255
        }
    }

    /// How many bytes the table holds.
    pub fn len(&self) -> (r: usize)
        ensures
            r == self@.len(),
    {
        self.data.len()
    }

    /// Serialize this table as a complete tRNS chunk.
    pub fn to_bytes(&self) -> (r: Vec<u8>)
        requires
            self@.len() < 0x100000000,
        ensures
            r@ == chunk_bytes_spec(trns_type_bytes(), self@),
    {
        encode_chunk(0x74, 0x52, 0x4e, 0x53, &self.data)
    }
}

/// The alpha value a tRNS table assigns to a palette index: the byte at
/// that index, or fully opaque past the end of the table.
pub open spec fn trns_palette_alpha(t: Seq<u8>, index: u8) -> u8 {
    if (index as int) < t.len() {
        t[index as int]
    } else {
        255
    }
}

/// The physical pixel density chunk: pixels per unit on each axis and the
/// unit code.  It is preserved for round-trips and does not affect pixel
/// geometry.
#[allow(non_camel_case_types)]
#[derive(Debug, Clone, Copy, PartialEq, Eq, Structural)]
pub struct pHYsChunk {
    /// Pixels per unit along the horizontal axis.
    pub x_axis_ppu: u32,
    /// Pixels per unit along the vertical axis.
    pub y_axis_ppu: u32,
    /// The unit code; 1 means meters, 0 an unspecified unit.
    pub unit_specifier: u8,
}

/// The 9 payload bytes of a pHYs chunk.
pub open spec fn phys_payload_spec(c: pHYsChunk) -> Seq<u8> {
    be32_bytes(c.x_axis_ppu) + be32_bytes(c.y_axis_ppu) + seq![c.unit_specifier]
}

/// What parsing a pHYs payload yields; the payload must be exactly 9 bytes.
pub open spec fn phys_from_bytes_spec(p: Seq<u8>) -> Result<pHYsChunk, DecodeError> {
    if p.len() != 9 {
        Err(DecodeError::ChunkFramingError)
    } else {
        Ok(
            pHYsChunk {
                x_axis_ppu: be32_of(p[0], p[1], p[2], p[3]),
                y_axis_ppu: be32_of(p[4], p[5], p[6], p[7]),
                unit_specifier: p[8],
            },
        )
    }
}

impl pHYsChunk {
    /// Parse the 9-byte pHYs payload.
    pub fn from_bytes(p: &Vec<u8>) -> (r: Result<pHYsChunk, DecodeError>)
        ensures
            r == phys_from_bytes_spec(p@),
    {
        if p.len() != 9 {
            return Err(DecodeError::ChunkFramingError);
        }
        Ok(
            pHYsChunk {
                x_axis_ppu: read_be32(p, 0),
                y_axis_ppu: read_be32(p, 4),
                unit_specifier: p[8],
            },
        )
    }

    /// Serialize this density as a complete pHYs chunk.
    pub fn to_bytes(&self) -> (r: Vec<u8>)
        ensures
            r@ == chunk_bytes_spec(phys_type_bytes(), phys_payload_spec(*self)),
    {
        let mut payload: Vec<u8> = Vec::new();
        push_be32(&mut payload, self.x_axis_ppu);
        push_be32(&mut payload, self.y_axis_ppu);
        payload.push(self.unit_specifier);
        proof {
            assert(payload@ =~= phys_payload_spec(*self));
        }
        encode_chunk(0x70, 0x48, 0x59, 0x73, &payload)
    }
}

/// One image-data chunk: an opaque slice of the compressed stream.
#[derive(Debug, Clone)]
pub struct IDATChunk {
    /// This chunk's slice of the zlib stream.
    pub data: Vec<u8>,
}

impl IDATChunk {
    /// Wrap an IDAT payload; any byte string is representable.
    pub fn from_bytes(data: Vec<u8>) -> (r: IDATChunk)
        ensures
            r.data@ == data@,
    {
        IDATChunk { data }
    }

    /// Serialize this slice as a complete IDAT chunk.
    pub fn to_bytes(&self) -> (r: Vec<u8>)
        requires
            self.data@.len() < 0x100000000,
        ensures
            r@ == chunk_bytes_spec(idat_type_bytes(), self.data@),
    {
        encode_chunk(0x49, 0x44, 0x41, 0x54, &self.data)
    }
}

/// The stream terminator chunk; its payload is always empty.
#[derive(Debug, Clone, Copy, PartialEq, Eq, Structural)]
pub struct IENDChunk;

impl IENDChunk {
    /// Serialize the 12-byte IEND chunk.
    pub fn to_bytes(&self) -> (r: Vec<u8>)
        ensures
            r@ == chunk_bytes_spec(iend_type_bytes(), Seq::<u8>::empty()),
    {
        let payload: Vec<u8> = Vec::new();
        let r = encode_chunk(0x49, 0x45, 0x4e, 0x44, &payload);
        proof {
            assert(payload@ =~= Seq::<u8>::empty());
        }
        r
    }
}

/// A chunk of a type this library does not interpret, preserved
/// byte-for-byte and replayed unmodified on re-encode.
#[derive(Debug, Clone)]
pub struct RawChunk {
    chunk_type: Vec<u8>,
    chunk_data: Vec<u8>,
}

impl RawChunk {
    /// The 4-byte type tag.
    pub closed spec fn type_seq(self) -> Seq<u8> {
        self.chunk_type@
    }

    /// The payload bytes.
    pub closed spec fn data_seq(self) -> Seq<u8> {
        self.chunk_data@
    }

    /// The type tag is 4 bytes and the payload fits the length field.
    pub open spec fn wf(self) -> bool {
        self.type_seq().len() == 4 && self.data_seq().len() < 0x100000000
    }

    /// Wrap a preserved chunk's type tag and payload.
    pub fn new(chunk_type: Vec<u8>, chunk_data: Vec<u8>) -> (r: RawChunk)
        requires
            chunk_type@.len() == 4,
        ensures
            r.type_seq() == chunk_type@,
            r.data_seq() == chunk_data@,
    {
        RawChunk { chunk_type, chunk_data }
    }

    /// Serialize this chunk back exactly as it came.
    pub fn to_bytes(&self) -> (r: Vec<u8>)
        requires
            self.wf(),
        ensures
            r@ == chunk_bytes_spec(self.type_seq(), self.data_seq()),
    {
        let t0 = self.chunk_type[0];
        let t1 = self.chunk_type[1];
        let t2 = self.chunk_type[2];
        let t3 = self.chunk_type[3];
        let r = encode_chunk(t0, t1, t2, t3, &self.chunk_data);
        proof {
            assert(seq![t0, t1, t2, t3] =~= self.type_seq());
        }
        r
    }
}

/// The mathematical content of one parsed chunk.
pub enum ChunkModel {
    /// A parsed image header.
    Ihdr(IHDRChunk),
    /// A parsed palette.
    Plte(Seq<Entry>),
    /// A parsed pixel-density chunk.
    Phys(pHYsChunk),
    /// One slice of the compressed stream.
    Idat(Seq<u8>),
    /// A transparency table.
    Trns(Seq<u8>),
    /// The stream terminator.
    Iend,
    /// An unrecognized chunk: its type tag and payload.
    Other(Seq<u8>, Seq<u8>),
}

/// One chunk of the closed set this library recognizes, or an opaque
/// preserved chunk.
#[allow(non_camel_case_types)]
#[derive(Debug, Clone)]
pub enum Chunk {
    /// The image header.
    IHDR(IHDRChunk),
    /// The palette.
    PLTE(PLTEChunk),
    /// The pixel density.
    pHYs(pHYsChunk),
    /// One slice of the compressed stream.
    IDAT(IDATChunk),
    /// The transparency table.
    tRNS(tRNSChunk),
    /// The stream terminator.
    IEND,
    /// Anything else, preserved byte-for-byte.
    Unknown(RawChunk),
}

impl View for Chunk {
    type V = ChunkModel;

    open spec fn view(&self) -> ChunkModel {
        match self {
            Chunk::IHDR(h) => ChunkModel::Ihdr(*h),
            Chunk::PLTE(p) => ChunkModel::Plte(p@),
            Chunk::pHYs(p) => ChunkModel::Phys(*p),
            Chunk::IDAT(d) => ChunkModel::Idat(d.data@),
            Chunk::tRNS(t) => ChunkModel::Trns(t@),
            Chunk::IEND => ChunkModel::Iend,
            Chunk::Unknown(rc) => ChunkModel::Other(rc.type_seq(), rc.data_seq()),
        }
    }
}

/// Whether a chunk's content fits the wire format's length fields.
pub open spec fn chunk_model_wf(m: ChunkModel) -> bool {
    match m {
        ChunkModel::Ihdr(_) => true,
        ChunkModel::Plte(cs) => cs.len() <= 256,
        ChunkModel::Phys(_) => true,
        ChunkModel::Idat(d) => d.len() < 0x100000000,
        ChunkModel::Trns(t) => t.len() < 0x100000000,
        ChunkModel::Iend => true,
        ChunkModel::Other(t, d) => t.len() == 4 && d.len() < 0x100000000,
    }
}

/// The serialized bytes of one chunk.
pub open spec fn chunk_model_bytes(m: ChunkModel) -> Seq<u8>
    recommends
        chunk_model_wf(m),
{
    match m {
        ChunkModel::Ihdr(h) => ihdr_chunk_bytes(h),
        ChunkModel::Plte(cs) => chunk_bytes_spec(plte_type_bytes(), plte_payload_spec(cs)),
        ChunkModel::Phys(p) => chunk_bytes_spec(phys_type_bytes(), phys_payload_spec(p)),
        ChunkModel::Idat(d) => chunk_bytes_spec(idat_type_bytes(), d),
        ChunkModel::Trns(t) => chunk_bytes_spec(trns_type_bytes(), t),
        ChunkModel::Iend => chunk_bytes_spec(iend_type_bytes(), Seq::<u8>::empty()),
        ChunkModel::Other(t, d) => chunk_bytes_spec(t, d),
    }
}

impl Chunk {
    /// Serialize this chunk, whichever kind it is.
    pub fn to_bytes(&self) -> (r: Vec<u8>)
        requires
            chunk_model_wf(self@),
        ensures
            r@ == chunk_model_bytes(self@),
    {
        match self {
            Chunk::IHDR(h) => h.to_bytes(),
            Chunk::PLTE(p) => p.to_bytes(),
            Chunk::pHYs(p) => p.to_bytes(),
            Chunk::IDAT(d) => d.to_bytes(),
            Chunk::tRNS(t) => t.to_bytes(),
            Chunk::IEND => IENDChunk.to_bytes(),
            Chunk::Unknown(rc) => rc.to_bytes(),
        }
    }
}

/// What parsing one chunk at `pos` yields: the chunk's model and the
/// position just past it, or the failure the bytes provoke.  The framing
/// needs a length field, a 4-byte type, the payload and a CRC to fit in
/// the remaining input; the CRC stored after the payload must equal the
/// checksum of type and payload; and a recognized type's payload must
/// parse.  An IEND payload must be empty.
pub open spec fn parse_chunk_spec(s: Seq<u8>, pos: int) -> Result<(ChunkModel, int), DecodeError>
    recommends
        0 <= pos <= s.len(),
{
    if pos + 8 > s.len() {
        Err(DecodeError::ChunkFramingError)
    } else {
        let l = be32_of(s[pos], s[pos + 1], s[pos + 2], s[pos + 3]) as int;
        if pos + 12 + l > s.len() {
            Err(DecodeError::ChunkFramingError)
        } else {
            let ctype = s.subrange(pos + 4, pos + 8);
            let payload = s.subrange(pos + 8, pos + 8 + l);
            let stored = be32_of(s[pos + 8 + l], s[pos + 9 + l], s[pos + 10 + l], s[pos + 11 + l]);
            if stored != crc32_spec(ctype + payload) {
                Err(DecodeError::CrcMismatch)
            } else {
                let np = pos + 12 + l;
                if ctype == ihdr_type_bytes() {
                    match ihdr_from_bytes_spec(payload) {
                        Ok(h) => Ok((ChunkModel::Ihdr(h), np)),
                        Err(e) => Err(e),
                    }
                } else if ctype == plte_type_bytes() {
                    match plte_from_bytes_spec(payload) {
                        Ok(cs) => Ok((ChunkModel::Plte(cs), np)),
                        Err(e) => Err(e),
                    }
                } else if ctype == phys_type_bytes() {
                    match phys_from_bytes_spec(payload) {
                        Ok(p) => Ok((ChunkModel::Phys(p), np)),
                        Err(e) => Err(e),
                    }
                } else if ctype == idat_type_bytes() {
                    Ok((ChunkModel::Idat(payload), np))
                } else if ctype == trns_type_bytes() {
                    Ok((ChunkModel::Trns(payload), np))
                } else if ctype == iend_type_bytes() {
                    if l == 0 {
                        Ok((ChunkModel::Iend, np))
                    } else {
                        Err(DecodeError::ChunkFramingError)
                    }
                } else {
                    Ok((ChunkModel::Other(ctype, payload), np))
                }
            }
        }
    }
}

/// Parse the chunk starting at `pos`.
pub fn parse_chunk(s: &Vec<u8>, pos: usize) -> (r: Result<(Chunk, usize), DecodeError>)
    requires
        pos <= s@.len(),
    ensures
        match r {
            Ok(cp) => {
                &&& parse_chunk_spec(s@, pos as int) matches Ok(m)
                &&& cp.0@ == m.0
                &&& cp.1 as int == m.1
                &&& pos + 12 <= cp.1 <= s@.len()
            },
            Err(e) => parse_chunk_spec(s@, pos as int) == Err::<(ChunkModel, int), DecodeError>(e),
        },
{
    let n = s.len();
    if n - pos < 8 {
        return Err(DecodeError::ChunkFramingError);
    }
    let l32 = read_be32(s, pos);
    if (l32 as u64) + 12 > (n - pos) as u64 {
        return Err(DecodeError::ChunkFramingError);
    }
    let l = l32 as usize;
    let ctype = copy_range(s, pos + 4, pos + 8);
    let payload = copy_range(s, pos + 8, pos + 8 + l);
    let body = copy_range(s, pos + 4, pos + 8 + l);
    proof {
        assert(body@ =~= ctype@ + payload@);
    }
    let crc = calculate_crc(&body);
    let stored = read_be32(s, pos + 8 + l);
    if stored != crc {
        return Err(DecodeError::CrcMismatch);
    }
    let np = pos + 12 + l;
    let t0 = s[pos + 4];
    let t1 = s[pos + 5];
    let t2 = s[pos + 6];
    let t3 = s[pos + 7];
    proof {
        assert(ctype@ =~= seq![t0, t1, t2, t3]);
    }
    if t0 == 0x49 && t1 == 0x48 && t2 == 0x44 && t3 == 0x52 {
        proof {
            assert(ctype@ =~= ihdr_type_bytes());
        }
        match IHDRChunk::from_bytes(&payload) {
            Ok(h) => Ok((Chunk::IHDR(h), np)),
            Err(e) => Err(e),
        }
    } else if t0 == 0x50 && t1 == 0x4c && t2 == 0x54 && t3 == 0x45 {
        proof {
            assert(ctype@ =~= plte_type_bytes());
        }
        match PLTEChunk::from_bytes(&payload) {
            Ok(p) => Ok((Chunk::PLTE(p), np)),
            Err(e) => Err(e),
        }
    } else if t0 == 0x70 && t1 == 0x48 && t2 == 0x59 && t3 == 0x73 {
        proof {
            assert(ctype@ =~= phys_type_bytes());
        }
        match pHYsChunk::from_bytes(&payload) {
            Ok(p) => Ok((Chunk::pHYs(p), np)),
            Err(e) => Err(e),
        }
    } else if t0 == 0x49 && t1 == 0x44 && t2 == 0x41 && t3 == 0x54 {
        proof {
            assert(ctype@ =~= idat_type_bytes());
        }
        Ok((Chunk::IDAT(IDATChunk::from_bytes(payload)), np))
    } else if t0 == 0x74 && t1 == 0x52 && t2 == 0x4e && t3 == 0x53 {
        proof {
            assert(ctype@ =~= trns_type_bytes());
        }
        Ok((Chunk::tRNS(tRNSChunk::from_bytes(payload)), np))
    } else if t0 == 0x49 && t1 == 0x45 && t2 == 0x4e && t3 == 0x44 {
        proof {
            assert(ctype@ =~= iend_type_bytes());
        }
        if l == 0 {
            Ok((Chunk::IEND, np))
        } else {
            Err(DecodeError::ChunkFramingError)
        }
    } else {
        proof {
            assert(ctype@ != ihdr_type_bytes() && ctype@ != plte_type_bytes() && ctype@
                != phys_type_bytes() && ctype@ != idat_type_bytes() && ctype@ != trns_type_bytes()
                && ctype@ != iend_type_bytes()) by {
                assert(ctype@[0] == t0 && ctype@[1] == t1 && ctype@[2] == t2 && ctype@[3] == t3);
            }
        }
        Ok((Chunk::Unknown(RawChunk::new(ctype, payload)), np))
    }
}

/// CRC sensitivity at the chunk layer: corrupting any single byte of a
/// well-formed chunk's type tag or payload, in any one or more of its
/// bits, makes parsing that chunk fail with a CRC mismatch.  Flipping a
/// single bit is the special case where the two streams differ in one bit
/// of one byte.
pub proof fn lemma_chunk_corruption_detected(s1: Seq<u8>, s2: Seq<u8>, pos: int, i: int)
    requires
        0 <= pos,
        s1.len() == s2.len(),
        parse_chunk_spec(s1, pos) is Ok,
        pos + 4 <= i < pos + 8 + be32_of(s1[pos], s1[pos + 1], s1[pos + 2], s1[pos + 3]),
        s1[i] != s2[i],
        forall|j: int| 0 <= j < s1.len() && j != i ==> s1[j] == s2[j],
    ensures
        parse_chunk_spec(s2, pos) == Err::<(ChunkModel, int), DecodeError>(
            DecodeError::CrcMismatch,
        ),
{
    let l = be32_of(s1[pos], s1[pos + 1], s1[pos + 2], s1[pos + 3]) as int;
    assert(pos + 8 <= s1.len() && pos + 12 + l <= s1.len());
    assert(s2[pos] == s1[pos] && s2[pos + 1] == s1[pos + 1] && s2[pos + 2] == s1[pos + 2] && s2[pos
        + 3] == s1[pos + 3]);
    let t1 = s1.subrange(pos + 4, pos + 8);
    let p1 = s1.subrange(pos + 8, pos + 8 + l);
    let t2 = s2.subrange(pos + 4, pos + 8);
    let p2 = s2.subrange(pos + 8, pos + 8 + l);
    let b1 = t1 + p1;
    let b2 = t2 + p2;
    let k = i - (pos + 4);
    assert(b1.len() == 4 + l && b2.len() == 4 + l);
    assert(forall|j: int| 0 <= j < 4 + l ==> b1[j] == s1[pos + 4 + j] && b2[j] == s2[pos + 4 + j]);
    assert(b1[k] != b2[k]);
    assert(forall|j: int| 0 <= j < 4 + l && j != k ==> b1[j] == b2[j]);
    lemma_crc_single_change(b1, b2, k);
    let stored1 = be32_of(s1[pos + 8 + l], s1[pos + 9 + l], s1[pos + 10 + l], s1[pos + 11 + l]);
    let stored2 = be32_of(s2[pos + 8 + l], s2[pos + 9 + l], s2[pos + 10 + l], s2[pos + 11 + l]);
    assert(stored1 == stored2);
    assert(stored1 == crc32_spec(b1));
    assert(stored2 != crc32_spec(b2));
}

/// Parsing the 13 bytes `to_bytes` writes for a header recovers exactly
/// that header, whenever the header is one the parser admits.
pub proof fn lemma_ihdr_payload_round_trip(h: IHDRChunk)
    requires
        valid_bit_depth_spec(h.color_type, h.bit_depth),
        h.compression_method == 0,
        h.filter_method == 0,
    ensures
        ihdr_from_bytes_spec(ihdr_payload_spec(h)) == Ok::<IHDRChunk, DecodeError>(h),
{
    let p = ihdr_payload_spec(h);
    assert(p.len() == 13);
    crate::bytes::lemma_be32_round_trip(h.width, 0, 0, 0, 0);
    crate::bytes::lemma_be32_round_trip(h.height, 0, 0, 0, 0);
    assert(p[0] == be32_bytes(h.width)[0] && p[1] == be32_bytes(h.width)[1] && p[2] == be32_bytes(
        h.width,
    )[2] && p[3] == be32_bytes(h.width)[3]);
    assert(p[4] == be32_bytes(h.height)[0] && p[5] == be32_bytes(h.height)[1] && p[6]
        == be32_bytes(h.height)[2] && p[7] == be32_bytes(h.height)[3]);
    assert(p[8] == h.bit_depth);
    assert(p[9] == color_type_to_u8_spec(h.color_type));
    assert(p[10] == 0 && p[11] == 0);
    assert(p[12] == interlacing_to_u8_spec(h.interlace_method));
    assert(color_type_from_u8_spec(color_type_to_u8_spec(h.color_type)) == Some(h.color_type));
    assert(interlacing_from_u8_spec(interlacing_to_u8_spec(h.interlace_method)) == Some(
        h.interlace_method,
    ));
    assert(be32_of(p[0], p[1], p[2], p[3]) == h.width);
    assert(be32_of(p[4], p[5], p[6], p[7]) == h.height);
}

/// Parsing the 9 bytes `to_bytes` writes for a pixel-density chunk
/// recovers exactly that chunk.
pub proof fn lemma_phys_payload_round_trip(c: pHYsChunk)
    ensures
        phys_from_bytes_spec(phys_payload_spec(c)) == Ok::<pHYsChunk, DecodeError>(c),
{
    let p = phys_payload_spec(c);
    assert(p.len() == 9);
    crate::bytes::lemma_be32_round_trip(c.x_axis_ppu, 0, 0, 0, 0);
    crate::bytes::lemma_be32_round_trip(c.y_axis_ppu, 0, 0, 0, 0);
    assert(p[0] == be32_bytes(c.x_axis_ppu)[0] && p[1] == be32_bytes(c.x_axis_ppu)[1] && p[2]
        == be32_bytes(c.x_axis_ppu)[2] && p[3] == be32_bytes(c.x_axis_ppu)[3]);
    assert(p[4] == be32_bytes(c.y_axis_ppu)[0] && p[5] == be32_bytes(c.y_axis_ppu)[1] && p[6]
        == be32_bytes(c.y_axis_ppu)[2] && p[7] == be32_bytes(c.y_axis_ppu)[3]);
    assert(p[8] == c.unit_specifier);
    assert(be32_of(p[0], p[1], p[2], p[3]) == c.x_axis_ppu);
    assert(be32_of(p[4], p[5], p[6], p[7]) == c.y_axis_ppu);
}

/// Reading back a serialized chunk envelope at `pos` finds the length,
/// type tag, payload and a matching CRC exactly as they were written.
pub proof fn lemma_parse_encoded_chunk(s: Seq<u8>, pos: int, ctype: Seq<u8>, payload: Seq<u8>)
    requires
        0 <= pos,
        ctype.len() == 4,
        payload.len() < 0x100000000,
        pos + 12 + payload.len() <= s.len(),
        forall|j: int|
            0 <= j < 12 + payload.len() ==> s[pos + j] == chunk_bytes_spec(ctype, payload)[j],
    ensures
        be32_of(s[pos], s[pos + 1], s[pos + 2], s[pos + 3]) == payload.len(),
        s.subrange(pos + 4, pos + 8) == ctype,
        s.subrange(pos + 8, pos + 8 + payload.len()) == payload,
        be32_of(
            s[pos + 8 + payload.len()],
            s[pos + 9 + payload.len()],
            s[pos + 10 + payload.len()],
            s[pos + 11 + payload.len()],
        ) == crc32_spec(ctype + payload),
{
    let cb = chunk_bytes_spec(ctype, payload);
    let l = payload.len() as int;
    let lv = payload.len() as u32;
    let crc = crc32_spec(ctype + payload);
    assert(cb.len() == 12 + l);
    crate::bytes::lemma_be32_round_trip(lv, 0, 0, 0, 0);
    crate::bytes::lemma_be32_round_trip(crc, 0, 0, 0, 0);
    assert(cb[0] == be32_bytes(lv)[0] && cb[1] == be32_bytes(lv)[1] && cb[2] == be32_bytes(lv)[2]
        && cb[3] == be32_bytes(lv)[3]);
    assert(be32_of(s[pos], s[pos + 1], s[pos + 2], s[pos + 3]) == lv);
    assert(s.subrange(pos + 4, pos + 8) =~= ctype) by {
        assert(forall|j: int| 0 <= j < 4 ==> cb[4 + j] == ctype[j]);
    }
    assert(s.subrange(pos + 8, pos + 8 + l) =~= payload) by {
        assert(forall|j: int| 0 <= j < l ==> cb[8 + j] == payload[j]);
    }
    assert(cb[8 + l] == be32_bytes(crc)[0] && cb[9 + l] == be32_bytes(crc)[1] && cb[10 + l]
        == be32_bytes(crc)[2] && cb[11 + l] == be32_bytes(crc)[3]);
    assert(be32_of(s[pos + 8 + l], s[pos + 9 + l], s[pos + 10 + l], s[pos + 11 + l]) == crc);
}

/// Parsing a chunk reads only the bytes of that chunk: two streams that
/// agree on the chunk's window parse identically at its position.
pub proof fn lemma_parse_chunk_window(s1: Seq<u8>, s2: Seq<u8>, pos: int)
    requires
        0 <= pos <= s1.len(),
        s1.len() == s2.len(),
        parse_chunk_spec(s1, pos) is Ok,
        forall|j: int|
            pos <= j < pos + 12 + be32_of(s1[pos], s1[pos + 1], s1[pos + 2], s1[pos + 3])
                ==> s1[j] == s2[j],
    ensures
        parse_chunk_spec(s2, pos) == parse_chunk_spec(s1, pos),
{
    let l = be32_of(s1[pos], s1[pos + 1], s1[pos + 2], s1[pos + 3]) as int;
    assert(pos + 8 <= s1.len() && pos + 12 + l <= s1.len());
    assert(s2[pos] == s1[pos] && s2[pos + 1] == s1[pos + 1] && s2[pos + 2] == s1[pos + 2] && s2[pos
        + 3] == s1[pos + 3]);
    assert(s1.subrange(pos + 4, pos + 8) =~= s2.subrange(pos + 4, pos + 8));
    assert(s1.subrange(pos + 8, pos + 8 + l) =~= s2.subrange(pos + 8, pos + 8 + l));
    assert(s2[pos + 8 + l] == s1[pos + 8 + l] && s2[pos + 9 + l] == s1[pos + 9 + l] && s2[pos + 10
        + l] == s1[pos + 10 + l] && s2[pos + 11 + l] == s1[pos + 11 + l]);
}

} // verus!
