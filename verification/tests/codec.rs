use miniz_oxide::deflate::compress_to_vec_zlib;
use simple_png::chunks::encode_chunk;
use simple_png::errors::DecodeError;
use simple_png::pixel::scale;
use simple_png::{Pixel, PNG};

fn signature() -> Vec<u8> {
    vec![0x89, 0x50, 0x4e, 0x47, 0x0d, 0x0a, 0x1a, 0x0a]
}

fn ihdr_payload(
    width: u32,
    height: u32,
    bit_depth: u8,
    color_type: u8,
    interlace: u8,
) -> Vec<u8> {
    let mut p = Vec::new();
    p.extend_from_slice(&width.to_be_bytes());
    p.extend_from_slice(&height.to_be_bytes());
    p.push(bit_depth);
    p.push(color_type);
    p.push(0);
    p.push(0);
    p.push(interlace);
    p
}

fn iend_chunk() -> Vec<u8> {
    encode_chunk(0x49, 0x45, 0x4e, 0x44, &Vec::new())
}

#[test]
fn test_round_trip() {
    let pixels = vec![
        Pixel::new(0, 0, 0, u16::MAX),
        Pixel::new(u16::MAX, u16::MAX, u16::MAX, u16::MAX),
        Pixel::new(u16::MAX, u16::MAX, u16::MAX, u16::MAX),
        Pixel::new(0, 0, 0, u16::MAX),
    ];
    let data = PNG::new(2, 2, pixels.clone()).encode();
    let p = PNG::decode(&data).unwrap();
    assert_eq!(pixels, p.pixels);
}

#[test]
fn encode_checked_agrees_with_encode() {
    let pixels = vec![Pixel::new(1, 2, 3, 4); 9];
    let image = PNG::new(3, 3, pixels);
    let direct = image.encode();
    let checked = image.encode_checked().unwrap();
    assert_eq!(direct, checked);
}

#[test]
fn decode_rejects_bad_signature() {
    let mut bytes = signature();
    bytes[0] = 0x88;
    bytes.extend(iend_chunk());
    assert!(matches!(PNG::decode(&bytes), Err(DecodeError::SignatureMismatch)));
}

#[test]
fn decode_rejects_truncated_chunk() {
    let mut bytes = signature();
    bytes.extend_from_slice(&[0, 0, 0, 13, 0x49]);
    assert!(matches!(PNG::decode(&bytes), Err(DecodeError::ChunkFramingError)));
}

#[test]
fn decode_rejects_unknown_color_type() {
    // Scenario: an IHDR that declares color type 7 fails cleanly.
    let mut bytes = signature();
    bytes.extend(encode_chunk(
        0x49,
        0x48,
        0x44,
        0x52,
        &ihdr_payload(1, 1, 8, 7, 0),
    ));
    bytes.extend(iend_chunk());
    assert!(matches!(PNG::decode(&bytes), Err(DecodeError::UnsupportedHeaderValue)));
}

#[test]
fn decode_rejects_out_of_range_palette_index() {
    // Scenario: an indexed-color pixel referencing entry 200 of a 10-entry
    // palette fails with MissingPalette rather than returning garbage.
    let mut bytes = signature();
    bytes.extend(encode_chunk(
        0x49,
        0x48,
        0x44,
        0x52,
        &ihdr_payload(1, 1, 8, 3, 0),
    ));
    let mut plte = Vec::new();
    for i in 0..10u8 {
        plte.push(i);
        plte.push(i);
        plte.push(i);
    }
    bytes.extend(encode_chunk(0x50, 0x4c, 0x54, 0x45, &plte));
    let idat = compress_to_vec_zlib(&[0u8, 200u8], 8);
    bytes.extend(encode_chunk(0x49, 0x44, 0x41, 0x54, &idat));
    bytes.extend(iend_chunk());
    assert!(matches!(PNG::decode(&bytes), Err(DecodeError::MissingPalette)));
}

#[test]
fn decode_rejects_missing_palette() {
    let mut bytes = signature();
    bytes.extend(encode_chunk(
        0x49,
        0x48,
        0x44,
        0x52,
        &ihdr_payload(1, 1, 8, 3, 0),
    ));
    let idat = compress_to_vec_zlib(&[0u8, 0u8], 8);
    bytes.extend(encode_chunk(0x49, 0x44, 0x41, 0x54, &idat));
    bytes.extend(iend_chunk());
    assert!(matches!(PNG::decode(&bytes), Err(DecodeError::MissingPalette)));
}

#[test]
fn decode_detects_single_bit_corruption() {
    // Flipping one bit inside a chunk's type or payload trips the CRC.
    let pixels = vec![Pixel::new(17, 34, 51, 68); 4];
    let good = PNG::new(2, 2, pixels).encode();
    // Flip one bit in the first byte of the IHDR chunk's type tag.
    for bit in 0..8 {
        let mut bad = good.clone();
        bad[8 + 4] ^= 1 << bit;
        assert!(matches!(PNG::decode(&bad), Err(DecodeError::CrcMismatch)));
    }
    // Flip one bit in the IHDR payload (the width field).
    let mut bad = good.clone();
    bad[8 + 8] ^= 0x40;
    assert!(matches!(PNG::decode(&bad), Err(DecodeError::CrcMismatch)));
}

#[test]
fn decode_rejects_corrupt_stream() {
    let mut bytes = signature();
    bytes.extend(encode_chunk(
        0x49,
        0x48,
        0x44,
        0x52,
        &ihdr_payload(1, 1, 8, 0, 0),
    ));
    bytes.extend(encode_chunk(0x49, 0x44, 0x41, 0x54, &vec![1, 2, 3, 4]));
    bytes.extend(iend_chunk());
    assert!(matches!(PNG::decode(&bytes), Err(DecodeError::DecompressionError)));
}

#[test]
fn decode_greyscale_one_bit() {
    // A 2x1 image at bit depth 1: a white pixel then a black pixel, packed
    // into the two highest bits of one byte.
    let mut bytes = signature();
    bytes.extend(encode_chunk(
        0x49,
        0x48,
        0x44,
        0x52,
        &ihdr_payload(2, 1, 1, 0, 0),
    ));
    let idat = compress_to_vec_zlib(&[0u8, 0b1000_0000u8], 8);
    bytes.extend(encode_chunk(0x49, 0x44, 0x41, 0x54, &idat));
    bytes.extend(iend_chunk());
    let image = PNG::decode(&bytes).unwrap();
    assert_eq!(image.pixels[0], Pixel::new(65535, 65535, 65535, 65535));
    assert_eq!(image.pixels[1], Pixel::new(0, 0, 0, 65535));
}

#[test]
fn decode_greyscale_transparency() {
    // A 1x1 8-bit greyscale image whose sample matches the tRNS value.
    let mut bytes = signature();
    bytes.extend(encode_chunk(
        0x49,
        0x48,
        0x44,
        0x52,
        &ihdr_payload(1, 1, 8, 0, 0),
    ));
    bytes.extend(encode_chunk(0x74, 0x52, 0x4e, 0x53, &vec![0, 77]));
    let idat = compress_to_vec_zlib(&[0u8, 77u8], 8);
    bytes.extend(encode_chunk(0x49, 0x44, 0x41, 0x54, &idat));
    bytes.extend(iend_chunk());
    let image = PNG::decode(&bytes).unwrap();
    assert_eq!(image.pixels[0], Pixel::new(77 * 257, 77 * 257, 77 * 257, 0));
}

#[test]
fn decode_interlaced_single_pixel() {
    // A 1x1 Adam7 image: only the first pass is non-empty and holds the
    // single pixel.
    let mut bytes = signature();
    bytes.extend(encode_chunk(
        0x49,
        0x48,
        0x44,
        0x52,
        &ihdr_payload(1, 1, 8, 0, 1),
    ));
    let idat = compress_to_vec_zlib(&[0u8, 77u8], 8);
    bytes.extend(encode_chunk(0x49, 0x44, 0x41, 0x54, &idat));
    bytes.extend(iend_chunk());
    let image = PNG::decode(&bytes).unwrap();
    assert_eq!(
        image.pixels[0],
        Pixel::new(77 * 257, 77 * 257, 77 * 257, 65535)
    );
}

#[test]
fn round_trip_preserves_unknown_chunks() {
    let pixels = vec![Pixel::new(5, 6, 7, 8); 4];
    let mut bytes = signature();
    bytes.extend(encode_chunk(
        0x49,
        0x48,
        0x44,
        0x52,
        &ihdr_payload(2, 2, 16, 6, 0),
    ));
    // A pHYs chunk and a private chunk, both preserved for replay.
    let mut phys = Vec::new();
    phys.extend_from_slice(&2835u32.to_be_bytes());
    phys.extend_from_slice(&2835u32.to_be_bytes());
    phys.push(1);
    bytes.extend(encode_chunk(0x70, 0x48, 0x59, 0x73, &phys));
    bytes.extend(encode_chunk(0x74, 0x65, 0x53, 0x74, &vec![1, 2, 3]));
    let mut raw = Vec::new();
    for row in pixels.chunks(2) {
        raw.push(0);
        for p in row {
            raw.extend_from_slice(&p.red.to_be_bytes());
            raw.extend_from_slice(&p.green.to_be_bytes());
            raw.extend_from_slice(&p.blue.to_be_bytes());
            raw.extend_from_slice(&p.alpha.to_be_bytes());
        }
    }
    let idat = compress_to_vec_zlib(&raw, 8);
    bytes.extend(encode_chunk(0x49, 0x44, 0x41, 0x54, &idat));
    bytes.extend(iend_chunk());
    let image = PNG::decode(&bytes).unwrap();
    assert_eq!(image.pixels, pixels);
    assert_eq!(image.extra_chunks.len(), 2);
    let again = PNG::decode(&image.encode()).unwrap();
    assert_eq!(again.pixels, pixels);
    assert_eq!(again.extra_chunks.len(), 2);
}

#[test]
fn scaling_is_exact() {
    for d in [1u8, 2, 4, 8] {
        assert_eq!(scale(0, d), 0);
        assert_eq!(scale((1u16 << d) - 1, d), 65535);
    }
    assert_eq!(scale(12345, 16), 12345);
    assert_eq!(scale(1, 8), 257);
    assert_eq!(scale(2, 4), 2 * 4369);
}
