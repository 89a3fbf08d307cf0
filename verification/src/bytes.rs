//! Big-endian encoding and decoding of the multi-byte integers that appear
//! in chunk headers and pixel samples.

use vstd::prelude::*;

verus! {

/// The four big-endian bytes of a 32-bit value.
pub open spec fn be32_bytes(v: u32) -> Seq<u8> {
    seq![
        (v >> 24) as u8,
        ((v >> 16) & 0xff) as u8,
        ((v >> 8) & 0xff) as u8,
        (v & 0xff) as u8,
    ]
}

/// The 32-bit value four big-endian bytes hold.
pub open spec fn be32_of(b0: u8, b1: u8, b2: u8, b3: u8) -> u32 {
    ((b0 as u32) << 24) | ((b1 as u32) << 16) | ((b2 as u32) << 8) | (b3 as u32)
}

/// The two big-endian bytes of a 16-bit value.
pub open spec fn be16_bytes(v: u16) -> Seq<u8> {
    seq![(v >> 8) as u8, (v & 0xff) as u8]
}

/// The 16-bit value two big-endian bytes hold.
pub open spec fn be16_of(b0: u8, b1: u8) -> u16 {
    ((b0 as u16) << 8) | (b1 as u16)
}

/// Encoding a 32-bit value big-endian and reading it back is the identity,
/// in both directions.
pub proof fn lemma_be32_round_trip(v: u32, b0: u8, b1: u8, b2: u8, b3: u8)
    ensures
        be32_of(
            (v >> 24) as u8,
            ((v >> 16) & 0xff) as u8,
            ((v >> 8) & 0xff) as u8,
            (v & 0xff) as u8,
        ) == v,
        (be32_of(b0, b1, b2, b3) >> 24) as u8 == b0,
        ((be32_of(b0, b1, b2, b3) >> 16) & 0xff) as u8 == b1,
        ((be32_of(b0, b1, b2, b3) >> 8) & 0xff) as u8 == b2,
        (be32_of(b0, b1, b2, b3) & 0xff) as u8 == b3,
{
    assert(((((b0 as u32) << 24) | ((b1 as u32) << 16) | ((b2 as u32) << 8) | (b3 as u32)) >> 24)
        as u8 == b0) by (bit_vector);
    assert((((((b0 as u32) << 24) | ((b1 as u32) << 16) | ((b2 as u32) << 8) | (b3 as u32)) >> 16)
        & 0xff) as u8 == b1) by (bit_vector);
    assert((((((b0 as u32) << 24) | ((b1 as u32) << 16) | ((b2 as u32) << 8) | (b3 as u32)) >> 8)
        & 0xff) as u8 == b2) by (bit_vector);
    assert(((((b0 as u32) << 24) | ((b1 as u32) << 16) | ((b2 as u32) << 8) | (b3 as u32)) & 0xff)
        as u8 == b3) by (bit_vector);
    assert((((v >> 24) as u8) as u32) << 24 | ((((v >> 16) & 0xff) as u8) as u32) << 16 | ((((v
        >> 8) & 0xff) as u8) as u32) << 8 | (((v & 0xff) as u8) as u32) == v) by (bit_vector);
}

/// Encoding a 16-bit value big-endian and reading it back is the identity,
/// in both directions.
pub proof fn lemma_be16_round_trip(v: u16, b0: u8, b1: u8)
    ensures
        be16_of((v >> 8) as u8, (v & 0xff) as u8) == v,
        (be16_of(b0, b1) >> 8) as u8 == b0,
        (be16_of(b0, b1) & 0xff) as u8 == b1,
{
    assert(((((b0 as u16) << 8) | (b1 as u16)) >> 8) as u8 == b0) by (bit_vector);
    assert(((((b0 as u16) << 8) | (b1 as u16)) & 0xff) as u8 == b1) by (bit_vector);
    assert(((((v >> 8) as u8) as u16) << 8) | (((v & 0xff) as u8) as u16) == v) by (bit_vector);
}

/// Append the four big-endian bytes of `x`.
pub fn push_be32(out: &mut Vec<u8>, x: u32)
    ensures
        final(out)@ == old(out)@ + be32_bytes(x),
{
    let ghost pre = out@;
    out.push((x >> 24) as u8);
    out.push(((x >> 16) & 0xff) as u8);
    out.push(((x >> 8) & 0xff) as u8);
    out.push((x & 0xff) as u8);
    proof {
        assert(out@ =~= pre + be32_bytes(x));
    }
}

/// Append the two big-endian bytes of `x`.
pub fn push_be16(out: &mut Vec<u8>, x: u16)
    ensures
        final(out)@ == old(out)@ + be16_bytes(x),
{
    let ghost pre = out@;
    out.push((x >> 8) as u8);
    out.push((x & 0xff) as u8);
    proof {
        assert(out@ =~= pre + be16_bytes(x));
    }
}

/// Read the 32-bit big-endian value at `pos`.
pub fn read_be32(data: &Vec<u8>, pos: usize) -> (r: u32)
    requires
        pos + 4 <= data@.len(),
    ensures
        r == be32_of(data@[pos as int], data@[pos + 1], data@[pos + 2], data@[pos + 3]),
{
    let _n = data.len();
    ((data[pos] as u32) << 24) | ((data[pos + 1] as u32) << 16) | ((data[pos + 2] as u32) << 8) | (
    data[pos + 3] as u32)
}

/// Read the 16-bit big-endian value at `pos`.
pub fn read_be16(data: &Vec<u8>, pos: usize) -> (r: u16)
    requires
        pos + 2 <= data@.len(),
    ensures
        r == be16_of(data@[pos as int], data@[pos + 1]),
{
    let _n = data.len();
    ((data[pos] as u16) << 8) | (data[pos + 1] as u16)
}

/// Copy the bytes of `data` from `start` (inclusive) to `end` (exclusive).
pub fn copy_range(data: &Vec<u8>, start: usize, end: usize) -> (r: Vec<u8>)
    requires
        start <= end <= data@.len(),
    ensures
        r@ == data@.subrange(start as int, end as int),
{
    let mut out: Vec<u8> = Vec::new();
    let mut k: usize = start;
    while k < end
        invariant
            start <= k <= end <= data@.len(),
            out@ == data@.subrange(start as int, k as int),
        decreases end - k,
    {
        out.push(data[k]);
        proof {
            assert(data@.subrange(start as int, k + 1) =~= data@.subrange(start as int, k as int)
                + seq![data@[k as int]]);
        }
        k = k + 1;
    }
    out
}

/// Append every byte of `src` to `out`.
pub fn append_bytes(out: &mut Vec<u8>, src: &Vec<u8>)
    ensures
        final(out)@ == old(out)@ + src@,
{
    let ghost pre = out@;
    let mut k: usize = 0;
    while k < src.len()
        invariant
            k <= src@.len(),
            out@ == pre + src@.take(k as int),
        decreases src@.len() - k,
    {
        out.push(src[k]);
        proof {
            assert(src@.take(k + 1) =~= src@.take(k as int) + seq![src@[k as int]]);
            assert(out@ =~= pre + src@.take(k + 1));
        }
        k = k + 1;
    }
    proof {
        assert(src@.take(src@.len() as int) =~= src@);
    }
}

} // verus!
