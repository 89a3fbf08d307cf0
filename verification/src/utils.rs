//! Small arithmetic helpers shared by the scanline and interlacing code.

use vstd::prelude::*;

verus! {

/// `lhs / rhs`, rounded towards positive infinity.
pub open spec fn spec_div_ceil(lhs: int, rhs: int) -> int
    recommends
        rhs > 0,
{
    if lhs % rhs > 0 {
        lhs / rhs + 1
    } else {
        lhs / rhs
    }
}

/// Division rounding up: the number of chunks of `rhs` needed to cover `lhs`.
pub fn div_ceil(lhs: usize, rhs: usize) -> (r: usize)
    requires
        rhs > 0,
    ensures
        r == spec_div_ceil(lhs as int, rhs as int),
{
    let d = lhs / rhs;
    let r = lhs % rhs;
    if r > 0 {
        proof {
            assert(rhs >= 2) by {
                if rhs == 1 {
                    assert(lhs as int % 1int == 0);
                }
            };
            assert(lhs as int / rhs as int <= lhs as int / 2) by (nonlinear_arith)
                requires
                    rhs >= 2,
                    lhs >= 0,
            ;
        }
        d + 1
    } else {
        d
    }
}

} // verus!

verus! {

/// The stored size of one scanline in bytes: the pixel bits rounded up to
/// whole bytes, plus the leading filter-type tag byte.
pub open spec fn scanline_width_spec(image_width: int, pixel_width: int) -> int {
    spec_div_ceil(image_width * pixel_width, 8) + 1
}

/// The stored size of one scanline for a row of `image_width` pixels of
/// `pixel_width` bits each.
pub fn calculate_scanline_width(image_width: u32, pixel_width: u8) -> (r: usize)
    requires
        scanline_width_spec(image_width as int, pixel_width as int) <= usize::MAX,
    ensures
        r == scanline_width_spec(image_width as int, pixel_width as int),
{
    proof {
        assert((image_width as int) * (pixel_width as int) < 0x10000000000) by (nonlinear_arith)
            requires
                image_width <= u32::MAX,
                pixel_width <= u8::MAX,
        ;
        assert((image_width as int) * (pixel_width as int) >= 0) by (nonlinear_arith)
            requires
                image_width >= 0,
                pixel_width >= 0,
        ;
    }
    let bits: u64 = image_width as u64 * pixel_width as u64;
    let bytes: u64 = bits / 8 + if bits % 8 > 0 {
        1
    } else {
        0
    };
    (bytes + 1) as usize
}

} // verus!
