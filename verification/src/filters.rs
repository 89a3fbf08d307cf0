//! The per-scanline predictive filter engine: five filter algorithms over
//! bytes with wraparound arithmetic, plus the in-place scanline passes used
//! by encode (always Sub) and decode (any filter type per scanline).

use crate::chunks::{channel_count_spec, filter_width_spec, pixel_width_spec, IHDRChunk, Interlacing};
use crate::interlacing::{pass_height_spec, pass_width_spec, Adam7Iter};
use crate::utils::{calculate_scanline_width, scanline_width_spec};
use vstd::arithmetic::div_mod::{lemma_fundamental_div_mod, lemma_fundamental_div_mod_converse};
use vstd::prelude::*;

verus! {

/// The filter type tag stored as the first byte of each scanline.
#[derive(Debug, Clone, Copy, PartialEq, Eq, Structural)]
pub enum Filter {
    /// Tag 0: the byte is stored raw.
    NoFilter,
    /// Tag 1: the byte is stored minus its left neighbor.
    Sub,
    /// Tag 2: the byte is stored minus the byte above it.
    Up,
    /// Tag 3: the byte is stored minus the average of left and above.
    Average,
    /// Tag 4: the byte is stored minus the Paeth predictor.
    Paeth,
}

/// Subtraction modulo 256.
pub open spec fn sub256(x: u8, y: u8) -> u8 {
    if x >= y {
        (x - y) as u8
    } else {
        (x - y + 256) as u8
    }
}

/// Addition modulo 256.
pub open spec fn add256(x: u8, y: u8) -> u8 {
    if x + y > 255 {
        (x + y - 256) as u8
    } else {
        (x + y) as u8
    }
}

/// Absolute value.
pub open spec fn iabs(x: int) -> int {
    if x < 0 {
        -x
    } else {
        x
    }
}

/// The classic Paeth predictor: start from `a + b - c` and pick whichever of
/// `a`, `b`, `c` is closest, ties broken in the order `a`, `b`, `c`.
pub open spec fn paeth_spec(a: u8, b: u8, c: u8) -> u8 {
    let p = a + b - c;
    let pa = iabs(p - a);
    let pb = iabs(p - b);
    let pc = iabs(p - c);
    if pa <= pb && pa <= pc {
        a
    } else if pb <= pc {
        b
    } else {
        c
    }
}

/// What each filter type predicts a byte to be, from its neighbors
/// `a` (left), `b` (above) and `c` (above left).
pub open spec fn predictor_spec(f: Filter, a: u8, b: u8, c: u8) -> u8 {
    match f {
        Filter::NoFilter => 0,
        Filter::Sub => a,
        Filter::Up => b,
        Filter::Average => ((a + b) / 2) as u8,
        Filter::Paeth => paeth_spec(a, b, c),
    }
}

/// Filtering one byte: the raw value minus the prediction, modulo 256.
pub open spec fn filter_byte_spec(f: Filter, x: u8, a: u8, b: u8, c: u8) -> u8 {
    sub256(x, predictor_spec(f, a, b, c))
}

/// Reconstructing one byte: the stored value plus the prediction, modulo 256.
pub open spec fn reconstruct_byte_spec(f: Filter, x: u8, a: u8, b: u8, c: u8) -> u8 {
    add256(x, predictor_spec(f, a, b, c))
}

/// The filter type a tag byte names, if any.
pub open spec fn filter_from_u8_spec(v: u8) -> Option<Filter> {
    if v == 0 {
        Some(Filter::NoFilter)
    } else if v == 1 {
        Some(Filter::Sub)
    } else if v == 2 {
        Some(Filter::Up)
    } else if v == 3 {
        Some(Filter::Average)
    } else if v == 4 {
        Some(Filter::Paeth)
    } else {
        Option::None
    }
}

impl Filter {
    /// Decode a tag byte; tags 5 and up are unknown.
    pub fn from_u8(v: u8) -> (r: Option<Filter>)
        ensures
            r == filter_from_u8_spec(v),
    {
        match v {
            0 => Some(Filter::NoFilter),
            1 => Some(Filter::Sub),
            2 => Some(Filter::Up),
            3 => Some(Filter::Average),
            4 => Some(Filter::Paeth),
            _ => Option::None,
        }
    }

    /// The tag byte for this filter type.
    pub fn to_u8(&self) -> (r: u8)
        ensures
            filter_from_u8_spec(r) == Some(*self),
    {
        match self {
            Filter::NoFilter => 0,
            Filter::Sub => 1,
            Filter::Up => 2,
            Filter::Average => 3,
            Filter::Paeth => 4,
        }
    }

    /// Filter one byte against its neighbors.
    pub fn filter(&self, x: u8, a: u8, b: u8, c: u8) -> (r: u8)
        ensures
            r == filter_byte_spec(*self, x, a, b, c),
    {
        match self {
            Filter::NoFilter => x,
            Filter::Sub => x.wrapping_sub(a),
            Filter::Up => x.wrapping_sub(b),
            Filter::Average => {
                let aw = a as u16;
                let bw = b as u16;
                x.wrapping_sub(((aw + bw) / 2) as u8)
            },
            Filter::Paeth => x.wrapping_sub(paeth_predictor(a, b, c)),
        }
    }

    /// Reconstruct one byte against its already-reconstructed neighbors.
    pub fn reconstruct(&self, x: u8, a: u8, b: u8, c: u8) -> (r: u8)
        ensures
            r == reconstruct_byte_spec(*self, x, a, b, c),
    {
        match self {
            Filter::NoFilter => x,
            Filter::Sub => x.wrapping_add(a),
            Filter::Up => x.wrapping_add(b),
            Filter::Average => {
                let aw = a as u16;
                let bw = b as u16;
                x.wrapping_add(((aw + bw) / 2) as u8)
            },
            Filter::Paeth => x.wrapping_add(paeth_predictor(a, b, c)),
        }
    }
}

/// The Paeth predictor over bytes.
pub fn paeth_predictor(a: u8, b: u8, c: u8) -> (r: u8)
    ensures
        r == paeth_spec(a, b, c),
{
    let p: i32 = a as i32 + b as i32 - c as i32;
    let pa: i32 = if p >= a as i32 {
        p - a as i32
    } else {
        a as i32 - p
    };
    let pb: i32 = if p >= b as i32 {
        p - b as i32
    } else {
        b as i32 - p
    };
    let pc: i32 = if p >= c as i32 {
        p - c as i32
    } else {
        c as i32 - p
    };
    if pa <= pb && pa <= pc {
        a
    } else if pb <= pc {
        b
    } else {
        c
    }
}

/// Reconstructing a filtered byte gives the raw byte back, and filtering a
/// reconstructed byte gives the stored byte back, for every filter type and
/// every choice of neighbors.
pub proof fn lemma_filter_byte_round_trip(f: Filter, x: u8, a: u8, b: u8, c: u8)
    ensures
        reconstruct_byte_spec(f, filter_byte_spec(f, x, a, b, c), a, b, c) == x,
        filter_byte_spec(f, reconstruct_byte_spec(f, x, a, b, c), a, b, c) == x,
{
}

/// Reconstruction of the byte a tag names; an unknown tag leaves the byte
/// as it is.
pub open spec fn recon_tag(ft: u8, x: u8, a: u8, b: u8, c: u8) -> u8 {
    match filter_from_u8_spec(ft) {
        Some(f) => reconstruct_byte_spec(f, x, a, b, c),
        Option::None => x,
    }
}

/// The byte at offset `off` of scanline `r` after the filtering pass, for a
/// region of scanlines of `line_len` bytes each starting at `start`.  The
/// pass writes the tag Sub at offset 0 and subtracts the left neighbor
/// (`width` bytes back, zero for the leading bytes) everywhere else.
pub open spec fn filt_rc(data: Seq<u8>, start: int, line_len: int, width: int, r: int, off: int) -> u8 {
    let base = start + r * line_len;
    if off == 0 {
        1u8
    } else if off > width {
        sub256(data[base + off], data[base + off - width])
    } else {
        data[base + off]
    }
}

/// The byte at offset `off` of scanline `r` after the reconstruction pass.
/// A tag byte (offset 0) is left as it is; any other byte is reconstructed
/// from its stored value and its already-reconstructed neighbors: `a` to the
/// left in the same scanline, `b` at the same offset one scanline up, `c` to
/// the left one scanline up, each zero where no such neighbor exists.
pub open spec fn recon_rc(data: Seq<u8>, start: int, line_len: int, width: int, r: int, off: int) -> u8
    decreases r, off,
        when 0 <= r && 0 <= off && 1 <= width
{
    let base = start + r * line_len;
    if off == 0 {
        data[base]
    } else {
        let ft = data[base];
        let a = if off > width {
            recon_rc(data, start, line_len, width, r, off - width)
        } else {
            0u8
        };
        let b = if r > 0 {
            recon_rc(data, start, line_len, width, r - 1, off)
        } else {
            0u8
        };
        let c = if r > 0 && off > width {
            recon_rc(data, start, line_len, width, r - 1, off - width)
        } else {
            0u8
        };
        recon_tag(ft, data[base + off], a, b, c)
    }
}

/// Distinct (scanline, offset) pairs name distinct buffer positions.
proof fn lemma_pos_unique(line_len: int, r1: int, off1: int, r2: int, off2: int)
    requires
        0 <= off1 < line_len,
        0 <= off2 < line_len,
        0 <= r1,
        0 <= r2,
        r1 * line_len + off1 == r2 * line_len + off2,
    ensures
        r1 == r2 && off1 == off2,
{
    assert(r1 == r2 && off1 == off2) by (nonlinear_arith)
        requires
            0 <= off1 < line_len,
            0 <= off2 < line_len,
            r1 * line_len + off1 == r2 * line_len + off2,
    ;
}

/// A cell in an earlier scanline sits strictly before the later region.
proof fn lemma_cell_bound(rr: int, off: int, rbound: int, ll: int)
    requires
        0 <= rr < rbound,
        0 <= off < ll,
    ensures
        0 <= rr * ll + off < rbound * ll,
{
    assert(0 <= rr * ll + off < rbound * ll) by (nonlinear_arith)
        requires
            0 <= rr < rbound,
            0 <= off < ll,
    ;
}

/// A scanline's bytes stay inside the region.
proof fn lemma_row_bound(r: int, count: int, line_len: int)
    requires
        0 <= r < count,
        1 <= line_len,
    ensures
        r * line_len + line_len <= count * line_len,
        0 <= r * line_len,
{
    assert(r * line_len + line_len <= count * line_len && 0 <= r * line_len)
        by (nonlinear_arith)
        requires
            0 <= r < count,
            1 <= line_len,
    ;
}

/// Filter `line_count` scanlines of `line_len` bytes each, in place,
/// starting at `start`.  Every scanline is filtered with Sub against the
/// raw data and its tag byte is set to Sub; the number of bytes covered is
/// returned.
pub fn inner_filter_scanlines(
    data: &mut Vec<u8>,
    start: usize,
    scanline_length: usize,
    line_count: usize,
    filter_width: usize,
) -> (r: usize)
    requires
        1 <= scanline_length,
        1 <= filter_width,
        start + scanline_length * line_count <= old(data)@.len(),
    ensures
        r == scanline_length * line_count,
        final(data)@.len() == old(data)@.len(),
        forall|rr: int, off: int|
            0 <= rr < line_count && 0 <= off < scanline_length ==> final(data)@[start
                + rr * scanline_length + off] == filt_rc(
                old(data)@,
                start as int,
                scanline_length as int,
                filter_width as int,
                rr,
                off,
            ),
        forall|p: int|
            0 <= p < old(data)@.len() && !(start <= p < start + scanline_length * line_count)
                ==> final(data)@[p] == old(data)@[p],
{
    let total_len = data.len();
    let ghost orig = data@;
    let ghost ll = scanline_length as int;
    let ghost w = filter_width as int;
    let mut r: usize = 0;
    while r < line_count
        invariant
            r <= line_count,
            1 <= scanline_length,
            1 <= filter_width,
            start + scanline_length * line_count <= orig.len(),
            data@.len() == orig.len(),
            orig.len() == total_len as int,
            ll == scanline_length as int,
            w == filter_width as int,
            forall|rr: int, off: int|
                0 <= rr < r && 0 <= off < ll ==> data@[start + rr * ll + off] == filt_rc(
                    orig,
                    start as int,
                    ll,
                    w,
                    rr,
                    off,
                ),
            forall|p: int|
                0 <= p < orig.len() && !(start <= p < start + (r as int) * ll) ==> data@[p]
                    == orig[p],
        decreases line_count - r,
    {
        proof {
            lemma_row_bound(r as int, line_count as int, ll);
            assert(start + (r as int) * ll + ll <= orig.len()) by (nonlinear_arith)
                requires
                    0 <= r < line_count,
                    1 <= ll,
                    ll == scanline_length as int,
                    start + scanline_length * line_count <= orig.len(),
            ;
        }
        let base = start + r * scanline_length;
        // Work right to left so each subtraction still reads raw bytes.
        let mut j: usize = scanline_length;
        while j > 0 && j - 1 > filter_width
            invariant
                1 <= scanline_length,
                1 <= filter_width,
                start + scanline_length * line_count <= orig.len(),
                data@.len() == orig.len(),
                orig.len() == total_len as int,
                ll == scanline_length as int,
                w == filter_width as int,
                r < line_count,
                base == start + r * scanline_length,
                base + scanline_length <= orig.len(),
                j <= scanline_length,
                j >= 1 || scanline_length == 0,
                forall|rr: int, off: int|
                    0 <= rr < r && 0 <= off < ll ==> data@[start + rr * ll + off] == filt_rc(
                        orig,
                        start as int,
                        ll,
                        w,
                        rr,
                        off,
                    ),
                forall|off: int|
                    j <= off < ll ==> data@[base + off] == filt_rc(
                        orig,
                        start as int,
                        ll,
                        w,
                        r as int,
                        off,
                    ),
                forall|p: int|
                    0 <= p < orig.len() && !(start <= p < start + (r as int) * ll + ll) ==> data@[p]
                        == orig[p],
                forall|p: int| base <= p < base + j && p < orig.len() ==> data@[p] == orig[p],
            decreases j,
        {
            j = j - 1;
            let x = data[base + j];
            let a = data[base + j - filter_width];
            let v = x.wrapping_sub(a);
            proof {
                assert(filt_rc(orig, start as int, ll, w, r as int, j as int) == sub256(
                    orig[base + j],
                    orig[base + j - w],
                ));
            }
            let ghost pre = data@;
            data[base + j] = v;
            proof {
                assert(data@ == pre.update(base + j as int, v));
                assert forall|rr: int, off: int|
                    0 <= rr < r && 0 <= off < ll implies data@[start + rr * ll + off] == filt_rc(
                    orig,
                    start as int,
                    ll,
                    w,
                    rr,
                    off,
                ) by {
                    let pos = start + rr * ll + off;
                    lemma_cell_bound(rr, off, r as int, ll);
                    assert(start + (r as int) * ll == base);
                    assert(pos < base);
                    assert(data@[pos] == pre[pos]);
                    assert(pre[pos] == filt_rc(orig, start as int, ll, w, rr, off));
                }
            }
        }
        // Leading bytes have no left neighbor and stay raw; the tag becomes Sub.
        let ghost pre2 = data@;
        data[base] = 1;
        proof {
            assert(data@ == pre2.update(base as int, 1u8));
            assert forall|rr: int, off: int|
                0 <= rr < r + 1 && 0 <= off < ll implies data@[start + rr * ll + off] == filt_rc(
                orig,
                start as int,
                ll,
                w,
                rr,
                off,
            ) by {
                let pos = start + rr * ll + off;
                lemma_cell_bound(rr, off, r as int + 1, ll);
                assert((r as int + 1) * ll == (r as int) * ll + ll) by (nonlinear_arith);
                assert(pos < base + ll);
                if rr < r {
                    lemma_cell_bound(rr, off, r as int, ll);
                    assert(pos < base);
                    assert(data@[pos] == pre2[pos]);
                    assert(pre2[pos] == filt_rc(orig, start as int, ll, w, rr, off));
                } else {
                    if off == 0 {
                        assert(pos == base);
                        assert(data@[pos] == 1);
                    } else {
                        assert(pos != base);
                        assert(data@[pos] == pre2[pos]);
                    }
                }
            }
            assert((r as int + 1) * ll == (r as int) * ll + ll) by (nonlinear_arith);
        }
        r = r + 1;
    }
    proof {
        assert(start + (line_count as int) * ll <= orig.len()) by (nonlinear_arith)
            requires
                ll == scanline_length as int,
                start + scanline_length * line_count <= orig.len(),
        ;
    }
    scanline_length * line_count
}

/// Reconstruct `line_count` filtered scanlines of `line_len` bytes each, in
/// place, starting at `start`.  Each scanline is reconstructed according to
/// its own tag byte; a tag 5 or up leaves the scanline's bytes raw, as tag 0
/// does.  The number of bytes covered is returned.
pub fn inner_reconstruct_scanlines(
    data: &mut Vec<u8>,
    start: usize,
    scanline_length: usize,
    line_count: usize,
    filter_width: usize,
) -> (r: usize)
    requires
        1 <= scanline_length,
        1 <= filter_width,
        start + scanline_length * line_count <= old(data)@.len(),
    ensures
        r == scanline_length * line_count,
        final(data)@.len() == old(data)@.len(),
        forall|rr: int, off: int|
            0 <= rr < line_count && 0 <= off < scanline_length ==> final(data)@[start
                + rr * scanline_length + off] == recon_rc(
                old(data)@,
                start as int,
                scanline_length as int,
                filter_width as int,
                rr,
                off,
            ),
        forall|p: int|
            0 <= p < old(data)@.len() && !(start <= p < start + scanline_length * line_count)
                ==> final(data)@[p] == old(data)@[p],
{
    let total_len = data.len();
    let ghost orig = data@;
    let ghost ll = scanline_length as int;
    let ghost w = filter_width as int;
    let mut r: usize = 0;
    while r < line_count
        invariant
            r <= line_count,
            1 <= scanline_length,
            1 <= filter_width,
            start + scanline_length * line_count <= orig.len(),
            data@.len() == orig.len(),
            orig.len() == total_len as int,
            ll == scanline_length as int,
            w == filter_width as int,
            forall|rr: int, off: int|
                0 <= rr < r && 0 <= off < ll ==> data@[start + rr * ll + off] == recon_rc(
                    orig,
                    start as int,
                    ll,
                    w,
                    rr,
                    off,
                ),
            forall|p: int|
                0 <= p < orig.len() && !(start <= p < start + (r as int) * ll) ==> data@[p]
                    == orig[p],
        decreases line_count - r,
    {
        proof {
            lemma_row_bound(r as int, line_count as int, ll);
            assert(start + (r as int) * ll + ll <= orig.len()) by (nonlinear_arith)
                requires
                    0 <= r < line_count,
                    1 <= ll,
                    ll == scanline_length as int,
                    start + scanline_length * line_count <= orig.len(),
            ;
        }
        let base = start + r * scanline_length;
        let ft = match Filter::from_u8(data[base]) {
            Some(f) => f,
            Option::None => Filter::NoFilter,
        };
        let mut j: usize = 1;
        while j < scanline_length
            invariant
                1 <= scanline_length,
                1 <= filter_width,
                start + scanline_length * line_count <= orig.len(),
                data@.len() == orig.len(),
                orig.len() == total_len as int,
                ll == scanline_length as int,
                w == filter_width as int,
                r < line_count,
                base == start + r * scanline_length,
                base + scanline_length <= orig.len(),
                1 <= j <= scanline_length,
                forall|x: u8, a: u8, b: u8, c: u8|
                    recon_tag(orig[base as int], x, a, b, c) == reconstruct_byte_spec(ft, x, a, b, c),
                forall|rr: int, off: int|
                    0 <= rr < r && 0 <= off < ll ==> data@[start + rr * ll + off] == recon_rc(
                        orig,
                        start as int,
                        ll,
                        w,
                        rr,
                        off,
                    ),
                forall|off: int|
                    0 <= off < j ==> data@[base + off] == recon_rc(
                        orig,
                        start as int,
                        ll,
                        w,
                        r as int,
                        off,
                    ),
                forall|p: int|
                    0 <= p < orig.len() && !(start <= p < start + (r as int) * ll + j) ==> data@[p]
                        == orig[p],
            decreases scanline_length - j,
        {
            proof {
                if r > 0 {
                    assert(ll <= (r as int) * ll) by (nonlinear_arith)
                        requires
                            1 <= r,
                            1 <= ll,
                    ;
                    assert(start + (r as int - 1) * ll == base - ll) by (nonlinear_arith)
                        requires
                            base == start + (r as int) * ll,
                    ;
                }
            }
            let x = data[base + j];
            let a = if j > filter_width {
                data[base + j - filter_width]
            } else {
                0
            };
            let b = if r > 0 {
                data[base + j - scanline_length]
            } else {
                0
            };
            let c = if r > 0 && j > filter_width {
                data[base + j - filter_width - scanline_length]
            } else {
                0
            };
            proof {
                if r > 0 {
                    assert(data@[start + (r as int - 1) * ll + j] == recon_rc(
                        orig,
                        start as int,
                        ll,
                        w,
                        r as int - 1,
                        j as int,
                    ));
                    if j > filter_width {
                        assert(data@[start + (r as int - 1) * ll + (j - w)] == recon_rc(
                            orig,
                            start as int,
                            ll,
                            w,
                            r as int - 1,
                            j - w,
                        ));
                    }
                }
                if j > filter_width {
                    assert(data@[base + (j - w)] == recon_rc(
                        orig,
                        start as int,
                        ll,
                        w,
                        r as int,
                        j - w,
                    ));
                }
                assert(data@[base + j] == orig[base + j]);
            }
            let v = ft.reconstruct(x, a, b, c);
            let ghost pre = data@;
            data[base + j] = v;
            proof {
                assert(data@ == pre.update(base + j as int, v));
                assert(v == recon_rc(orig, start as int, ll, w, r as int, j as int));
                assert forall|rr: int, off: int|
                    0 <= rr < r && 0 <= off < ll implies data@[start + rr * ll + off] == recon_rc(
                    orig,
                    start as int,
                    ll,
                    w,
                    rr,
                    off,
                ) by {
                    let pos = start + rr * ll + off;
                    lemma_cell_bound(rr, off, r as int, ll);
                    assert(pos < base);
                    assert(data@[pos] == pre[pos]);
                }
            }
            j = j + 1;
        }
        proof {
            assert((r as int + 1) * ll == (r as int) * ll + ll) by (nonlinear_arith);
        }
        r = r + 1;
    }
    proof {
        assert(start + (line_count as int) * ll <= orig.len()) by (nonlinear_arith)
            requires
                ll == scanline_length as int,
                start + scanline_length * line_count <= orig.len(),
        ;
    }
    scanline_length * line_count
}

/// The whole buffer after the filtering pass over a region of `count`
/// scanlines of `line_len` bytes starting at `start`; bytes outside the
/// region are untouched.
pub open spec fn filt_region(data: Seq<u8>, start: int, line_len: int, width: int, count: int) -> Seq<u8> {
    Seq::new(
        data.len(),
        |p: int|
            if start <= p < start + count * line_len && line_len >= 1 {
                filt_rc(data, start, line_len, width, (p - start) / line_len, (p - start) % line_len)
            } else {
                data[p]
            },
    )
}

/// The whole buffer after the reconstruction pass over a region.
pub open spec fn recon_region(data: Seq<u8>, start: int, line_len: int, width: int, count: int) -> Seq<u8> {
    Seq::new(
        data.len(),
        |p: int|
            if start <= p < start + count * line_len && line_len >= 1 {
                recon_rc(data, start, line_len, width, (p - start) / line_len, (p - start) % line_len)
            } else {
                data[p]
            },
    )
}

/// The cell `(r, off)` of a region maps to buffer position
/// `start + r * line_len + off`, and that position maps back to the cell.
proof fn lemma_region_index(data: Seq<u8>, start: int, line_len: int, width: int, count: int, r: int, off: int)
    requires
        1 <= line_len,
        0 <= start,
        0 <= r < count,
        0 <= off < line_len,
        start + count * line_len <= data.len(),
    ensures
        filt_region(data, start, line_len, width, count)[start + r * line_len + off]
            == filt_rc(data, start, line_len, width, r, off),
        recon_region(data, start, line_len, width, count)[start + r * line_len + off]
            == recon_rc(data, start, line_len, width, r, off),
{
    let p = start + r * line_len + off;
    lemma_cell_bound(r, off, count, line_len);
    lemma_fundamental_div_mod_converse(p - start, line_len, r, off);
}

/// Reconstructing a filtered region recovers every data byte exactly, and
/// stamps every scanline's tag byte with Sub.  Together with
/// `lemma_filter_undoes_reconstruct` this is the filter engine's round trip.
pub proof fn lemma_reconstruct_undoes_filter(
    data: Seq<u8>,
    start: int,
    line_len: int,
    width: int,
    count: int,
    r: int,
    off: int,
)
    requires
        1 <= line_len,
        1 <= width,
        0 <= start,
        0 <= r < count,
        0 <= off < line_len,
        start + count * line_len <= data.len(),
    ensures
        recon_rc(filt_region(data, start, line_len, width, count), start, line_len, width, r, off)
            == if off == 0 {
            1u8
        } else {
            data[start + r * line_len + off]
        },
    decreases off,
{
    let fdata = filt_region(data, start, line_len, width, count);
    let base = start + r * line_len;
    lemma_region_index(data, start, line_len, width, count, r, 0);
    if off == 0 {
    } else {
        lemma_region_index(data, start, line_len, width, count, r, off);
        assert(fdata[base] == 1);
        if off > width {
            lemma_reconstruct_undoes_filter(data, start, line_len, width, count, r, off - width);
            assert(fdata[base + off] == sub256(data[base + off], data[base + off - width]));
        } else {
            assert(fdata[base + off] == data[base + off]);
        }
    }
}

/// Filtering a reconstructed region recovers every stored byte exactly,
/// provided every scanline of the stored data carries the Sub tag that the
/// filtering pass emits.
pub proof fn lemma_filter_undoes_reconstruct(
    data: Seq<u8>,
    start: int,
    line_len: int,
    width: int,
    count: int,
    r: int,
    off: int,
)
    requires
        1 <= line_len,
        1 <= width,
        0 <= start,
        0 <= r < count,
        0 <= off < line_len,
        start + count * line_len <= data.len(),
        forall|rr: int| 0 <= rr < count ==> data[#[trigger] (start + rr * line_len)] == 1u8,
    ensures
        filt_rc(recon_region(data, start, line_len, width, count), start, line_len, width, r, off)
            == data[start + r * line_len + off],
{
    let rdata = recon_region(data, start, line_len, width, count);
    let base = start + r * line_len;
    lemma_region_index(data, start, line_len, width, count, r, 0);
    if off == 0 {
        assert(data[base] == 1u8);
    } else {
        lemma_region_index(data, start, line_len, width, count, r, off);
        if off > width {
            lemma_region_index(data, start, line_len, width, count, r, off - width);
            assert(rdata[base + off] == recon_rc(data, start, line_len, width, r, off));
            assert(data[base] == 1u8);
            assert(recon_rc(data, start, line_len, width, r, off) == add256(
                data[base + off],
                recon_rc(data, start, line_len, width, r, off - width),
            ));
        }
    }
}

/// The stored length of one scanline of pass `q`, for an image `w` pixels
/// wide whose pixels are `pwbits` bits.
pub open spec fn pass_line_len(w: int, pwbits: int, q: int) -> int {
    scanline_width_spec(pass_width_spec(w, q), pwbits)
}

/// How many bytes pass `q` contributes to the decompressed stream: its
/// scanlines, or nothing at all when its sub-image is empty.
pub open spec fn pass_seg_bytes(w: int, h: int, pwbits: int, q: int) -> int {
    if pass_width_spec(w, q) > 0 && pass_height_spec(h, q) > 0 {
        pass_height_spec(h, q) * pass_line_len(w, pwbits, q)
    } else {
        0
    }
}

/// Where pass `q`'s bytes start: the bytes of all earlier passes.
pub open spec fn pass_offset(w: int, h: int, pwbits: int, q: int) -> int
    decreases q,
{
    if q <= 0 {
        0
    } else {
        pass_offset(w, h, pwbits, q - 1) + pass_seg_bytes(w, h, pwbits, q - 1)
    }
}

/// The exact length of the decompressed scanline stream an image's header
/// calls for.
pub open spec fn expected_data_len(h: IHDRChunk) -> int {
    match h.interlace_method {
        Interlacing::NoInterlace => (h.height as int) * scanline_width_spec(
            h.width as int,
            pixel_width_spec(h),
        ),
        Interlacing::Adam7 => pass_offset(h.width as int, h.height as int, pixel_width_spec(h), 7),
    }
}

/// The buffer after reconstructing the scanlines of the first `q` passes.
pub open spec fn recon_passes(data: Seq<u8>, w: int, h: int, pwbits: int, fw: int, q: int) -> Seq<
    u8,
>
    decreases q,
{
    if q <= 0 {
        data
    } else {
        let prev = recon_passes(data, w, h, pwbits, fw, q - 1);
        if pass_width_spec(w, q - 1) > 0 && pass_height_spec(h, q - 1) > 0 {
            recon_region(
                prev,
                pass_offset(w, h, pwbits, q - 1),
                pass_line_len(w, pwbits, q - 1),
                fw,
                pass_height_spec(h, q - 1),
            )
        } else {
            prev
        }
    }
}

/// The buffer after filtering the scanlines of the first `q` passes.
pub open spec fn filt_passes(data: Seq<u8>, w: int, h: int, pwbits: int, fw: int, q: int) -> Seq<
    u8,
>
    decreases q,
{
    if q <= 0 {
        data
    } else {
        let prev = filt_passes(data, w, h, pwbits, fw, q - 1);
        if pass_width_spec(w, q - 1) > 0 && pass_height_spec(h, q - 1) > 0 {
            filt_region(
                prev,
                pass_offset(w, h, pwbits, q - 1),
                pass_line_len(w, pwbits, q - 1),
                fw,
                pass_height_spec(h, q - 1),
            )
        } else {
            prev
        }
    }
}

/// The whole buffer after the reconstruction pass an image's header calls
/// for: one region of scanlines, or one region per non-empty Adam7 pass.
pub open spec fn recon_all(data: Seq<u8>, h: IHDRChunk) -> Seq<u8> {
    match h.interlace_method {
        Interlacing::NoInterlace => recon_region(
            data,
            0,
            scanline_width_spec(h.width as int, pixel_width_spec(h)),
            filter_width_spec(h),
            h.height as int,
        ),
        Interlacing::Adam7 => recon_passes(
            data,
            h.width as int,
            h.height as int,
            pixel_width_spec(h),
            filter_width_spec(h),
            7,
        ),
    }
}

/// The whole buffer after the filtering pass an image's header calls for.
pub open spec fn filt_all(data: Seq<u8>, h: IHDRChunk) -> Seq<u8> {
    match h.interlace_method {
        Interlacing::NoInterlace => filt_region(
            data,
            0,
            scanline_width_spec(h.width as int, pixel_width_spec(h)),
            filter_width_spec(h),
            h.height as int,
        ),
        Interlacing::Adam7 => filt_passes(
            data,
            h.width as int,
            h.height as int,
            pixel_width_spec(h),
            filter_width_spec(h),
            7,
        ),
    }
}

/// A buffer whose region cells each hold the reconstructed byte, and whose
/// other bytes are untouched, is the reconstructed region.
proof fn lemma_recon_region_eq(pre: Seq<u8>, post: Seq<u8>, start: int, ll: int, w: int, count: int)
    requires
        pre.len() == post.len(),
        1 <= ll,
        1 <= w,
        0 <= start,
        0 <= count,
        start + count * ll <= pre.len(),
        forall|r: int, off: int|
            0 <= r < count && 0 <= off < ll ==> post[start + r * ll + off] == recon_rc(
                pre,
                start,
                ll,
                w,
                r,
                off,
            ),
        forall|p: int|
            0 <= p < pre.len() && !(start <= p < start + count * ll) ==> post[p] == pre[p],
    ensures
        post =~= recon_region(pre, start, ll, w, count),
{
    assert forall|p: int| 0 <= p < post.len() implies post[p] == recon_region(
        pre,
        start,
        ll,
        w,
        count,
    )[p] by {
        if start <= p < start + count * ll {
            lemma_fundamental_div_mod(p - start, ll);
            let r = (p - start) / ll;
            let off = (p - start) % ll;
            assert(0 <= r < count && start + r * ll + off == p) by (nonlinear_arith)
                requires
                    start <= p < start + count * ll,
                    1 <= ll,
                    p - start == ll * r + off,
                    0 <= off < ll,
            ;
        }
    }
}

/// A buffer whose region cells each hold the filtered byte, and whose
/// other bytes are untouched, is the filtered region.
proof fn lemma_filt_region_eq(pre: Seq<u8>, post: Seq<u8>, start: int, ll: int, w: int, count: int)
    requires
        pre.len() == post.len(),
        1 <= ll,
        1 <= w,
        0 <= start,
        0 <= count,
        start + count * ll <= pre.len(),
        forall|r: int, off: int|
            0 <= r < count && 0 <= off < ll ==> post[start + r * ll + off] == filt_rc(
                pre,
                start,
                ll,
                w,
                r,
                off,
            ),
        forall|p: int|
            0 <= p < pre.len() && !(start <= p < start + count * ll) ==> post[p] == pre[p],
    ensures
        post =~= filt_region(pre, start, ll, w, count),
{
    assert forall|p: int| 0 <= p < post.len() implies post[p] == filt_region(
        pre,
        start,
        ll,
        w,
        count,
    )[p] by {
        if start <= p < start + count * ll {
            lemma_fundamental_div_mod(p - start, ll);
            let r = (p - start) / ll;
            let off = (p - start) % ll;
            assert(0 <= r < count && start + r * ll + off == p) by (nonlinear_arith)
                requires
                    start <= p < start + count * ll,
                    1 <= ll,
                    p - start == ll * r + off,
                    0 <= off < ll,
            ;
        }
    }
}

/// Passes contribute non-negative byte counts, so pass offsets never
/// decrease.
pub proof fn lemma_pass_offset_mono_pub(w: int, h: int, pwbits: int, q1: int, q2: int)
    requires
        0 <= q1 <= q2,
        1 <= pwbits,
    ensures
        pass_offset(w, h, pwbits, q1) <= pass_offset(w, h, pwbits, q2),
{
    lemma_pass_offset_mono(w, h, pwbits, q1, q2);
}

/// Passes contribute non-negative byte counts, so pass offsets never
/// decrease.
proof fn lemma_pass_offset_mono(w: int, h: int, pwbits: int, q1: int, q2: int)
    requires
        0 <= q1 <= q2,
        1 <= pwbits,
    ensures
        pass_offset(w, h, pwbits, q1) <= pass_offset(w, h, pwbits, q2),
    decreases q2 - q1,
{
    if q1 < q2 {
        lemma_pass_offset_mono(w, h, pwbits, q1, q2 - 1);
        assert(pass_seg_bytes(w, h, pwbits, q2 - 1) >= 0) by {
            if pass_width_spec(w, q2 - 1) > 0 && pass_height_spec(h, q2 - 1) > 0 {
                assert(pass_height_spec(h, q2 - 1) * pass_line_len(w, pwbits, q2 - 1) >= 0)
                    by (nonlinear_arith)
                    requires
                        pass_height_spec(h, q2 - 1) >= 0,
                        pass_line_len(w, pwbits, q2 - 1) >= 0,
                ;
            }
        }
    }
}

/// Reconstruct every scanline of a decompressed buffer, in place: one run
/// of scanlines for a non-interlaced image, or one run per non-empty Adam7
/// pass, each with its own geometry and its own first-scanline boundary.
pub fn reconstruct_scanlines(image_data: &mut Vec<u8>, header: &IHDRChunk)
    requires
        old(image_data)@.len() == expected_data_len(*header),
        crate::chunks::valid_bit_depth_spec(header.color_type, header.bit_depth),
    ensures
        final(image_data)@ == recon_all(old(image_data)@, *header),
{
    let ghost orig = old(image_data)@;
    let ghost wi = header.width as int;
    let ghost hi = header.height as int;
    let ghost pwg = pixel_width_spec(*header);
    let ghost fwg = filter_width_spec(*header);
    proof {
        assert(1 <= channel_count_spec(header.color_type) * header.bit_depth <= 64 && (
        header.bit_depth >= 8 ==> 1 <= channel_count_spec(header.color_type) * (header.bit_depth
            as int / 8) <= 8)) by (nonlinear_arith)
            requires
                1 <= channel_count_spec(header.color_type) <= 4,
                1 <= header.bit_depth <= 16,
        ;
    }
    let fw = header.filter_width();
    let pwbits = header.pixel_width();
    let total_len = image_data.len();
    match header.interlace_method {
        Interlacing::NoInterlace => {
            if header.height == 0 {
                proof {
                    assert(0 * scanline_width_spec(wi, pwg) == 0) by (nonlinear_arith);
                    assert(image_data@ =~= recon_all(orig, *header));
                }
                return ;
            }
            proof {
                assert(scanline_width_spec(wi, pwg) * 1 <= hi * scanline_width_spec(wi, pwg)
                    && scanline_width_spec(wi, pwg) * 1 == scanline_width_spec(wi, pwg) && hi
                    * scanline_width_spec(wi, pwg) == scanline_width_spec(wi, pwg) * hi)
                    by (nonlinear_arith)
                    requires
                        1 <= hi,
                        0 <= scanline_width_spec(wi, pwg),
                ;
            }
            let ll = calculate_scanline_width(header.width, pwbits);
            let count = header.height as usize;
            inner_reconstruct_scanlines(image_data, 0, ll, count, fw as usize);
            proof {
                lemma_recon_region_eq(orig, image_data@, 0, ll as int, fwg, hi);
            }
        },
        Interlacing::Adam7 => {
            let mut offset: usize = 0;
            let mut q: usize = 0;
            while q < 7
                invariant
                    q <= 7,
                    wi == header.width as int,
                    hi == header.height as int,
                    pwg == pixel_width_spec(*header),
                    fwg == filter_width_spec(*header),
                    1 <= fw as int == fwg,
                    1 <= pwbits as int == pwg,
                    header.interlace_method == Interlacing::Adam7,
                    orig.len() == total_len as int,
                    orig.len() == pass_offset(wi, hi, pwg, 7),
                    image_data@.len() == orig.len(),
                    offset == pass_offset(wi, hi, pwg, q as int),
                    image_data@ == recon_passes(orig, wi, hi, pwg, fwg, q as int),
                decreases 7 - q,
            {
                let (row_start, col_start, row_stride, col_stride) = Adam7Iter::pass_parameters(q);
                let w_usize = header.width as usize;
                let h_usize = header.height as usize;
                let pass_w = if w_usize > col_start {
                    crate::utils::div_ceil(w_usize - col_start, col_stride)
                } else {
                    0
                };
                let pass_h = if h_usize > row_start {
                    crate::utils::div_ceil(h_usize - row_start, row_stride)
                } else {
                    0
                };
                proof {
                    assert(pass_w == pass_width_spec(wi, q as int));
                    assert(pass_h == pass_height_spec(hi, q as int));
                    lemma_pass_offset_mono(wi, hi, pwg, q as int + 1, 7);
                }
                if pass_w > 0 && pass_h > 0 {
                    let ghost llg = pass_line_len(wi, pwg, q as int);
                    proof {
                        assert(pass_offset(wi, hi, pwg, q as int + 1) == offset + (pass_h as int)
                            * llg);
                        assert(llg * 1 <= (pass_h as int) * llg && llg * 1 == llg && (pass_h as int)
                            * llg == llg * (pass_h as int) && (pass_h as int) * llg >= 0)
                            by (nonlinear_arith)
                            requires
                                1 <= pass_h,
                                0 <= llg,
                        ;
                    }
                    let ll = calculate_scanline_width(pass_w as u32, pwbits);
                    let ghost pre = image_data@;
                    inner_reconstruct_scanlines(image_data, offset, ll, pass_h, fw as usize);
                    proof {
                        lemma_recon_region_eq(
                            pre,
                            image_data@,
                            offset as int,
                            ll as int,
                            fwg,
                            pass_h as int,
                        );
                        assert(image_data@ == recon_passes(orig, wi, hi, pwg, fwg, q as int + 1));
                    }
                    offset = offset + ll * pass_h;
                } else {
                    proof {
                        assert(pass_seg_bytes(wi, hi, pwg, q as int) == 0);
                        assert(recon_passes(orig, wi, hi, pwg, fwg, q as int + 1) == recon_passes(
                            orig,
                            wi,
                            hi,
                            pwg,
                            fwg,
                            q as int,
                        ));
                    }
                }
                q = q + 1;
            }
        },
    }
}

/// Filter every scanline of a packed buffer, in place, always with the Sub
/// filter: one run of scanlines for a non-interlaced image, or one run per
/// non-empty Adam7 pass, each with its own geometry and its own
/// first-scanline boundary.
pub fn filter_scanlines(image_data: &mut Vec<u8>, header: &IHDRChunk)
    requires
        old(image_data)@.len() == expected_data_len(*header),
        crate::chunks::valid_bit_depth_spec(header.color_type, header.bit_depth),
    ensures
        final(image_data)@ == filt_all(old(image_data)@, *header),
{
    let ghost orig = old(image_data)@;
    let ghost wi = header.width as int;
    let ghost hi = header.height as int;
    let ghost pwg = pixel_width_spec(*header);
    let ghost fwg = filter_width_spec(*header);
    proof {
        assert(1 <= channel_count_spec(header.color_type) * header.bit_depth <= 64 && (
        header.bit_depth >= 8 ==> 1 <= channel_count_spec(header.color_type) * (header.bit_depth
            as int / 8) <= 8)) by (nonlinear_arith)
            requires
                1 <= channel_count_spec(header.color_type) <= 4,
                1 <= header.bit_depth <= 16,
        ;
    }
    let fw = header.filter_width();
    let pwbits = header.pixel_width();
    let total_len = image_data.len();
    match header.interlace_method {
        Interlacing::NoInterlace => {
            if header.height == 0 {
                proof {
                    assert(0 * scanline_width_spec(wi, pwg) == 0) by (nonlinear_arith);
                    assert(image_data@ =~= filt_all(orig, *header));
                }
                return ;
            }
            proof {
                assert(scanline_width_spec(wi, pwg) * 1 <= hi * scanline_width_spec(wi, pwg)
                    && scanline_width_spec(wi, pwg) * 1 == scanline_width_spec(wi, pwg) && hi
                    * scanline_width_spec(wi, pwg) == scanline_width_spec(wi, pwg) * hi)
                    by (nonlinear_arith)
                    requires
                        1 <= hi,
                        0 <= scanline_width_spec(wi, pwg),
                ;
            }
            let ll = calculate_scanline_width(header.width, pwbits);
            let count = header.height as usize;
            inner_filter_scanlines(image_data, 0, ll, count, fw as usize);
            proof {
                lemma_filt_region_eq(orig, image_data@, 0, ll as int, fwg, hi);
            }
        },
        Interlacing::Adam7 => {
            let mut offset: usize = 0;
            let mut q: usize = 0;
            while q < 7
                invariant
                    q <= 7,
                    wi == header.width as int,
                    hi == header.height as int,
                    pwg == pixel_width_spec(*header),
                    fwg == filter_width_spec(*header),
                    1 <= fw as int == fwg,
                    1 <= pwbits as int == pwg,
                    header.interlace_method == Interlacing::Adam7,
                    orig.len() == total_len as int,
                    orig.len() == pass_offset(wi, hi, pwg, 7),
                    image_data@.len() == orig.len(),
                    offset == pass_offset(wi, hi, pwg, q as int),
                    image_data@ == filt_passes(orig, wi, hi, pwg, fwg, q as int),
                decreases 7 - q,
            {
                let (row_start, col_start, row_stride, col_stride) = Adam7Iter::pass_parameters(q);
                let w_usize = header.width as usize;
                let h_usize = header.height as usize;
                let pass_w = if w_usize > col_start {
                    crate::utils::div_ceil(w_usize - col_start, col_stride)
                } else {
                    0
                };
                let pass_h = if h_usize > row_start {
                    crate::utils::div_ceil(h_usize - row_start, row_stride)
                } else {
                    0
                };
                proof {
                    assert(pass_w == pass_width_spec(wi, q as int));
                    assert(pass_h == pass_height_spec(hi, q as int));
                    lemma_pass_offset_mono(wi, hi, pwg, q as int + 1, 7);
                }
                if pass_w > 0 && pass_h > 0 {
                    let ghost llg = pass_line_len(wi, pwg, q as int);
                    proof {
                        assert(pass_offset(wi, hi, pwg, q as int + 1) == offset + (pass_h as int)
                            * llg);
                        assert(llg * 1 <= (pass_h as int) * llg && llg * 1 == llg && (pass_h as int)
                            * llg == llg * (pass_h as int) && (pass_h as int) * llg >= 0)
                            by (nonlinear_arith)
                            requires
                                1 <= pass_h,
                                0 <= llg,
                        ;
                    }
                    let ll = calculate_scanline_width(pass_w as u32, pwbits);
                    let ghost pre = image_data@;
                    inner_filter_scanlines(image_data, offset, ll, pass_h, fw as usize);
                    proof {
                        lemma_filt_region_eq(
                            pre,
                            image_data@,
                            offset as int,
                            ll as int,
                            fwg,
                            pass_h as int,
                        );
                        assert(image_data@ == filt_passes(orig, wi, hi, pwg, fwg, q as int + 1));
                    }
                    offset = offset + ll * pass_h;
                } else {
                    proof {
                        assert(pass_seg_bytes(wi, hi, pwg, q as int) == 0);
                        assert(filt_passes(orig, wi, hi, pwg, fwg, q as int + 1) == filt_passes(
                            orig,
                            wi,
                            hi,
                            pwg,
                            fwg,
                            q as int,
                        ));
                    }
                }
                q = q + 1;
            }
        },
    }
}

/// Reconstruction and filtering preserve the buffer's length, pass by
/// pass.
pub proof fn lemma_passes_len(data: Seq<u8>, w: int, h: int, pwbits: int, fw: int, q: int)
    ensures
        recon_passes(data, w, h, pwbits, fw, q).len() == data.len(),
        filt_passes(data, w, h, pwbits, fw, q).len() == data.len(),
    decreases q,
{
    if q > 0 {
        lemma_passes_len(data, w, h, pwbits, fw, q - 1);
    }
}

/// Reconstruction and filtering preserve the buffer's length.
pub proof fn lemma_all_len(data: Seq<u8>, h: IHDRChunk)
    ensures
        recon_all(data, h).len() == data.len(),
        filt_all(data, h).len() == data.len(),
{
    match h.interlace_method {
        Interlacing::NoInterlace => {
        },
        Interlacing::Adam7 => {
            lemma_passes_len(
                data,
                h.width as int,
                h.height as int,
                pixel_width_spec(h),
                filter_width_spec(h),
                7,
            );
        },
    }
}

} // verus!
