//! Adam7 interlacing: the seven fixed sub-image passes and the mapping from
//! each pass's pixels to absolute indices into the full row-major image.

use crate::utils::{div_ceil, spec_div_ceil};
use vstd::arithmetic::div_mod::{
    lemma_fundamental_div_mod, lemma_fundamental_div_mod_converse, lemma_mod_mod,
    lemma_mod_multiples_vanish,
};
use vstd::prelude::*;

verus! {

/// The first image row each pass covers.
pub open spec fn pass_row_start(pass: int) -> int {
    if pass == 0 {
        0
    } else if pass == 1 {
        0
    } else if pass == 2 {
        4
    } else if pass == 3 {
        0
    } else if pass == 4 {
        2
    } else if pass == 5 {
        0
    } else {
        1
    }
}

/// The first image column each pass covers.
pub open spec fn pass_col_start(pass: int) -> int {
    if pass == 0 {
        0
    } else if pass == 1 {
        4
    } else if pass == 2 {
        0
    } else if pass == 3 {
        2
    } else if pass == 4 {
        0
    } else if pass == 5 {
        1
    } else {
        0
    }
}

/// The row step of each pass.
pub open spec fn pass_row_stride(pass: int) -> int {
    if pass == 0 {
        8
    } else if pass == 1 {
        8
    } else if pass == 2 {
        8
    } else if pass == 3 {
        4
    } else if pass == 4 {
        4
    } else if pass == 5 {
        2
    } else {
        2
    }
}

/// The column step of each pass.
pub open spec fn pass_col_stride(pass: int) -> int {
    if pass == 0 {
        8
    } else if pass == 1 {
        8
    } else if pass == 2 {
        4
    } else if pass == 3 {
        4
    } else if pass == 4 {
        2
    } else if pass == 5 {
        2
    } else {
        1
    }
}

/// How many grid lines starting at `start` with step `stride` lie before
/// `bound`.
pub open spec fn steps_in(start: int, stride: int, bound: int) -> int
    recommends
        1 <= stride,
{
    if bound > start {
        spec_div_ceil(bound - start, stride)
    } else {
        0
    }
}

/// The width of a pass's sub-image for a full image `w` pixels wide.
pub open spec fn pass_width_spec(w: int, pass: int) -> int {
    steps_in(pass_col_start(pass), pass_col_stride(pass), w)
}

/// The height of a pass's sub-image for a full image `h` pixels tall.
pub open spec fn pass_height_spec(h: int, pass: int) -> int {
    steps_in(pass_row_start(pass), pass_row_stride(pass), h)
}

/// The ordered absolute pixel indices of a sub-image grid: rows from
/// `row_start` stepping by `row_stride` below `height`, columns from
/// `col_start` stepping by `col_stride` below `width`, visited row by row,
/// each cell contributing `row * width + col`.
pub open spec fn grid_index_seq(
    row_start: int,
    row_stride: int,
    col_start: int,
    col_stride: int,
    width: int,
    height: int,
) -> Seq<int> {
    let nrows = steps_in(row_start, row_stride, height);
    let ncols = steps_in(col_start, col_stride, width);
    Seq::new(
        (nrows * ncols) as nat,
        |k: int|
            (row_start + (k / ncols) * row_stride) * width + col_start + (k % ncols) * col_stride,
    )
}

/// The absolute pixel indices of one Adam7 pass over a `w` by `h` image.
pub open spec fn pass_index_seq(w: int, h: int, pass: int) -> Seq<int> {
    grid_index_seq(
        pass_row_start(pass),
        pass_row_stride(pass),
        pass_col_start(pass),
        pass_col_stride(pass),
        w,
        h,
    )
}

/// The `i`th grid line starting at `start` with step `stride` lies before
/// `bound` exactly when `i` is below the step count.
pub proof fn lemma_steps_in_bound_pub(start: int, stride: int, bound: int, i: int)
    requires
        1 <= stride,
        0 <= start,
        0 <= i < steps_in(start, stride, bound),
    ensures
        start + i * stride < bound,
        0 <= i * stride,
{
    lemma_steps_in_bound(start, stride, bound, i);
}

/// The `i`th grid line starting at `start` with step `stride` lies before
/// `bound` exactly when `i` is below the step count.
proof fn lemma_steps_in_bound(start: int, stride: int, bound: int, i: int)
    requires
        1 <= stride,
        0 <= start,
        0 <= i < steps_in(start, stride, bound),
    ensures
        start + i * stride < bound,
        0 <= i * stride,
{
    let d = bound - start;
    lemma_fundamental_div_mod(d, stride);
    assert(start + i * stride < bound && 0 <= i * stride) by (nonlinear_arith)
        requires
            1 <= stride,
            0 <= i,
            d == bound - start,
            d == stride * (d / stride) + d % stride,
            0 <= d % stride < stride,
            i < steps_in(start, stride, bound),
            steps_in(start, stride, bound) == if d > 0 {
                spec_div_ceil(d, stride)
            } else {
                0
            },
            spec_div_ceil(d, stride) == if d % stride > 0 {
                d / stride + 1
            } else {
                d / stride
            },
    ;
}

/// A value on the grid lies at a step index below the step count.
pub proof fn lemma_steps_in_cover_pub(start: int, stride: int, bound: int, v: int)
    requires
        1 <= stride,
        0 <= start <= v < bound,
        (v - start) % stride == 0,
    ensures
        0 <= (v - start) / stride < steps_in(start, stride, bound),
        start + ((v - start) / stride) * stride == v,
{
    lemma_steps_in_cover(start, stride, bound, v);
}

/// A value on the grid lies at a step index below the step count.
proof fn lemma_steps_in_cover(start: int, stride: int, bound: int, v: int)
    requires
        1 <= stride,
        0 <= start <= v < bound,
        (v - start) % stride == 0,
    ensures
        0 <= (v - start) / stride < steps_in(start, stride, bound),
        start + ((v - start) / stride) * stride == v,
{
    let d = bound - start;
    let e = v - start;
    lemma_fundamental_div_mod(d, stride);
    lemma_fundamental_div_mod(e, stride);
    assert(0 <= e / stride < steps_in(start, stride, bound) && start + (e / stride) * stride == v)
        by (nonlinear_arith)
        requires
            1 <= stride,
            0 <= e < d,
            e == v - start,
            d == bound - start,
            d == stride * (d / stride) + d % stride,
            0 <= d % stride < stride,
            e == stride * (e / stride) + e % stride,
            e % stride == 0,
            steps_in(start, stride, bound) == spec_div_ceil(d, stride),
            spec_div_ceil(d, stride) == if d % stride > 0 {
                d / stride + 1
            } else {
                d / stride
            },
    ;
}

/// A lazily stepped cursor over one sub-image grid, yielding the absolute
/// pixel index of each grid cell in scanline order.
pub struct PixelIndicesIter {
    row_start: usize,
    row_stride: usize,
    col_start: usize,
    col_stride: usize,
    width: usize,
    height: usize,
    n_rows: usize,
    n_cols: usize,
    i: usize,
    j: usize,
}

impl PixelIndicesIter {
    /// The geometry fields describe a real grid and the cursor sits on a
    /// cell or one row past the end.
    pub closed spec fn wf(self) -> bool {
        &&& 1 <= self.row_stride
        &&& 1 <= self.col_stride
        &&& self.n_rows == steps_in(self.row_start as int, self.row_stride as int, self.height as int)
        &&& self.n_cols == steps_in(self.col_start as int, self.col_stride as int, self.width as int)
        &&& ((self.i < self.n_rows && self.j < self.n_cols) || (self.i == self.n_rows && self.j
            == 0))
        &&& (self.width as int) * (self.height as int) <= usize::MAX
        &&& (self.n_cols == 0 ==> self.i == self.n_rows)
    }

    /// All indices this cursor ranges over, in order.
    pub closed spec fn index_seq(self) -> Seq<int> {
        grid_index_seq(
            self.row_start as int,
            self.row_stride as int,
            self.col_start as int,
            self.col_stride as int,
            self.width as int,
            self.height as int,
        )
    }

    /// How many indices have been yielded already.
    pub closed spec fn pos(self) -> int {
        self.i * self.n_cols + self.j
    }

    /// The position never runs past the sequence.
    pub proof fn lemma_pos_in_range(self)
        requires
            self.wf(),
        ensures
            0 <= self.pos() <= self.index_seq().len(),
    {
        self.lemma_pos_end();
    }

    /// The cursor sits at the end of the sequence exactly when its row
    /// counter has run out.
    proof fn lemma_pos_end(self)
        requires
            self.wf(),
        ensures
            0 <= self.pos() <= self.index_seq().len(),
            self.pos() == self.index_seq().len() <==> self.i == self.n_rows,
    {
        assert(self.index_seq().len() == (self.n_rows as int) * (self.n_cols as int)) by {
            assert((self.n_rows as int) * (self.n_cols as int) >= 0) by (nonlinear_arith)
                requires
                    self.n_rows >= 0,
                    self.n_cols >= 0,
            ;
        }
        if self.i == self.n_rows {
            assert(self.pos() == (self.n_rows as int) * (self.n_cols as int));
        } else {
            assert((self.i as int) * (self.n_cols as int) + (self.j as int) < (self.n_rows as int)
                * (self.n_cols as int)) by (nonlinear_arith)
                requires
                    0 <= self.i < self.n_rows,
                    0 <= self.j < self.n_cols,
            ;
        }
    }

    /// Start a cursor over the grid of rows `row_start`, `row_start +
    /// row_stride`, ... below `height` and columns `col_start`, `col_start +
    /// col_stride`, ... below `width`.
    pub fn new(
        row_start: usize,
        row_stride: usize,
        col_start: usize,
        col_stride: usize,
        width: usize,
        height: usize,
    ) -> (r: PixelIndicesIter)
        requires
            1 <= row_stride,
            1 <= col_stride,
            (width as int) * (height as int) <= usize::MAX,
        ensures
            r.wf(),
            r.index_seq() == grid_index_seq(
                row_start as int,
                row_stride as int,
                col_start as int,
                col_stride as int,
                width as int,
                height as int,
            ),
            r.pos() == 0,
    {
        let n_rows = if height > row_start {
            div_ceil(height - row_start, row_stride)
        } else {
            0
        };
        let n_cols = if width > col_start {
            div_ceil(width - col_start, col_stride)
        } else {
            0
        };
        let exhausted = n_rows == 0 || n_cols == 0;
        let r = PixelIndicesIter {
            row_start,
            row_stride,
            col_start,
            col_stride,
            width,
            height,
            n_rows,
            n_cols,
            i: if exhausted {
                n_rows
            } else {
                0
            },
            j: 0,
        };
        proof {
            if exhausted {
                assert(r.pos() == (n_rows as int) * (n_cols as int));
                assert((n_rows as int) * (n_cols as int) == 0) by (nonlinear_arith)
                    requires
                        n_rows == 0 || n_cols == 0,
                ;
            }
        }
        r
    }

    /// Yield the next absolute pixel index, advancing the cursor; the
    /// element yielded is the one at the cursor's position in the cursor's
    /// index sequence.
    pub fn next(&mut self) -> (r: Option<usize>)
        requires
            old(self).wf(),
        ensures
            final(self).wf(),
            final(self).index_seq() == old(self).index_seq(),
            old(self).pos() < old(self).index_seq().len() ==> {
                &&& r matches Some(v)
                &&& v as int == old(self).index_seq()[old(self).pos()]
                &&& final(self).pos() == old(self).pos() + 1
            },
            old(self).pos() >= old(self).index_seq().len() ==> r is None && final(self).pos()
                == old(self).pos(),
    {
        proof {
            old(self).lemma_pos_end();
        }
        if self.i >= self.n_rows {
            return Option::None;
        }
        proof {
            lemma_steps_in_bound(
                self.row_start as int,
                self.row_stride as int,
                self.height as int,
                self.i as int,
            );
            lemma_steps_in_bound(
                self.col_start as int,
                self.col_stride as int,
                self.width as int,
                self.j as int,
            );
        }
        let row = self.row_start + self.i * self.row_stride;
        let col = self.col_start + self.j * self.col_stride;
        proof {
            assert((row as int) * (self.width as int) + col < (self.height as int) * (self.width
                as int)) by (nonlinear_arith)
                requires
                    0 <= row < self.height,
                    0 <= col < self.width,
            ;
            assert((self.height as int) * (self.width as int) == (self.width as int) * (self.height
                as int)) by (nonlinear_arith);
        }
        let idx = row * self.width + col;
        proof {
            let k = self.pos();
            let ncols = self.n_cols as int;
            lemma_fundamental_div_mod_converse(k, ncols, self.i as int, self.j as int);
            assert(self.index_seq()[k] == (self.row_start + (k / ncols) * self.row_stride)
                * self.width + self.col_start + (k % ncols) * self.col_stride);
        }
        let ghost oldpos = self.pos();
        if self.j + 1 < self.n_cols {
            self.j = self.j + 1;
        } else {
            proof {
                assert((self.i as int + 1) * (self.n_cols as int) == (self.i as int) * (self.n_cols
                    as int) + self.n_cols) by (nonlinear_arith);
            }
            self.j = 0;
            self.i = self.i + 1;
        }
        proof {
            assert(self.pos() == oldpos + 1);
        }
        Some(idx)
    }

    /// All remaining indices, in order, as one vector.
    pub fn collect_remaining(&mut self) -> (r: Vec<usize>)
        requires
            old(self).wf(),
        ensures
            final(self).wf(),
            r@.len() == old(self).index_seq().len() - old(self).pos(),
            forall|k: int|
                0 <= k < r@.len() ==> r@[k] as int == old(self).index_seq()[old(self).pos() + k],
            final(self).pos() == final(self).index_seq().len(),
    {
        proof {
            old(self).lemma_pos_in_range();
        }
        let mut out: Vec<usize> = Vec::new();
        loop
            invariant
                self.wf(),
                self.index_seq() == old(self).index_seq(),
                self.pos() == old(self).pos() + out@.len(),
                self.pos() <= self.index_seq().len(),
                forall|k: int|
                    0 <= k < out@.len() ==> out@[k] as int == old(self).index_seq()[old(self).pos()
                        + k],
            decreases self.index_seq().len() - self.pos(),
        {
            proof {
                self.lemma_pos_in_range();
            }
            match self.next() {
                Some(v) => {
                    out.push(v);
                },
                Option::None => {
                    proof {
                        self.lemma_pos_in_range();
                    }
                    return out;
                },
            }
        }
    }
}

/// One Adam7 pass: the sub-image's dimensions and the cursor over the
/// absolute indices of its pixels.
pub struct SubImage {
    /// Pixels per sub-image row.
    pub width: usize,
    /// Rows in the sub-image.
    pub height: usize,
    /// Cursor over the absolute pixel indices the sub-image covers.
    pub pixel_indices: PixelIndicesIter,
}

/// The first pass at `from` or later whose sub-image is non-empty; 7 when
/// none is.
pub open spec fn next_nonempty_pass(w: int, h: int, from: int) -> int
    decreases 7 - from,
        when 0 <= from <= 7
{
    if from >= 7 {
        7
    } else if pass_width_spec(w, from) > 0 && pass_height_spec(h, from) > 0 {
        from
    } else {
        next_nonempty_pass(w, h, from + 1)
    }
}

/// Walks the seven Adam7 passes of a `width` by `height` image in order,
/// skipping the passes whose sub-image is empty.
pub struct Adam7Iter {
    current_pass: usize,
    width: usize,
    height: usize,
}

impl Adam7Iter {
    /// The cursor's pass counter stays within the seven passes.
    pub closed spec fn wf(self) -> bool {
        &&& self.current_pass <= 7
        &&& (self.width as int) * (self.height as int) <= usize::MAX
    }

    /// Which pass the iterator will consider next.
    pub closed spec fn pass(self) -> int {
        self.current_pass as int
    }

    /// The full image width this iterator was built for.
    pub closed spec fn img_width(self) -> int {
        self.width as int
    }

    /// The full image height this iterator was built for.
    pub closed spec fn img_height(self) -> int {
        self.height as int
    }

    /// Start at the first pass.
    pub fn new(width: usize, height: usize) -> (r: Adam7Iter)
        requires
            (width as int) * (height as int) <= usize::MAX,
        ensures
            r.wf(),
            r.pass() == 0,
            r.img_width() == width as int,
            r.img_height() == height as int,
    {
        Adam7Iter { current_pass: 0, width, height }
    }

    /// The fixed descriptor of a pass: its starting row and column and its
    /// row and column strides.
    pub fn pass_parameters(pass: usize) -> (r: (usize, usize, usize, usize))
        requires
            pass < 7,
        ensures
            r.0 == pass_row_start(pass as int),
            r.1 == pass_col_start(pass as int),
            r.2 == pass_row_stride(pass as int),
            r.3 == pass_col_stride(pass as int),
    {
        match pass {
            0 => (0, 0, 8, 8),
            1 => (0, 4, 8, 8),
            2 => (4, 0, 8, 4),
            3 => (0, 2, 4, 4),
            4 => (2, 0, 4, 2),
            5 => (0, 1, 2, 2),
            _ => (1, 0, 2, 1),
        }
    }

    /// The next non-empty pass's sub-image, or nothing once the passes are
    /// exhausted.  The sub-image carries its pass's dimensions and a fresh
    /// cursor over its pass's absolute pixel indices.
    pub fn next(&mut self) -> (r: Option<SubImage>)
        requires
            old(self).wf(),
        ensures
            final(self).wf(),
            final(self).img_width() == old(self).img_width(),
            final(self).img_height() == old(self).img_height(),
            ({
                let p = next_nonempty_pass(
                    old(self).img_width(),
                    old(self).img_height(),
                    old(self).pass(),
                );
                if p == 7 {
                    r is None && final(self).pass() == 7
                } else {
                    &&& r matches Some(s)
                    &&& s.width == pass_width_spec(old(self).img_width(), p)
                    &&& s.height == pass_height_spec(old(self).img_height(), p)
                    &&& s.pixel_indices.wf()
                    &&& s.pixel_indices.index_seq() == pass_index_seq(
                        old(self).img_width(),
                        old(self).img_height(),
                        p,
                    )
                    &&& s.pixel_indices.pos() == 0
                    &&& final(self).pass() == p + 1
                }
            }),
    {
        let ghost w = self.width as int;
        let ghost h = self.height as int;
        while self.current_pass < 7
            invariant
                self.wf(),
                w == self.width as int,
                h == self.height as int,
                old(self).img_width() == w,
                old(self).img_height() == h,
                0 <= old(self).pass() <= self.current_pass <= 7,
                next_nonempty_pass(w, h, old(self).pass()) == next_nonempty_pass(
                    w,
                    h,
                    self.current_pass as int,
                ),
            decreases 7 - self.current_pass,
        {
            let pass = self.current_pass;
            let (row_start, col_start, row_stride, col_stride) = Self::pass_parameters(pass);
            let pass_width = if self.width > col_start {
                div_ceil(self.width - col_start, col_stride)
            } else {
                0
            };
            let pass_height = if self.height > row_start {
                div_ceil(self.height - row_start, row_stride)
            } else {
                0
            };
            if pass_width == 0 || pass_height == 0 {
                self.current_pass = pass + 1;
                continue ;
            }
            self.current_pass = pass + 1;
            let indices = PixelIndicesIter::new(
                row_start,
                row_stride,
                col_start,
                col_stride,
                self.width,
                self.height,
            );
            return Some(SubImage { width: pass_width, height: pass_height, pixel_indices: indices });
        }
        Option::None
    }
}

/// Whether the pixel at row `r`, column `c` belongs to a pass's grid.
pub open spec fn pass_contains(pass: int, r: int, c: int) -> bool {
    &&& r % pass_row_stride(pass) == pass_row_start(pass)
    &&& c % pass_col_stride(pass) == pass_col_start(pass)
}

/// The single pass that covers the pixel at row `r`, column `c`.
pub open spec fn pass_of_spec(r: int, c: int) -> int {
    if r % 2 == 1 {
        6
    } else if c % 2 == 1 {
        5
    } else if r % 4 == 2 {
        4
    } else if c % 4 == 2 {
        3
    } else if r % 8 == 4 {
        2
    } else if c % 8 == 4 {
        1
    } else {
        0
    }
}

/// The residues of a coordinate modulo 2, 4 and 8 agree with each other.
proof fn lemma_mod_chain(x: int)
    requires
        0 <= x,
    ensures
        (x % 4) % 2 == x % 2,
        (x % 8) % 4 == x % 4,
        (x % 8) % 2 == x % 2,
{
    lemma_mod_mod(x, 2, 2);
    lemma_mod_mod(x, 4, 2);
    lemma_mod_mod(x, 2, 4);
}

/// Every pixel lies in the pass `pass_of_spec` names, and in no other:
/// the seven passes partition the image grid.
pub proof fn lemma_pass_partition(r: int, c: int)
    requires
        0 <= r,
        0 <= c,
    ensures
        0 <= pass_of_spec(r, c) < 7,
        pass_contains(pass_of_spec(r, c), r, c),
        forall|p: int| 0 <= p < 7 && p != pass_of_spec(r, c) ==> !pass_contains(p, r, c),
{
    lemma_mod_chain(r);
    lemma_mod_chain(c);
    assert forall|p: int| 0 <= p < 7 && p != pass_of_spec(r, c) implies !pass_contains(p, r, c) by {
        assert((r % 4) % 2 == r % 2);
        assert((c % 4) % 2 == c % 2);
    }
}

/// Every element of a pass's index sequence is an in-range pixel index
/// whose pixel the pass contains, and distinct cells yield distinct
/// indices.
pub proof fn lemma_pass_seq_element(w: int, h: int, pass: int, k: int)
    requires
        1 <= w,
        1 <= h,
        0 <= pass < 7,
        0 <= k < pass_index_seq(w, h, pass).len(),
    ensures
        0 <= pass_index_seq(w, h, pass)[k] < w * h,
        pass_contains(pass, pass_index_seq(w, h, pass)[k] / w, pass_index_seq(w, h, pass)[k] % w),
    decreases 0int,
{
    let rs = pass_row_start(pass);
    let rstr = pass_row_stride(pass);
    let cs = pass_col_start(pass);
    let cstr = pass_col_stride(pass);
    let nrows = steps_in(rs, rstr, h);
    let ncols = steps_in(cs, cstr, w);
    assert(ncols > 0) by {
        if ncols <= 0 {
            assert(nrows * ncols <= 0) by (nonlinear_arith)
                requires
                    ncols <= 0,
                    nrows >= 0,
            ;
        }
    }
    let i = k / ncols;
    let j = k % ncols;
    lemma_fundamental_div_mod(k, ncols);
    assert(0 <= i < nrows && 0 <= j < ncols) by (nonlinear_arith)
        requires
            0 <= k < nrows * ncols,
            ncols > 0,
            k == ncols * i + j,
            0 <= j < ncols,
    ;
    lemma_steps_in_bound(rs, rstr, h, i);
    lemma_steps_in_bound(cs, cstr, w, j);
    let r = rs + i * rstr;
    let c = cs + j * cstr;
    let idx = r * w + c;
    assert(pass_index_seq(w, h, pass)[k] == idx);
    assert(0 <= idx < w * h) by (nonlinear_arith)
        requires
            0 <= r < h,
            0 <= c < w,
            idx == r * w + c,
    ;
    lemma_fundamental_div_mod_converse(idx, w, r, c);
    lemma_mod_multiples_vanish(i, rs, rstr);
    lemma_mod_multiples_vanish(j, cs, cstr);
    assert(r == rstr * i + rs) by (nonlinear_arith)
        requires
            r == rs + i * rstr,
    ;
    assert(c == cstr * j + cs) by (nonlinear_arith)
        requires
            c == cs + j * cstr,
    ;
}

/// Distinct positions in a pass's index sequence hold distinct indices.
pub proof fn lemma_pass_seq_distinct(w: int, h: int, pass: int, k1: int, k2: int)
    requires
        1 <= w,
        1 <= h,
        0 <= pass < 7,
        0 <= k1 < pass_index_seq(w, h, pass).len(),
        0 <= k2 < pass_index_seq(w, h, pass).len(),
        k1 != k2,
    ensures
        pass_index_seq(w, h, pass)[k1] != pass_index_seq(w, h, pass)[k2],
{
    let rs = pass_row_start(pass);
    let rstr = pass_row_stride(pass);
    let cs = pass_col_start(pass);
    let cstr = pass_col_stride(pass);
    let nrows = steps_in(rs, rstr, h);
    let ncols = steps_in(cs, cstr, w);
    assert(ncols > 0) by {
        if ncols <= 0 {
            assert(nrows * ncols <= 0) by (nonlinear_arith)
                requires
                    ncols <= 0,
                    nrows >= 0,
            ;
        }
    }
    let i1 = k1 / ncols;
    let j1 = k1 % ncols;
    let i2 = k2 / ncols;
    let j2 = k2 % ncols;
    lemma_fundamental_div_mod(k1, ncols);
    lemma_fundamental_div_mod(k2, ncols);
    assert(0 <= i1 < nrows && 0 <= i2 < nrows) by (nonlinear_arith)
        requires
            0 <= k1 < nrows * ncols,
            0 <= k2 < nrows * ncols,
            ncols > 0,
            k1 == ncols * i1 + j1,
            k2 == ncols * i2 + j2,
            0 <= j1 < ncols,
            0 <= j2 < ncols,
    ;
    lemma_steps_in_bound(rs, rstr, h, i1);
    lemma_steps_in_bound(cs, cstr, w, j1);
    lemma_steps_in_bound(rs, rstr, h, i2);
    lemma_steps_in_bound(cs, cstr, w, j2);
    let r1 = rs + i1 * rstr;
    let c1 = cs + j1 * cstr;
    let r2 = rs + i2 * rstr;
    let c2 = cs + j2 * cstr;
    assert(r1 * w + c1 != r2 * w + c2) by (nonlinear_arith)
        requires
            0 <= c1 < w,
            0 <= c2 < w,
            0 <= r1,
            0 <= r2,
            rstr >= 1,
            cstr >= 1,
            r1 == rs + i1 * rstr,
            r2 == rs + i2 * rstr,
            c1 == cs + j1 * cstr,
            c2 == cs + j2 * cstr,
            i1 != i2 || j1 != j2,
    ;
}

/// A pixel a pass contains appears in that pass's index sequence.
pub proof fn lemma_pass_seq_cover(w: int, h: int, pass: int, r: int, c: int)
    requires
        1 <= w,
        1 <= h,
        0 <= pass < 7,
        0 <= r < h,
        0 <= c < w,
        pass_contains(pass, r, c),
    ensures
        pass_index_seq(w, h, pass).contains(r * w + c),
{
    let rs = pass_row_start(pass);
    let rstr = pass_row_stride(pass);
    let cs = pass_col_start(pass);
    let cstr = pass_col_stride(pass);
    let nrows = steps_in(rs, rstr, h);
    let ncols = steps_in(cs, cstr, w);
    lemma_fundamental_div_mod(r, rstr);
    lemma_fundamental_div_mod(c, cstr);
    assert(r >= rs && (r - rs) % rstr == 0) by (nonlinear_arith)
        requires
            r == rstr * (r / rstr) + r % rstr,
            r % rstr == rs,
            0 <= r,
            rstr >= 1,
            0 <= rs < rstr,
    ;
    assert(c >= cs && (c - cs) % cstr == 0) by (nonlinear_arith)
        requires
            c == cstr * (c / cstr) + c % cstr,
            c % cstr == cs,
            0 <= c,
            cstr >= 1,
            0 <= cs < cstr,
    ;
    lemma_steps_in_cover(rs, rstr, h, r);
    lemma_steps_in_cover(cs, cstr, w, c);
    let i = (r - rs) / rstr;
    let j = (c - cs) / cstr;
    let k = i * ncols + j;
    assert(0 <= k < nrows * ncols) by (nonlinear_arith)
        requires
            0 <= i < nrows,
            0 <= j < ncols,
            k == i * ncols + j,
    ;
    lemma_fundamental_div_mod_converse(k, ncols, i, j);
    assert(pass_index_seq(w, h, pass)[k] == (rs + (k / ncols) * rstr) * w + cs + (k % ncols)
        * cstr);
    assert(pass_index_seq(w, h, pass)[k] == r * w + c);
}

/// Adam7 completeness: over a `w` by `h` image, every pixel index below
/// `w * h` appears in the index sequence of exactly one of the seven
/// passes, and exactly once within it.
pub proof fn lemma_adam7_partition(w: int, h: int, idx: int)
    requires
        1 <= w,
        1 <= h,
        0 <= idx < w * h,
    ensures
        exists|p: int|
            0 <= p < 7 && #[trigger] pass_index_seq(w, h, p).contains(idx),
        forall|p1: int, p2: int|
            0 <= p1 < 7 && 0 <= p2 < 7 && #[trigger] pass_index_seq(w, h, p1).contains(idx)
                && #[trigger] pass_index_seq(w, h, p2).contains(idx) ==> p1 == p2,
{
    let r = idx / w;
    let c = idx % w;
    lemma_fundamental_div_mod(idx, w);
    assert(0 <= r < h && 0 <= c < w) by (nonlinear_arith)
        requires
            0 <= idx < w * h,
            w >= 1,
            idx == w * r + c,
            0 <= c < w,
    ;
    assert(idx == r * w + c) by (nonlinear_arith)
        requires
            idx == w * r + c,
    ;
    lemma_pass_partition(r, c);
    let p0 = pass_of_spec(r, c);
    lemma_pass_seq_cover(w, h, p0, r, c);
    assert(pass_index_seq(w, h, p0).contains(idx));
    assert forall|p1: int, p2: int|
        0 <= p1 < 7 && 0 <= p2 < 7 && #[trigger] pass_index_seq(w, h, p1).contains(idx)
            && #[trigger] pass_index_seq(w, h, p2).contains(idx) implies p1 == p2 by {
        let k1 = choose|k: int| 0 <= k < pass_index_seq(w, h, p1).len() && pass_index_seq(w, h, p1)[k] == idx;
        let k2 = choose|k: int| 0 <= k < pass_index_seq(w, h, p2).len() && pass_index_seq(w, h, p2)[k] == idx;
        lemma_pass_seq_element(w, h, p1, k1);
        lemma_pass_seq_element(w, h, p2, k2);
        lemma_pass_partition(r, c);
    }
}

} // verus!
