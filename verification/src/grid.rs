//! The pixel grid and its row-major layout.
//!
//! A sequence that holds one entry per pixel holds them row after row: the
//! pixel at column `x` of row `y` is entry `y * width + x`.

use vstd::prelude::*;

verus! {

/// The dimensions of the pixel grid.
#[derive(Clone, Copy, Debug, PartialEq, Eq, Structural)]
pub struct ImageSpec {
    pub width: usize,
    pub height: usize,
}

impl ImageSpec {
    /// The number of pixels of the grid.
    pub open spec fn pixel_count(&self) -> nat {
        (self.width * self.height) as nat
    }

    /// Whether a buffer of four bytes per pixel can be addressed.
    pub open spec fn addressable(&self) -> bool {
        4 * self.pixel_count() <= usize::MAX
    }

    /// The position in the field of the pixel at column `x` of row `y`.
    pub open spec fn index_of(&self, x: int, y: int) -> int {
        y * self.width + x
    }

    /// Tells whether a buffer of four bytes per pixel can be addressed.
    pub fn admits_buffer(&self) -> (ok: bool)
        ensures
            ok <==> self.addressable(),
    {
        match self.width.checked_mul(self.height) {
            Some(count) => count <= usize::MAX / 4,
            None => false,
        }
    }

    /// Tells whether a field of `field_len` results covers this grid and can
    /// be rendered into an addressable buffer.
    pub fn admits(&self, field_len: usize) -> (ok: bool)
        ensures
            ok <==> field_len == self.pixel_count() && self.addressable(),
    {
        match self.width.checked_mul(self.height) {
            Some(count) => count == field_len && count <= usize::MAX / 4,
            None => false,
        }
    }

    /// The position in the field of the pixel at column `x` of row `y`.
    pub fn pixel_index(&self, x: usize, y: usize) -> (i: usize)
        requires
            x < self.width,
            y < self.height,
            self.pixel_count() <= usize::MAX,
        ensures
            i == self.index_of(x as int, y as int),
            i < self.pixel_count(),
    {
        proof {
            lemma_index_in_grid(*self, x as int, y as int);
        }
        y * self.width + x
    }
}

/// A pixel inside the grid has a position inside the field.
pub proof fn lemma_index_in_grid(spec: ImageSpec, x: int, y: int)
    requires
        0 <= x < spec.width,
        0 <= y < spec.height,
    ensures
        0 <= y * spec.width <= spec.index_of(x, y) < spec.pixel_count(),
{
    let w = spec.width as int;
    let h = spec.height as int;
    assert(0 <= y * w && y * w + w <= w * h) by (nonlinear_arith)
        requires
            0 <= y < h,
            0 <= w,
    ;
}

/// Different pixels of the grid have different positions in the field.
pub proof fn lemma_index_distinct(spec: ImageSpec, x1: int, y1: int, x2: int, y2: int)
    requires
        0 <= x1 < spec.width,
        0 <= x2 < spec.width,
        spec.index_of(x1, y1) == spec.index_of(x2, y2),
    ensures
        x1 == x2,
        y1 == y2,
{
    let w = spec.width as int;
    assert(y1 == y2) by (nonlinear_arith)
        requires
            0 <= x1 < w,
            0 <= x2 < w,
            y1 * w + x1 == y2 * w + x2,
    ;
}

/// Every position in the field belongs to a pixel of the grid: position `i`
/// is column `i % width` of row `i / width`.
pub proof fn lemma_index_covers(spec: ImageSpec, i: int)
    requires
        0 <= i < spec.pixel_count(),
    ensures
        spec.width > 0,
        0 <= i % (spec.width as int) < spec.width,
        0 <= i / (spec.width as int) < spec.height,
        spec.index_of(i % (spec.width as int), i / (spec.width as int)) == i,
{
    let w = spec.width as int;
    let h = spec.height as int;
    assert(w > 0) by (nonlinear_arith)
        requires
            0 <= i < w * h,
            0 <= w,
    ;
    vstd::arithmetic::div_mod::lemma_fundamental_div_mod(i, w);
    vstd::arithmetic::div_mod::lemma_mod_bound(i, w);
    assert(0 <= i / w < h) by (nonlinear_arith)
        requires
            0 <= i < w * h,
            w > 0,
            i == w * (i / w) + i % w,
            0 <= i % w < w,
    ;
    assert(w * (i / w) == (i / w) * w) by (nonlinear_arith);
}

/// The part of a row-major sequence that lies in rows `row_start` up to, not including,
/// `row_end`.
pub open spec fn rows<T>(spec: ImageSpec, field: Seq<T>, row_start: int, row_end: int) -> Seq<T> {
    field.subrange(row_start * spec.width, row_end * spec.width)
}

/// Cut points that split rows `0..height` into consecutive row ranges.
pub open spec fn splits_rows(spec: ImageSpec, cuts: Seq<int>) -> bool {
    &&& cuts.len() >= 1
    &&& cuts[0] == 0
    &&& cuts.last() == spec.height
    &&& forall|k: int| 0 <= k < cuts.len() - 1 ==> cuts[k] <= #[trigger] cuts[k + 1]
}

/// Rows are laid out one after the other: a row range of the grid is a
/// range of positions within the field.
pub proof fn lemma_row_bounds(spec: ImageSpec, row_start: int, row_end: int)
    requires
        0 <= row_start <= row_end <= spec.height,
    ensures
        0 <= row_start * spec.width <= row_end * spec.width <= spec.pixel_count(),
        row_end * spec.width - row_start * spec.width == (row_end - row_start) * spec.width,
{
    let w = spec.width as int;
    let h = spec.height as int;
    assert(0 <= row_start * w <= row_end * w <= h * w && row_end * w - row_start * w == (row_end
        - row_start) * w && h * w == w * h) by (nonlinear_arith)
        requires
            0 <= row_start <= row_end <= h,
            0 <= w,
    ;
}

/// In row-major order an earlier row comes before a later one, whatever the
/// columns.
pub proof fn lemma_rows_in_order(width: int, x1: int, y1: int, x2: int, y2: int)
    requires
        0 <= x1 < width,
        0 <= x2,
        0 <= y1 < y2,
    ensures
        0 <= y1 * width + x1 < y2 * width + x2,
{
    assert(0 <= y1 * width && y1 * width + width <= y2 * width) by (nonlinear_arith)
        requires
            0 <= y1 < y2,
            0 <= width,
    ;
}

} // verus!
