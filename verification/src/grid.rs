use vstd::prelude::*;

verus! {

/// The size of a pixel grid: `width` columns by `height` rows, stored
/// row-major with one byte per pixel.
#[derive(Clone, Copy, Debug, PartialEq, Eq, Structural)]
pub struct Bounds {
    pub width: usize,
    pub height: usize,
}

impl Bounds {
    /// Both sides are positive and the number of pixels is representable, so
    /// that a buffer for the grid can be indexed.
    pub open spec fn wf(&self) -> bool {
        &&& self.width > 0
        &&& self.height > 0
        &&& self.width * self.height <= usize::MAX
    }

    /// Number of pixels in the grid.
    pub open spec fn pixel_count(&self) -> int {
        self.width * self.height
    }

    /// Position of pixel (`column`, `row`) in a row-major buffer.
    pub open spec fn spec_offset(&self, column: int, row: int) -> int {
        row * self.width + column
    }

    /// A grid of `width` by `height` pixels, unless a side is zero or the
    /// pixel count does not fit in `usize`.
    pub fn new(width: usize, height: usize) -> (r: Option<Bounds>)
        ensures
            r == if width > 0 && height > 0 && width * height <= usize::MAX {
                Some(Bounds { width, height })
            } else {
                None::<Bounds>
            },
    {
        if width == 0 || height == 0 {
            return None;
        }
        match width.checked_mul(height) {
            Some(_) => Some(Bounds { width, height }),
            None => None,
        }
    }

    /// Length of a buffer holding every pixel of the grid.
    pub fn len(&self) -> (n: usize)
        requires
            self.wf(),
        ensures
            n == self.pixel_count(),
    {
        self.width * self.height
    }

    /// Index of pixel (`column`, `row`) in a row-major buffer of the grid.
    pub fn offset(&self, column: usize, row: usize) -> (i: usize)
        requires
            self.wf(),
            column < self.width,
            row < self.height,
        ensures
            i == self.spec_offset(column as int, row as int),
            i < self.pixel_count(),
    {
        proof {
            lemma_offset_in_range(self.width as int, self.height as int, column as int, row as int);
        }
        row * self.width + column
    }
}

/// A pixel inside a `width` by `height` grid has a row-major position inside
/// the grid's buffer.
pub proof fn lemma_offset_in_range(width: int, height: int, column: int, row: int)
    requires
        0 <= column < width,
        0 <= row < height,
    ensures
        0 <= row * width <= row * width + column < width * height,
{
    assert(0 <= row * width && (row + 1) * width <= height * width && (row + 1) * width == row
        * width + width && height * width == width * height) by (nonlinear_arith)
        requires
            0 <= row < height,
            0 < width,
    ;
}

/// Distinct pixels of a grid occupy distinct positions: the position
/// determines column and row.
pub proof fn lemma_offset_injective(width: int, column: int, row: int)
    requires
        0 <= column < width,
        0 <= row,
    ensures
        (row * width + column) / width == row,
        (row * width + column) % width == column,
{
    vstd::arithmetic::div_mod::lemma_fundamental_div_mod_converse(
        row * width + column,
        width,
        row,
        column,
    );
}

} // verus!
