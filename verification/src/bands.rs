use crate::grid::Bounds;
use vstd::prelude::*;

verus! {

/// A horizontal slice of an image: the rows `top .. top + height`.
#[derive(Clone, Copy, Debug, PartialEq, Eq, Structural)]
pub struct Band {
    pub top: usize,
    pub height: usize,
}

impl Band {
    /// The band lies within an image of the size `bounds` and is not empty.
    pub open spec fn within(&self, bounds: Bounds) -> bool {
        &&& self.height >= 1
        &&& self.top + self.height <= bounds.height
    }

    /// Size of the band as an image of its own: as wide as the whole image.
    pub fn bounds(&self, whole: &Bounds) -> (r: Bounds)
        requires
            whole.wf(),
            self.within(*whole),
        ensures
            r == (Bounds { width: whole.width, height: self.height }),
            r.wf(),
    {
        proof {
            assert(whole.width * self.height <= whole.width * whole.height) by (nonlinear_arith)
                requires
                    self.height <= whole.height,
                    0 <= whole.width,
            ;
        }
        Bounds { width: whole.width, height: self.height }
    }

    /// Position of the band's first byte in the buffer of the whole image.
    pub fn start(&self, whole: &Bounds) -> (r: usize)
        requires
            whole.wf(),
            self.within(*whole),
        ensures
            r == self.top * whole.width,
            r + self.height * whole.width <= whole.pixel_count(),
    {
        proof {
            assert(self.top * whole.width + self.height * whole.width == (self.top + self.height)
                * whole.width && (self.top + self.height) * whole.width <= whole.height
                * whole.width && whole.height * whole.width == whole.width * whole.height && 0
                <= self.height * whole.width) by (nonlinear_arith)
                requires
                    self.top + self.height <= whole.height,
                    0 <= whole.width,
                    0 <= self.height,
                    0 <= self.top,
            ;
        }
        self.top * whole.width
    }

    /// The pixels of the whole image at the band's upper left corner and
    /// just past its lower right corner, as (column, row).
    pub fn corners(&self, whole: &Bounds) -> (r: ((usize, usize), (usize, usize)))
        requires
            self.within(*whole),
        ensures
            r == ((0usize, self.top), (whole.width, (self.top + self.height) as usize)),
    {
        ((0, self.top), (whole.width, self.top + self.height))
    }
}

/// Rows given to each band when `height` rows are shared among `workers`
/// workers. One more than the quotient, so that `workers` bands always
/// suffice; the last band takes what is left.
pub open spec fn rows_per_band(height: int, workers: int) -> int {
    height / workers + 1
}

/// How many bands the rows fall into: the rows divided by the rows per band,
/// rounded up.
pub open spec fn band_count(height: int, workers: int) -> int {
    let rows = rows_per_band(height, workers);
    (height + rows - 1) / rows
}

/// First row of band `i`.
pub open spec fn band_top(height: int, workers: int, i: int) -> int {
    i * rows_per_band(height, workers)
}

/// Number of rows in band `i`: a full share, or the rows that remain.
pub open spec fn band_height(height: int, workers: int, i: int) -> int {
    let rows = rows_per_band(height, workers);
    if height - i * rows < rows {
        height - i * rows
    } else {
        rows
    }
}

/// Band `i` of the partition.
pub open spec fn band_at(height: int, workers: int, i: int) -> Band {
    Band {
        top: band_top(height, workers, i) as usize,
        height: band_height(height, workers, i) as usize,
    }
}

/// The band that holds `row`.
pub open spec fn band_of_row(height: int, workers: int, row: int) -> int {
    row / rows_per_band(height, workers)
}

/// The share of rows is positive, and `workers` shares cover all rows.
pub proof fn lemma_rows_per_band(height: int, workers: int)
    requires
        0 <= height,
        1 <= workers,
    ensures
        1 <= rows_per_band(height, workers) <= height + 1,
        workers * rows_per_band(height, workers) > height,
        workers >= 2 && height >= 1 ==> rows_per_band(height, workers) <= height,
{
    let q = height / workers;
    vstd::arithmetic::div_mod::lemma_fundamental_div_mod(height, workers);
    vstd::arithmetic::div_mod::lemma_div_pos_is_pos(height, workers);
    vstd::arithmetic::div_mod::lemma_mod_bound(height, workers);
    assert(workers * (q + 1) == workers * q + workers) by (nonlinear_arith);
    assert(q <= height) by (nonlinear_arith)
        requires
            height == workers * q + height % workers,
            0 <= height % workers,
            workers >= 1,
            q >= 0,
    ;
    if workers >= 2 && height >= 1 {
        assert(q + 1 <= height) by (nonlinear_arith)
            requires
                height == workers * q + height % workers,
                0 <= height % workers,
                workers >= 2,
                q >= 0,
                height >= 1,
        ;
    }
}

/// A count `n` of shares that reaches `height` while `n - 1` shares do not
/// is the number of bands.
pub proof fn lemma_band_count_is(height: int, workers: int, n: int)
    requires
        0 <= height,
        1 <= workers,
        0 <= n,
        n * rows_per_band(height, workers) >= height,
        n > 0 ==> (n - 1) * rows_per_band(height, workers) < height,
    ensures
        n == band_count(height, workers),
{
    let rows = rows_per_band(height, workers);
    lemma_rows_per_band(height, workers);
    if n == 0 {
        assert(height == 0);
        vstd::arithmetic::div_mod::lemma_fundamental_div_mod_converse(rows - 1, rows, 0, rows - 1);
    } else {
        let r = height + rows - 1 - n * rows;
        assert((n - 1) * rows == n * rows - rows) by (nonlinear_arith);
        vstd::arithmetic::div_mod::lemma_fundamental_div_mod_converse(
            height + rows - 1,
            rows,
            n,
            r,
        );
    }
}

/// No more bands than workers.
pub proof fn lemma_band_count_bounded(height: int, workers: int)
    requires
        0 <= height,
        1 <= workers,
    ensures
        0 <= band_count(height, workers) <= workers,
        height > 0 ==> band_count(height, workers) >= 1,
        height == 0 ==> band_count(height, workers) == 0,
{
    let rows = rows_per_band(height, workers);
    let n = band_count(height, workers);
    lemma_rows_per_band(height, workers);
    vstd::arithmetic::div_mod::lemma_fundamental_div_mod(height + rows - 1, rows);
    vstd::arithmetic::div_mod::lemma_mod_bound(height + rows - 1, rows);
    vstd::arithmetic::div_mod::lemma_div_pos_is_pos(height + rows - 1, rows);
    // n * rows <= height + rows - 1 < (n + 1) * rows
    assert(rows * n == n * rows) by (nonlinear_arith);
    assert((n + 1) * rows == n * rows + rows) by (nonlinear_arith);
    if n > workers {
        assert(n * rows >= (workers + 1) * rows) by (nonlinear_arith)
            requires
                n >= workers + 1,
                rows >= 1,
        ;
        assert((workers + 1) * rows == workers * rows + rows) by (nonlinear_arith);
    }
    if height > 0 && n <= 0 {
        assert(n * rows <= 0) by (nonlinear_arith)
            requires
                n <= 0,
                rows >= 1,
        ;
    }
    if height == 0 && n >= 1 {
        assert(n * rows >= rows) by (nonlinear_arith)
            requires
                n >= 1,
                rows >= 1,
        ;
    }
}

/// The bands tile the rows in order: the first starts at row 0, each is
/// non-empty and no taller than a share, each starts where the one before
/// ends, and the last ends at `height`.
pub proof fn lemma_bands_tile(height: int, workers: int, i: int)
    requires
        0 <= height,
        1 <= workers,
        0 <= i < band_count(height, workers),
    ensures
        band_top(height, workers, 0) == 0,
        1 <= band_height(height, workers, i) <= rows_per_band(height, workers),
        0 <= band_top(height, workers, i) < height,
        band_top(height, workers, i) + band_height(height, workers, i) <= height,
        band_top(height, workers, i + 1) == band_top(height, workers, i) + rows_per_band(
            height,
            workers,
        ),
        i + 1 < band_count(height, workers) ==> band_top(height, workers, i + 1) == band_top(
            height,
            workers,
            i,
        ) + band_height(height, workers, i),
        i + 1 == band_count(height, workers) ==> band_top(height, workers, i) + band_height(
            height,
            workers,
            i,
        ) == height,
{
    let rows = rows_per_band(height, workers);
    let n = band_count(height, workers);
    lemma_rows_per_band(height, workers);
    vstd::arithmetic::div_mod::lemma_fundamental_div_mod(height + rows - 1, rows);
    vstd::arithmetic::div_mod::lemma_mod_bound(height + rows - 1, rows);
    assert(rows * n == n * rows) by (nonlinear_arith);
    assert((i + 1) * rows == i * rows + rows) by (nonlinear_arith);
    assert(0 <= i * rows) by (nonlinear_arith)
        requires
            0 <= i,
            1 <= rows,
    ;
    // (n - 1) * rows < height, because n * rows <= height + rows - 1
    assert((i + 1) * rows <= n * rows) by (nonlinear_arith)
        requires
            i + 1 <= n,
            1 <= rows,
    ;
    if i + 1 < n {
        assert((i + 2) * rows <= n * rows) by (nonlinear_arith)
            requires
                i + 2 <= n,
                1 <= rows,
        ;
        assert((i + 2) * rows == i * rows + rows + rows) by (nonlinear_arith);
    }
    // height <= n * rows, because height + rows - 1 < (n + 1) * rows
    assert((n + 1) * rows == n * rows + rows) by (nonlinear_arith);
}

/// Every row lies in exactly one band: band `band_of_row` holds it, and no
/// other band does.
pub proof fn lemma_row_in_one_band(height: int, workers: int, row: int, i: int)
    requires
        1 <= workers,
        0 <= row < height,
        0 <= i < band_count(height, workers),
    ensures
        0 <= band_of_row(height, workers, row) < band_count(height, workers),
        (band_top(height, workers, i) <= row < band_top(height, workers, i) + band_height(
            height,
            workers,
            i,
        )) <==> i == band_of_row(height, workers, row),
{
    let rows = rows_per_band(height, workers);
    let n = band_count(height, workers);
    let k = row / rows;
    lemma_rows_per_band(height, workers);
    lemma_bands_tile(height, workers, i);
    vstd::arithmetic::div_mod::lemma_fundamental_div_mod(row, rows);
    vstd::arithmetic::div_mod::lemma_mod_bound(row, rows);
    vstd::arithmetic::div_mod::lemma_div_pos_is_pos(row, rows);
    assert(rows * k == k * rows) by (nonlinear_arith);
    // k < n: otherwise n * rows <= k * rows <= row < height <= n * rows
    vstd::arithmetic::div_mod::lemma_fundamental_div_mod(height + rows - 1, rows);
    vstd::arithmetic::div_mod::lemma_mod_bound(height + rows - 1, rows);
    assert(rows * n == n * rows) by (nonlinear_arith);
    assert((n + 1) * rows == n * rows + rows) by (nonlinear_arith);
    if k >= n {
        assert(k * rows >= n * rows) by (nonlinear_arith)
            requires
                k >= n,
                rows >= 1,
        ;
    }
    if band_top(height, workers, i) <= row < band_top(height, workers, i) + band_height(
        height,
        workers,
        i,
    ) {
        vstd::arithmetic::div_mod::lemma_fundamental_div_mod_converse(
            row,
            rows,
            i,
            row - i * rows,
        );
    }
    if i == k {
        assert(row - k * rows < rows);
        assert(row < height);
    }
}

/// The partition of `height` rows among `workers` workers, in row order.
pub fn partition(height: usize, workers: usize) -> (bands: Vec<Band>)
    requires
        workers >= 1,
    ensures
        bands@.len() == band_count(height as int, workers as int),
        forall|i: int|
            0 <= i < bands@.len() ==> #[trigger] bands@[i] == band_at(
                height as int,
                workers as int,
                i,
            ),
{
    let ghost rows = rows_per_band(height as int, workers as int);
    proof {
        lemma_rows_per_band(height as int, workers as int);
    }
    // The share, capped at the number of rows: a band never holds more.
    let share: usize = if workers == 1 {
        height
    } else {
        height / workers + 1
    };
    let mut bands: Vec<Band> = Vec::new();
    let mut top: usize = 0;
    assert(0 * rows == 0) by (nonlinear_arith);
    while top < height
        invariant
            1 <= workers,
            rows == rows_per_band(height as int, workers as int),
            1 <= rows,
            share == rows || (share == height && rows == height + 1),
            top <= height,
            top < height ==> top == bands@.len() * rows,
            top == height ==> bands@.len() * rows >= height,
            bands@.len() > 0 ==> (bands@.len() - 1) * rows < height,
            forall|i: int|
                0 <= i < bands@.len() ==> #[trigger] bands@[i] == band_at(
                    height as int,
                    workers as int,
                    i,
                ),
        decreases height - top,
    {
        let ghost i = bands@.len() as int;
        let left: usize = height - top;
        let rows_here: usize = if left < share {
            left
        } else {
            share
        };
        proof {
            assert((i + 1) * rows == i * rows + rows) by (nonlinear_arith);
            assert(rows_here == band_height(height as int, workers as int, i));
            assert(top == band_top(height as int, workers as int, i));
        }
        bands.push(Band { top, height: rows_here });
        top = top + rows_here;
    }
    proof {
        lemma_band_count_is(height as int, workers as int, bands@.len() as int);
    }
    bands
}

/// Every band of the partition lies within the image and is not empty.
pub proof fn lemma_band_within(bounds: Bounds, workers: int, i: int)
    requires
        1 <= workers,
        0 <= i < band_count(bounds.height as int, workers),
    ensures
        band_at(bounds.height as int, workers, i).within(bounds),
        band_at(bounds.height as int, workers, i).top == band_top(bounds.height as int, workers, i),
        band_at(bounds.height as int, workers, i).height == band_height(
            bounds.height as int,
            workers,
            i,
        ),
{
    lemma_bands_tile(bounds.height as int, workers, i);
}

} // verus!
