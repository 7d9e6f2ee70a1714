use crate::bands::{
    band_at, band_count, band_height, band_of_row, band_top, lemma_band_count_bounded,
    lemma_bands_tile, lemma_row_in_one_band, partition, rows_per_band, Band,
};
use crate::grid::{lemma_offset_in_range, lemma_offset_injective, Bounds};
use vstd::prelude::*;

verus! {

/// Number of iterations after which a point counts as inside the set.
pub const ITERATION_LIMIT: usize = 255;

/// Gray level of a pixel: black for a point that stays within, otherwise the
/// lighter the sooner it escaped.
pub open spec fn shade_of(escape: Option<usize>) -> u8 {
    match escape {
        None => 0u8,
        Some(count) => if count < 255 {
            (255 - count) as u8
        } else {
            0u8
        },
    }
}

/// Gray level of a pixel whose point has the escape time `escape`.
pub fn shade(escape: Option<usize>) -> (level: u8)
    ensures
        level == shade_of(escape),
{
    match escape {
        None => 0,
        Some(count) => if count < 255 {
            255 - (count as u8)
        } else {
            0
        },
    }
}

/// `level` is a gray level that pixel (`column`, `row`) may get: the shade
/// of an escape time that `evaluate` may give, at the iteration limit, for a
/// point that `map` may give for the pixel.
pub open spec fn is_shade_at<C, M: Fn(usize, usize) -> C, V: Fn(C, usize) -> Option<usize>>(
    map: M,
    evaluate: V,
    column: usize,
    row: usize,
    level: u8,
) -> bool {
    exists|point: C, escape: Option<usize>|
        {
            &&& map.ensures((column, row), point)
            &&& #[trigger] evaluate.ensures((point, ITERATION_LIMIT), escape)
            &&& level == shade_of(escape)
        }
}

/// `map` accepts every pixel of the grid, and `evaluate` accepts every point
/// that `map` gives, at the iteration limit.
pub open spec fn can_render<C, M: Fn(usize, usize) -> C, V: Fn(C, usize) -> Option<usize>>(
    bounds: Bounds,
    map: M,
    evaluate: V,
) -> bool {
    &&& forall|column: usize, row: usize|
        column < bounds.width && row < bounds.height ==> #[trigger] map.requires((column, row))
    &&& forall|column: usize, row: usize, point: C|
        column < bounds.width && row < bounds.height && #[trigger] map.ensures(
            (column, row),
            point,
        ) ==> evaluate.requires((point, ITERATION_LIMIT))
}

/// `pixels` is a rendering of the grid: a row-major buffer in which every
/// pixel holds a gray level that it may get.
pub open spec fn is_rendering<C, M: Fn(usize, usize) -> C, V: Fn(C, usize) -> Option<usize>>(
    bounds: Bounds,
    map: M,
    evaluate: V,
    pixels: Seq<u8>,
) -> bool {
    &&& pixels.len() == bounds.pixel_count()
    &&& forall|column: int, row: int|
        0 <= column < bounds.width && 0 <= row < bounds.height ==> is_shade_at(
            map,
            evaluate,
            column as usize,
            row as usize,
            pixels[#[trigger] bounds.spec_offset(column, row)],
        )
}

/// Renders the grid into `pixels`: for every pixel, maps it to a point,
/// evaluates the point's escape time at the iteration limit, and stores the
/// shade at the pixel's row-major position.
pub fn render<C, M: Fn(usize, usize) -> C, V: Fn(C, usize) -> Option<usize>>(
    pixels: &mut [u8],
    bounds: &Bounds,
    map: &M,
    evaluate: &V,
)
    requires
        bounds.wf(),
        old(pixels)@.len() == bounds.pixel_count(),
        can_render(*bounds, *map, *evaluate),
    ensures
        is_rendering(*bounds, *map, *evaluate, final(pixels)@),
{
    let width: usize = bounds.width;
    let height: usize = bounds.height;
    let mut row: usize = 0;
    while row < height
        invariant
            bounds.wf(),
            width == bounds.width,
            height == bounds.height,
            row <= height,
            pixels@.len() == bounds.pixel_count(),
            can_render(*bounds, *map, *evaluate),
            forall|p: int|
                0 <= p < row * width ==> is_shade_at(
                    *map,
                    *evaluate,
                    (p % (width as int)) as usize,
                    (p / (width as int)) as usize,
                    #[trigger] pixels@[p],
                ),
        decreases height - row,
    {
        let mut column: usize = 0;
        while column < width
            invariant
                bounds.wf(),
                width == bounds.width,
                height == bounds.height,
                row < height,
                column <= width,
                pixels@.len() == bounds.pixel_count(),
                can_render(*bounds, *map, *evaluate),
                forall|p: int|
                    0 <= p < row * width + column ==> is_shade_at(
                        *map,
                        *evaluate,
                        (p % (width as int)) as usize,
                        (p / (width as int)) as usize,
                        #[trigger] pixels@[p],
                    ),
            decreases width - column,
        {
            let point = map(column, row);
            let escape = evaluate(point, ITERATION_LIMIT);
            let level = shade(escape);
            let at = bounds.offset(column, row);
            proof {
                lemma_offset_injective(width as int, column as int, row as int);
                assert(is_shade_at(*map, *evaluate, column, row, level));
            }
            pixels[at] = level;
            column += 1;
        }
        proof {
            assert((row + 1) * width == row * width + width) by (nonlinear_arith);
        }
        row += 1;
    }
    proof {
        assert forall|column: int, row: int|
            0 <= column < bounds.width && 0 <= row < bounds.height implies is_shade_at(
            *map,
            *evaluate,
            column as usize,
            row as usize,
            pixels@[#[trigger] bounds.spec_offset(column, row)],
        ) by {
            lemma_offset_in_range(width as int, height as int, column, row);
            lemma_offset_injective(width as int, column, row);
            assert(height * width == width * height) by (nonlinear_arith);
        }
    }
}

/// `level` is a gray level that pixel (`column`, `row`) of `band`, counted
/// from the band's first row, may get.
pub open spec fn is_band_shade_at<
    C,
    M: Fn(Band, usize, usize) -> C,
    V: Fn(C, usize) -> Option<usize>,
>(map: M, evaluate: V, band: Band, column: usize, row: usize, level: u8) -> bool {
    exists|point: C, escape: Option<usize>|
        {
            &&& map.ensures((band, column, row), point)
            &&& #[trigger] evaluate.ensures((point, ITERATION_LIMIT), escape)
            &&& level == shade_of(escape)
        }
}

/// `map` accepts every pixel of every band of the partition, and `evaluate`
/// accepts every point that `map` gives, at the iteration limit.
pub open spec fn can_render_banded<
    C,
    M: Fn(Band, usize, usize) -> C,
    V: Fn(C, usize) -> Option<usize>,
>(bounds: Bounds, workers: usize, map: M, evaluate: V) -> bool {
    &&& forall|i: int, column: usize, row: usize|
        0 <= i < band_count(bounds.height as int, workers as int) && column < bounds.width && row
            < band_height(bounds.height as int, workers as int, i) ==> #[trigger] map.requires(
            (band_at(bounds.height as int, workers as int, i), column, row),
        )
    &&& forall|band: Band, column: usize, row: usize, point: C| #[trigger]
        map.ensures((band, column, row), point) ==> evaluate.requires((point, ITERATION_LIMIT))
}

/// Position in the whole image's buffer of pixel (`column`, `row`) of band
/// `i`, the row counted from the band's first.
pub open spec fn band_offset(bounds: Bounds, workers: usize, i: int, column: int, row: int) -> int {
    bounds.spec_offset(column, band_top(bounds.height as int, workers as int, i) + row)
}

/// `pixels` is a rendering of the grid band by band: a row-major buffer of
/// the whole image in which every pixel of every band of the partition
/// holds a gray level that it may get as a pixel of that band.
pub open spec fn is_banded_rendering<
    C,
    M: Fn(Band, usize, usize) -> C,
    V: Fn(C, usize) -> Option<usize>,
>(bounds: Bounds, workers: usize, map: M, evaluate: V, pixels: Seq<u8>) -> bool {
    &&& pixels.len() == bounds.pixel_count()
    &&& forall|i: int, column: int, row: int|
        0 <= i < band_count(bounds.height as int, workers as int) && 0 <= column < bounds.width
            && 0 <= row < band_height(bounds.height as int, workers as int, i)
            ==> is_band_shade_at(
            map,
            evaluate,
            band_at(bounds.height as int, workers as int, i),
            column as usize,
            row as usize,
            pixels[#[trigger] band_offset(bounds, workers, i, column, row)],
        )
}

/// Renders the whole image band by band, one band after the other: the
/// buffer is allocated once, cut into the chunks of the partition, and each
/// chunk is rendered as an image of its own, the size of its band.
pub fn render_banded<C, M: Fn(Band, usize, usize) -> C, V: Fn(C, usize) -> Option<usize>>(
    bounds: &Bounds,
    workers: usize,
    map: &M,
    evaluate: &V,
) -> (pixels: Vec<u8>)
    requires
        bounds.wf(),
        workers >= 1,
        can_render_banded(*bounds, workers, *map, *evaluate),
    ensures
        is_banded_rendering(*bounds, workers, *map, *evaluate, pixels@),
{
    let width: usize = bounds.width;
    let height: usize = bounds.height;
    let mut pixels: Vec<u8> = vec![0u8; bounds.len()];
    let bands = partition(height, workers);
    let ghost count = band_count(height as int, workers as int);
    let ghost mut done: Seq<u8> = Seq::empty();
    let ghost mut rows_done: int = 0;
    proof {
        lemma_band_count_bounded(height as int, workers as int);
        lemma_bands_tile(height as int, workers as int, 0);
        assert(0 * width == 0) by (nonlinear_arith);
        assert((height - 0) * width == width * height) by (nonlinear_arith);
    }
    {
        let mut rest: &mut [u8] = pixels.as_mut_slice();
        let mut i: usize = 0;
        while i < bands.len()
            invariant
                bounds.wf(),
                width == bounds.width,
                height == bounds.height,
                workers >= 1,
                count == band_count(height as int, workers as int),
                can_render_banded(*bounds, workers, *map, *evaluate),
                bands@.len() == count,
                forall|j: int|
                    0 <= j < bands@.len() ==> #[trigger] bands@[j] == band_at(
                        height as int,
                        workers as int,
                        j,
                    ),
                i <= bands@.len(),
                0 <= rows_done <= height,
                i < count ==> rows_done == band_top(height as int, workers as int, i as int),
                i == count ==> rows_done == height,
                done.len() == rows_done * width,
                rest@.len() == (height - rows_done) * width,
                after_borrow(pixels)@ == done + final(rest)@,
                forall|j: int, column: int, row: int|
                    0 <= j < i && 0 <= column < width && 0 <= row < band_height(
                        height as int,
                        workers as int,
                        j,
                    ) ==> is_band_shade_at(
                        *map,
                        *evaluate,
                        band_at(height as int, workers as int, j),
                        column as usize,
                        row as usize,
                        done[#[trigger] band_offset(*bounds, workers, j, column, row)],
                    ),
            decreases bands@.len() - i,
        {
            let band: Band = bands[i];
            let ghost top = band_top(height as int, workers as int, i as int);
            let ghost rows = band_height(height as int, workers as int, i as int);
            proof {
                lemma_bands_tile(height as int, workers as int, i as int);
                assert(rows * width <= (height - top) * width && (height - top) * width <= height
                    * width && height * width == width * height && width * rows == rows * width
                    && (top + rows) * width == top * width + rows * width && (height - top
                    - rows) * width == (height - top) * width - rows * width)
                    by (nonlinear_arith)
                    requires
                        1 <= rows,
                        0 <= top,
                        top + rows <= height,
                        0 < width,
                ;
            }
            let band_bounds = band.bounds(bounds);
            let chunk_len: usize = band_bounds.len();
            let (chunk, tail) = rest.split_at_mut(chunk_len);
            let band_map = |column: usize, row: usize| -> (point: C)
                requires
                    map.requires((band, column, row)),
                ensures
                    map.ensures((band, column, row), point),
                { map(band, column, row) };
            render(chunk, &band_bounds, &band_map, evaluate);
            proof {
                let ghost before = done;
                done = done + chunk@;
                assert forall|j: int, column: int, row: int|
                    0 <= j < i + 1 && 0 <= column < width && 0 <= row < band_height(
                        height as int,
                        workers as int,
                        j,
                    ) implies is_band_shade_at(
                    *map,
                    *evaluate,
                    band_at(height as int, workers as int, j),
                    column as usize,
                    row as usize,
                    done[#[trigger] band_offset(*bounds, workers, j, column, row)],
                ) by {
                    let at = band_offset(*bounds, workers, j, column, row);
                    lemma_bands_tile(height as int, workers as int, j);
                    if j < i {
                        lemma_band_below(height as int, workers as int, j, i as int);
                        lemma_offset_in_range(
                            width as int,
                            top,
                            column,
                            band_top(height as int, workers as int, j) + row,
                        );
                        assert(width * top == top * width) by (nonlinear_arith);
                        assert(done[at] == before[at]);
                    } else {
                        let local = band_bounds.spec_offset(column, row);
                        lemma_offset_in_range(width as int, rows, column, row);
                        assert(at == top * width + local) by (nonlinear_arith)
                            requires
                                at == (top + row) * width + column,
                                local == row * width + column,
                        ;
                        assert(done[at] == chunk@[local]);
                        assert(is_shade_at(
                            band_map,
                            *evaluate,
                            column as usize,
                            row as usize,
                            chunk@[local],
                        ));
                    }
                }
                rows_done = top + rows;
            }
            rest = tail;
            i += 1;
        }
    }
    proof {
        assert(pixels@ =~= done);
    }
    pixels
}

/// An earlier band ends at or before the first row of a later one.
proof fn lemma_band_below(height: int, workers: int, j: int, i: int)
    requires
        0 <= height,
        1 <= workers,
        0 <= j < i < band_count(height, workers),
    ensures
        band_top(height, workers, j) + band_height(height, workers, j) <= band_top(
            height,
            workers,
            i,
        ),
{
    let rows = rows_per_band(height, workers);
    lemma_bands_tile(height, workers, j);
    assert((j + 1) * rows <= i * rows) by (nonlinear_arith)
        requires
            j + 1 <= i,
            1 <= rows,
    ;
}

/// Every position of the buffer belongs to exactly one pixel of exactly one
/// band: the chunks of the partition cover the buffer and do not overlap.
pub proof fn lemma_position_in_one_band(bounds: Bounds, workers: usize, at: int)
    requires
        bounds.wf(),
        workers >= 1,
        0 <= at < bounds.pixel_count(),
    ensures
        ({
            let column = at % (bounds.width as int);
            let line = at / (bounds.width as int);
            let i = band_of_row(bounds.height as int, workers as int, line);
            let row = line - band_top(bounds.height as int, workers as int, i);
            &&& 0 <= i < band_count(bounds.height as int, workers as int)
            &&& 0 <= column < bounds.width
            &&& 0 <= row < band_height(bounds.height as int, workers as int, i)
            &&& band_offset(bounds, workers, i, column, row) == at
            &&& forall|j: int, c: int, r: int|
                0 <= j < band_count(bounds.height as int, workers as int) && 0 <= c
                    < bounds.width && 0 <= r < band_height(
                    bounds.height as int,
                    workers as int,
                    j,
                ) && #[trigger] band_offset(bounds, workers, j, c, r) == at ==> j == i && c
                    == column && r == row
        }),
{
    let width = bounds.width as int;
    let height = bounds.height as int;
    let column = at % width;
    let line = at / width;
    vstd::arithmetic::div_mod::lemma_fundamental_div_mod(at, width);
    vstd::arithmetic::div_mod::lemma_mod_bound(at, width);
    vstd::arithmetic::div_mod::lemma_div_pos_is_pos(at, width);
    assert(width * line == line * width) by (nonlinear_arith);
    assert(line < height) by (nonlinear_arith)
        requires
            at == line * width + column,
            0 <= column,
            at < width * height,
            0 < width,
    ;
    let i = band_of_row(height, workers as int, line);
    lemma_band_count_bounded(height, workers as int);
    lemma_row_in_one_band(height, workers as int, line, 0);
    lemma_row_in_one_band(height, workers as int, line, i);
    assert forall|j: int, c: int, r: int|
        0 <= j < band_count(height, workers as int) && 0 <= c < width && 0 <= r < band_height(
            height,
            workers as int,
            j,
        ) && #[trigger] band_offset(bounds, workers, j, c, r) == at implies j == i && c == column
        && r == line - band_top(height, workers as int, i) by {
        lemma_bands_tile(height, workers as int, j);
        lemma_offset_injective(width, c, band_top(height, workers as int, j) + r);
        lemma_row_in_one_band(height, workers as int, line, j);
    }
}

/// The point of a pixel does not depend on the band it is rendered in:
/// `map` gives one point for one column and one row of the whole image.
pub open spec fn band_independent<C, M: Fn(Band, usize, usize) -> C>(map: M) -> bool {
    forall|a: Band, b: Band, column: usize, row_a: usize, row_b: usize, p: C, q: C|
        a.top + row_a == b.top + row_b && #[trigger] map.ensures((a, column, row_a), p)
            && #[trigger] map.ensures((b, column, row_b), q) ==> p == q
}

/// `evaluate` gives at most one escape time for each point at the iteration
/// limit.
pub open spec fn evaluates_once<C, V: Fn(C, usize) -> Option<usize>>(evaluate: V) -> bool {
    forall|point: C, x: Option<usize>, y: Option<usize>| #[trigger]
        evaluate.ensures((point, ITERATION_LIMIT), x) && #[trigger] evaluate.ensures(
            (point, ITERATION_LIMIT),
            y,
        ) ==> x == y
}

/// When the point of a pixel does not depend on its band and each point has
/// one escape time, the image does not depend on the number of workers:
/// renderings band by band for two worker counts are the same buffer.
pub proof fn lemma_workers_do_not_matter<
    C,
    M: Fn(Band, usize, usize) -> C,
    V: Fn(C, usize) -> Option<usize>,
>(bounds: Bounds, workers_a: usize, workers_b: usize, map: M, evaluate: V, a: Seq<u8>, b: Seq<u8>)
    requires
        bounds.wf(),
        workers_a >= 1,
        workers_b >= 1,
        band_independent(map),
        evaluates_once(evaluate),
        is_banded_rendering(bounds, workers_a, map, evaluate, a),
        is_banded_rendering(bounds, workers_b, map, evaluate, b),
    ensures
        a == b,
{
    let width = bounds.width as int;
    let height = bounds.height as int;
    assert forall|at: int| 0 <= at < a.len() implies a[at] == b[at] by {
        let column = at % width;
        let line = at / width;
        lemma_position_in_one_band(bounds, workers_a, at);
        lemma_position_in_one_band(bounds, workers_b, at);
        let i = band_of_row(height, workers_a as int, line);
        let j = band_of_row(height, workers_b as int, line);
        let band_i = band_at(height, workers_a as int, i);
        let band_j = band_at(height, workers_b as int, j);
        let row_i = line - band_top(height, workers_a as int, i);
        let row_j = line - band_top(height, workers_b as int, j);
        lemma_bands_tile(height, workers_a as int, i);
        lemma_bands_tile(height, workers_b as int, j);
        assert(a[band_offset(bounds, workers_a, i, column, row_i)] == a[at]);
        assert(b[band_offset(bounds, workers_b, j, column, row_j)] == b[at]);
        assert(is_band_shade_at(
            map,
            evaluate,
            band_i,
            column as usize,
            row_i as usize,
            a[at],
        ));
        assert(is_band_shade_at(
            map,
            evaluate,
            band_j,
            column as usize,
            row_j as usize,
            b[at],
        ));
        let (p, x) = choose|p: C, x: Option<usize>|
            map.ensures((band_i, column as usize, row_i as usize), p)
                && #[trigger] evaluate.ensures((p, ITERATION_LIMIT), x) && a[at] == shade_of(x);
        let (q, y) = choose|q: C, y: Option<usize>|
            map.ensures((band_j, column as usize, row_j as usize), q)
                && #[trigger] evaluate.ensures((q, ITERATION_LIMIT), y) && b[at] == shade_of(y);
        assert(p == q);
        assert(x == y);
    }
    assert(a =~= b);
}

/// The point of a pixel of a band is the point of that pixel in the whole
/// image: `map`, for a row counted from the band's first, gives what `whole`
/// gives for the row counted from the top of the image.
pub open spec fn agrees_with_whole<
    C,
    W: Fn(usize, usize) -> C,
    M: Fn(Band, usize, usize) -> C,
>(whole: W, map: M) -> bool {
    forall|band: Band, column: usize, row: usize, line: usize, p: C, q: C|
        band.top + row == line && #[trigger] map.ensures((band, column, row), p)
            && #[trigger] whole.ensures((column, line), q) ==> p == q
}

/// When the point of a pixel of a band is its point in the whole image and
/// each point has one escape time, rendering band by band, for any number
/// of workers, gives the buffer that one rendering of the whole image
/// gives.
pub proof fn lemma_bands_render_the_whole<
    C,
    W: Fn(usize, usize) -> C,
    M: Fn(Band, usize, usize) -> C,
    V: Fn(C, usize) -> Option<usize>,
>(bounds: Bounds, workers: usize, whole: W, map: M, evaluate: V, a: Seq<u8>, b: Seq<u8>)
    requires
        bounds.wf(),
        workers >= 1,
        agrees_with_whole(whole, map),
        evaluates_once(evaluate),
        is_rendering(bounds, whole, evaluate, a),
        is_banded_rendering(bounds, workers, map, evaluate, b),
    ensures
        a == b,
{
    let width = bounds.width as int;
    let height = bounds.height as int;
    assert forall|at: int| 0 <= at < a.len() implies a[at] == b[at] by {
        let column = at % width;
        let line = at / width;
        lemma_position_in_one_band(bounds, workers, at);
        let i = band_of_row(height, workers as int, line);
        let band = band_at(height, workers as int, i);
        let row = line - band_top(height, workers as int, i);
        lemma_bands_tile(height, workers as int, i);
        assert(b[band_offset(bounds, workers, i, column, row)] == b[at]);
        assert(a[bounds.spec_offset(column, line)] == a[at]);
        assert(is_shade_at(whole, evaluate, column as usize, line as usize, a[at]));
        assert(is_band_shade_at(map, evaluate, band, column as usize, row as usize, b[at]));
        let (p, x) = choose|p: C, x: Option<usize>|
            whole.ensures((column as usize, line as usize), p) && #[trigger] evaluate.ensures(
                (p, ITERATION_LIMIT),
                x,
            ) && a[at] == shade_of(x);
        let (q, y) = choose|q: C, y: Option<usize>|
            map.ensures((band, column as usize, row as usize), q) && #[trigger] evaluate.ensures(
                (q, ITERATION_LIMIT),
                y,
            ) && b[at] == shade_of(y);
        assert(p == q);
        assert(x == y);
    }
    assert(a =~= b);
}

} // verus!
