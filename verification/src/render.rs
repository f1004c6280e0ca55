//! Rendering: per-pixel rasterisation of a viewport, and the partition of
//! the raster into disjoint horizontal bands, one per worker.
//!
//! `render` fills one rectangle sequentially; `write_buffer` renders a whole
//! image band by band, each band against its own sub-viewport, exactly as a
//! band-parallel run writes it, so a caller may equally dispatch the bands
//! of `compute_bands` to one task each and concatenate the results.

use vstd::prelude::*;
use vstd::arithmetic::div_mod::lemma_div_is_ordered;
use crate::coords::{
    ComplexPoint, valid_bounds, valid_viewport, ordered_viewport, point_re, point_im,
    pixel_to_point, lemma_pixel_to_point_corners,
};
use crate::escape::{escape_time, escape_time_spec};
use crate::buffer::ImageBuffer;

verus! {

/// Iteration budget of every render: escape counts fit one byte below 255.
pub const ITERATION_LIMIT: u32 = 255;

/// The grayscale intensity of a pixel: black for a likely member of the set,
/// and `255 - count` for a point escaping at iteration `count`, so that
/// faster-escaping points render brighter.
pub open spec fn pixel_byte(
    bounds: (usize, usize),
    pixel: (usize, usize),
    upper_left: ComplexPoint,
    lower_right: ComplexPoint,
) -> u8 {
    let p = (
        point_re(bounds, pixel, upper_left, lower_right),
        point_im(bounds, pixel, upper_left, lower_right),
    );
    match escape_time_spec(p, ITERATION_LIMIT as nat) {
        None => 0u8,
        Some(k) => (255 - k) as u8,
    }
}

/// Render one rectangle of the Mandelbrot set into a fresh row-major byte
/// raster: pixel (col, row) receives exactly `pixel_byte` of its plane point.
pub fn render(
    bounds: (usize, usize),
    upper_left: ComplexPoint,
    lower_right: ComplexPoint,
) -> (pixels: Vec<u8>)
    requires
        valid_bounds(bounds),
        ordered_viewport(upper_left, lower_right),
        bounds.0 * bounds.1 <= usize::MAX,
    ensures
        pixels@.len() == bounds.0 * bounds.1,
        forall|r: int, c: int|
            0 <= r < bounds.1 && 0 <= c < bounds.0 ==> pixels@[r * bounds.0 + c] == #[trigger] pixel_byte(
                bounds,
                (c as usize, r as usize),
                upper_left,
                lower_right,
            ),
{
    let mut pixels: Vec<u8> = Vec::new();
    let mut row: usize = 0;
    while row < bounds.1
        invariant
            valid_bounds(bounds),
            ordered_viewport(upper_left, lower_right),
            bounds.0 * bounds.1 <= usize::MAX,
            row <= bounds.1,
            pixels@.len() == row * bounds.0,
            forall|r: int, c: int|
                0 <= r < row && 0 <= c < bounds.0 ==> pixels@[r * bounds.0 + c] == #[trigger] pixel_byte(
                    bounds,
                    (c as usize, r as usize),
                    upper_left,
                    lower_right,
                ),
        decreases bounds.1 - row,
    {
        let mut col: usize = 0;
        proof {
            assert((row + 1) * bounds.0 <= bounds.1 * bounds.0) by (nonlinear_arith)
                requires
                    row < bounds.1,
                    0 <= bounds.0,
            ;
            assert(bounds.1 * bounds.0 == bounds.0 * bounds.1) by (nonlinear_arith);
            assert((row + 1) * bounds.0 == row * bounds.0 + bounds.0) by (nonlinear_arith);
        }
        while col < bounds.0
            invariant
                valid_bounds(bounds),
                ordered_viewport(upper_left, lower_right),
                bounds.0 * bounds.1 <= usize::MAX,
                row < bounds.1,
                col <= bounds.0,
                row * bounds.0 + bounds.0 <= bounds.0 * bounds.1,
                pixels@.len() == row * bounds.0 + col,
                forall|r: int, c: int|
                    0 <= r < row && 0 <= c < bounds.0 ==> pixels@[r * bounds.0 + c] == #[trigger] pixel_byte(
                        bounds,
                        (c as usize, r as usize),
                        upper_left,
                        lower_right,
                    ),
                forall|c: int|
                    0 <= c < col ==> pixels@[row * bounds.0 + c] == #[trigger] pixel_byte(
                        bounds,
                        (c as usize, row as usize),
                        upper_left,
                        lower_right,
                    ),
            decreases bounds.0 - col,
        {
            let point = pixel_to_point(bounds, (col, row), upper_left, lower_right);
            let b: u8 = match escape_time(point, ITERATION_LIMIT) {
                None => 0,
                Some(count) => (255 - count) as u8,
            };
            proof {
                assert(point@ == (
                    point_re(bounds, (col as usize, row as usize), upper_left, lower_right),
                    point_im(bounds, (col as usize, row as usize), upper_left, lower_right),
                ));
                assert(b == pixel_byte(bounds, (col as usize, row as usize), upper_left,
                    lower_right));
            }
            pixels.push(b);
            proof {
                assert forall|r: int, c: int|
                    0 <= r < row && 0 <= c < bounds.0 implies pixels@[r * bounds.0 + c]
                        == #[trigger] pixel_byte(
                        bounds,
                        (c as usize, r as usize),
                        upper_left,
                        lower_right,
                    ) by {
                    assert((r + 1) * bounds.0 <= row * bounds.0) by (nonlinear_arith)
                        requires
                            r + 1 <= row,
                            bounds.0 >= 0,
                    ;
                    assert((r + 1) * bounds.0 == r * bounds.0 + bounds.0) by (nonlinear_arith);
                }
            }
            col = col + 1;
        }
        row = row + 1;
    }
    proof {
        assert(bounds.1 * bounds.0 == bounds.0 * bounds.1) by (nonlinear_arith);
    }
    pixels
}

/// The number of rows each band gets for `workers` bands: the exact ceiling
/// of `height / workers`.
pub open spec fn rows_per_band(height: int, workers: int) -> int
    recommends
        workers >= 1,
{
    if height % workers == 0 {
        height / workers
    } else {
        height / workers + 1
    }
}

/// The horizontal bands of a raster of `height` rows, `rpb` rows per band
/// except for a possibly shorter last one, as (top row, row count) pairs.
pub open spec fn band_partition(top: int, height: int, rpb: int) -> Seq<(int, int)>
    decreases height - top
{
    if top >= height || rpb < 1 {
        Seq::empty()
    } else if top + rpb < height {
        seq![(top, rpb)] + band_partition(top + rpb, height, rpb)
    } else {
        seq![(top, height - top)]
    }
}

/// Structure of a band partition: bands are consecutive, non-empty, start at
/// `top`, end exactly at `height`, and each holds at most `rpb` rows.
pub proof fn lemma_band_partition_props(top: int, height: int, rpb: int)
    requires
        0 <= top <= height,
        1 <= rpb,
    ensures
        ({
            let bands = band_partition(top, height, rpb);
            &&& (top < height <==> bands.len() >= 1)
            &&& (top < height ==> bands[0].0 == top)
            &&& (top < height ==> bands[bands.len() - 1].0 + bands[bands.len() - 1].1 == height)
            &&& forall|i: int|
                0 <= i < bands.len() ==> 1 <= (#[trigger] bands[i]).1 <= rpb && top <= bands[i].0
                    && bands[i].0 + bands[i].1 <= height
            &&& forall|i: int|
                0 <= i < bands.len() - 1 ==> (#[trigger] bands[i + 1]).0 == bands[i].0 + bands[i].1
        }),
    decreases height - top,
{
    let bands = band_partition(top, height, rpb);
    if top < height {
        if top + rpb < height {
            lemma_band_partition_props(top + rpb, height, rpb);
            let rest = band_partition(top + rpb, height, rpb);
            assert(bands == seq![(top, rpb)] + rest);
            assert(forall|i: int| 0 <= i < rest.len() ==> bands[i + 1] == rest[i]);
        }
    }
}

/// Any two distinct positions in a consecutive band sequence are ordered:
/// the later band starts at or after the end of the earlier one.
proof fn lemma_bands_ordered(bands: Seq<(int, int)>, i: int, j: int)
    requires
        forall|k: int|
            0 <= k < bands.len() - 1 ==> (#[trigger] bands[k + 1]).0 == bands[k].0 + bands[k].1,
        forall|k: int| 0 <= k < bands.len() ==> (#[trigger] bands[k]).1 >= 1,
        0 <= i < j < bands.len(),
    ensures
        bands[j].0 >= bands[i].0 + bands[i].1,
    decreases j - i,
{
    if j == i + 1 {
        assert(bands[i + 1].0 == bands[i].0 + bands[i].1);
    } else {
        lemma_bands_ordered(bands, i, j - 1);
        assert(bands[(j - 1) + 1].0 == bands[j - 1].0 + bands[j - 1].1);
    }
}

/// The row lies within the band: at or below its top, above its end.
pub open spec fn row_in_band(band: (int, int), row: int) -> bool {
    band.0 <= row < band.0 + band.1
}

/// Some band of the sequence contains the row.
pub open spec fn row_covered(bands: Seq<(int, int)>, row: int) -> bool {
    exists|i: int| 0 <= i < bands.len() && #[trigger] row_in_band(bands[i], row)
}

/// Every row below `height` lies in some band of the partition.
proof fn lemma_band_partition_contains(top: int, height: int, rpb: int, row: int)
    requires
        0 <= top <= row < height,
        1 <= rpb,
    ensures
        row_covered(band_partition(top, height, rpb), row),
    decreases height - top,
{
    let bands = band_partition(top, height, rpb);
    if top + rpb < height {
        let rest = band_partition(top + rpb, height, rpb);
        if row < top + rpb {
            assert(row_in_band(bands[0], row));
        } else {
            lemma_band_partition_contains(top + rpb, height, rpb, row);
            let i = choose|i: int| 0 <= i < rest.len() && #[trigger] row_in_band(rest[i], row);
            assert(bands[i + 1] == rest[i]);
            assert(row_in_band(bands[i + 1], row));
        }
    } else {
        assert(row_in_band(bands[0], row));
    }
}

/// A positive raster height gives every worker band at least one row.
pub proof fn lemma_rows_per_band_pos(height: int, workers: int)
    requires
        1 <= height,
        1 <= workers,
    ensures
        rows_per_band(height, workers) >= 1,
{
    assert(height / workers >= 0) by (nonlinear_arith)
        requires
            height >= 0,
            workers >= 1,
    ;
    if height % workers == 0 {
        assert(height / workers >= 1) by (nonlinear_arith)
            requires
                height >= 1,
                workers >= 1,
                height % workers == 0,
        ;
    }
}

/// Partition exactness: for any raster height and worker count, the bands
/// cover every row, no two bands share a row, and every band lies within
/// the raster — union is the whole row range, pairwise intersections empty.
pub proof fn lemma_bands_exact_partition(height: int, workers: int)
    requires
        1 <= height,
        1 <= workers,
    ensures
        ({
            let bands = band_partition(0, height, rows_per_band(height, workers));
            &&& forall|row: int| 0 <= row < height ==> #[trigger] row_covered(bands, row)
            &&& forall|i: int, j: int, row: int|
                0 <= i < bands.len() && 0 <= j < bands.len() && #[trigger] row_in_band(
                    bands[i],
                    row,
                ) && #[trigger] row_in_band(bands[j], row) ==> i == j
            &&& forall|i: int|
                0 <= i < bands.len() ==> 0 <= (#[trigger] bands[i]).0 && bands[i].0 + bands[i].1
                    <= height && bands[i].1 >= 1
        }),
{
    let rpb = rows_per_band(height, workers);
    lemma_rows_per_band_pos(height, workers);
    lemma_band_partition_props(0, height, rpb);
    let bands = band_partition(0, height, rpb);
    assert forall|row: int| 0 <= row < height implies #[trigger] row_covered(bands, row) by {
        lemma_band_partition_contains(0, height, rpb, row);
    }
    assert forall|i: int, j: int, row: int|
        0 <= i < bands.len() && 0 <= j < bands.len() && #[trigger] row_in_band(bands[i], row)
            && #[trigger] row_in_band(bands[j], row) implies i == j by {
        if i < j {
            lemma_bands_ordered(bands, i, j);
        } else if j < i {
            lemma_bands_ordered(bands, j, i);
        }
    }
}

/// A horizontal band of the raster: its top row and its row count.
#[derive(Clone, Copy, Debug, PartialEq, Eq, Structural)]
pub struct Band {
    pub top: usize,
    pub height: usize,
}

/// The (top, height) view of a band.
pub open spec fn band_view(b: Band) -> (int, int) {
    (b.top as int, b.height as int)
}

/// Partition `height` raster rows into consecutive bands for `workers`
/// workers, `ceil(height / workers)` rows each, the last possibly shorter:
/// exactly the bands of `band_partition`.
pub fn compute_bands(height: usize, workers: usize) -> (bands: Vec<Band>)
    requires
        1 <= height,
        1 <= workers,
    ensures
        bands@.map_values(|b: Band| band_view(b)) == band_partition(
            0,
            height as int,
            rows_per_band(height as int, workers as int),
        ),
{
    proof {
        assert(height as int % 1int == 0 && height as int / 1int == height) by (nonlinear_arith);
        assert(height / workers >= 0 && height / workers <= height) by (nonlinear_arith)
            requires
                height >= 1,
                workers >= 1,
        ;
        if height as int % workers as int == 0 {
            assert(height as int / workers as int >= 1) by (nonlinear_arith)
                requires
                    height >= 1,
                    workers >= 1,
                    height as int % workers as int == 0,
            ;
        } else {
            assert((height as int) / (workers as int) < height as int) by (nonlinear_arith)
                requires
                    height >= 1,
                    workers >= 2,
            ;
        }
    }
    let rpb: usize = if height % workers == 0 {
        height / workers
    } else {
        height / workers + 1
    };
    let ghost goal = band_partition(0, height as int, rpb as int);
    let mut bands: Vec<Band> = Vec::new();
    let mut top: usize = 0;
    while top < height
        invariant
            1 <= rpb,
            0 <= top <= height,
            goal == band_partition(0, height as int, rows_per_band(height as int, workers as int)),
            goal =~= bands@.map_values(|b: Band| band_view(b)) + band_partition(
                top as int,
                height as int,
                rpb as int,
            ),
        decreases height - top,
    {
        let h: usize = if height - top < rpb {
            height - top
        } else {
            rpb
        };
        let b = Band { top, height: h };
        proof {
            let f = |b: Band| band_view(b);
            assert((bands@ + seq![b]).map_values(f) =~= bands@.map_values(f) + seq![
                band_view(b),
            ]);
            if (top as int) + (rpb as int) < (height as int) {
                assert(h == rpb);
            } else {
                assert(h as int == height as int - top as int);
                assert(band_partition(top as int + h as int, height as int, rpb as int)
                    =~= Seq::<(int, int)>::empty());
            }
            assert(band_partition(top as int, height as int, rpb as int) =~= seq![
                (top as int, h as int),
            ] + band_partition(top as int + h as int, height as int, rpb as int));
            assert((bands@.map_values(f) + seq![band_view(b)]) + band_partition(
                top as int + h as int,
                height as int,
                rpb as int,
            ) =~= bands@.map_values(f) + (seq![band_view(b)] + band_partition(
                top as int + h as int,
                height as int,
                rpb as int,
            )));
        }
        bands.push(b);
        top = top + h;
    }
    proof {
        assert(goal =~= bands@.map_values(|b: Band| band_view(b)));
    }
    bands
}

/// The upper-left corner of the sub-viewport of the band starting at row
/// `top`: the plane point of pixel (0, top).
pub open spec fn band_upper_left(
    bounds: (usize, usize),
    top: int,
    upper_left: ComplexPoint,
    lower_right: ComplexPoint,
) -> ComplexPoint {
    ComplexPoint {
        re: point_re(bounds, (0, top as usize), upper_left, lower_right) as i64,
        im: point_im(bounds, (0, top as usize), upper_left, lower_right) as i64,
    }
}

/// The lower-right corner of the sub-viewport of the band ending before row
/// `end`: the plane point of pixel (width, end).
pub open spec fn band_lower_right(
    bounds: (usize, usize),
    end: int,
    upper_left: ComplexPoint,
    lower_right: ComplexPoint,
) -> ComplexPoint {
    ComplexPoint {
        re: point_re(bounds, (bounds.0, end as usize), upper_left, lower_right) as i64,
        im: point_im(bounds, (bounds.0, end as usize), upper_left, lower_right) as i64,
    }
}

/// The raster `buf` holds exactly the band-by-band rendering of the
/// viewport with `rpb` rows per band: each pixel of each band carries the
/// intensity of its plane point mapped through the band's own sub-viewport
/// and local row index, as one concurrent task per band writes it.
pub open spec fn rendered_with_bands(
    bounds: (usize, usize),
    upper_left: ComplexPoint,
    lower_right: ComplexPoint,
    rpb: int,
    buf: Seq<u8>,
) -> bool {
    let bands = band_partition(0, bounds.1 as int, rpb);
    &&& buf.len() == bounds.0 * bounds.1
    &&& forall|i: int, r: int, c: int|
        0 <= i < bands.len() && 0 <= r < bands[i].1 && 0 <= c < bounds.0 ==> buf[(bands[i].0 + r)
            * bounds.0 + c] == #[trigger] pixel_byte(
            (bounds.0, bands[i].1 as usize),
            (c as usize, r as usize),
            band_upper_left(bounds, bands[i].0, upper_left, lower_right),
            band_lower_right(bounds, bands[i].0 + bands[i].1, upper_left, lower_right),
        )
}

/// Relies on num_cpus::get: the number of logical CPUs of this machine,
/// documented to always be at least 1.
#[verifier::external_body]
fn worker_count() -> (n: usize)
    ensures
        1 <= n,
{
    num_cpus::get()
}

/// Render a whole image of the Mandelbrot set: partition the raster into
/// one band per available worker, render every band against its own
/// sub-viewport, and return the assembled buffer.
///
/// The worker count is whatever the machine reports, so the ensures holds
/// for some positive count: the buffer is exactly the band-by-band
/// rendering for that count. The `rows` field holds the image width and
/// `cols` its height, as the raster is handed on in that order.
pub fn write_buffer(
    bounds: (usize, usize),
    upper_left: ComplexPoint,
    lower_right: ComplexPoint,
) -> (pixels: ImageBuffer)
    requires
        valid_bounds(bounds),
        valid_viewport(upper_left, lower_right),
        bounds.0 * bounds.1 <= usize::MAX,
    ensures
        pixels.rows == bounds.0,
        pixels.cols == bounds.1,
        exists|workers: int|
            1 <= workers && #[trigger] rendered_with_bands(
                bounds,
                upper_left,
                lower_right,
                rows_per_band(bounds.1 as int, workers),
                pixels.buf@,
            ),
{
    let workers = worker_count();
    let bands = compute_bands(bounds.1, workers);
    let ghost rpb = rows_per_band(bounds.1 as int, workers as int);
    let ghost bp = band_partition(0, bounds.1 as int, rpb);
    let w = bounds.0;
    proof {
        lemma_rows_per_band_pos(bounds.1 as int, workers as int);
        lemma_band_partition_props(0, bounds.1 as int, rpb);
        assert(bands@.map_values(|b: Band| band_view(b)).len() == bands@.len());
        assert(bp.len() >= 1);
    }
    let mut buf: Vec<u8> = Vec::new();
    let mut bi: usize = 0;
    while bi < bands.len()
        invariant
            valid_bounds(bounds),
            valid_viewport(upper_left, lower_right),
            bounds.0 * bounds.1 <= usize::MAX,
            w == bounds.0,
            1 <= rpb,
            rpb == rows_per_band(bounds.1 as int, workers as int),
            1 <= workers,
            bp == band_partition(0, bounds.1 as int, rpb),
            bands@.map_values(|b: Band| band_view(b)) == bp,
            bi <= bands@.len(),
            bands@.len() == bp.len(),
            buf@.len() == (if bi < bp.len() {
                bp[bi as int].0
            } else {
                bounds.1 as int
            }) * bounds.0,
            forall|i: int, r: int, c: int|
                0 <= i < bi && 0 <= r < bp[i].1 && 0 <= c < bounds.0 ==> buf@[(bp[i].0 + r)
                    * bounds.0 + c] == #[trigger] pixel_byte(
                    (bounds.0, bp[i].1 as usize),
                    (c as usize, r as usize),
                    band_upper_left(bounds, bp[i].0, upper_left, lower_right),
                    band_lower_right(bounds, bp[i].0 + bp[i].1, upper_left, lower_right),
                ),
        decreases bands@.len() - bi,
    {
        proof {
            lemma_band_partition_props(0, bounds.1 as int, rpb);
            assert(bp[bi as int] == band_view(bands@[bi as int]));
        }
        let band = bands[bi];
        let top = band.top;
        let bh = band.height;
        proof {
            assert(1 <= bh && top + bh <= bounds.1);
        }
        let b_ul = pixel_to_point(bounds, (0, top), upper_left, lower_right);
        let b_lr = pixel_to_point(bounds, (w, top + bh), upper_left, lower_right);
        proof {
            lemma_pixel_to_point_corners(bounds, upper_left, lower_right);
            assert(b_ul.re == upper_left.re && b_lr.re == lower_right.re);
            assert((top as int) * (upper_left.im - lower_right.im) <= ((top + bh) as int) * (
            upper_left.im - lower_right.im)) by (nonlinear_arith)
                requires
                    0 <= top as int <= (top + bh) as int,
                    upper_left.im - lower_right.im >= 0,
            ;
            lemma_div_is_ordered(
                (top as int) * (upper_left.im - lower_right.im),
                ((top + bh) as int) * (upper_left.im - lower_right.im),
                bounds.1 as int,
            );
            assert(b_ul.im >= b_lr.im);
            assert(ordered_viewport(b_ul, b_lr));
            assert(w * bh <= bounds.0 * bounds.1) by (nonlinear_arith)
                requires
                    w == bounds.0,
                    0 <= bh <= bounds.1,
                    0 <= bounds.0,
            ;
        }
        let mut chunk = render((w, bh), b_ul, b_lr);
        proof {
            assert(b_ul == band_upper_left(bounds, bp[bi as int].0, upper_left, lower_right));
            assert(b_lr == band_lower_right(
                bounds,
                bp[bi as int].0 + bp[bi as int].1,
                upper_left,
                lower_right,
            ));
        }
        let ghost old_buf = buf@;
        let ghost chunk_view = chunk@;
        buf.append(&mut chunk);
        proof {
            let top_i = bp[bi as int].0;
            assert(old_buf.len() == top_i * w);
            assert((top_i + bh) * w == top_i * w + (bh as int) * w) by (nonlinear_arith);
            assert(buf@.len() == (top_i + bh) * w);
            if bi + 1 < bp.len() {
                assert(bp[bi as int + 1].0 == top_i + bh);
            } else {
                assert(top_i + bh == bounds.1 as int);
            }
            assert forall|i: int, r: int, c: int|
                0 <= i < bi + 1 && 0 <= r < bp[i].1 && 0 <= c < bounds.0 implies buf@[(bp[i].0 + r)
                * bounds.0 + c] == #[trigger] pixel_byte(
                (bounds.0, bp[i].1 as usize),
                (c as usize, r as usize),
                band_upper_left(bounds, bp[i].0, upper_left, lower_right),
                band_lower_right(bounds, bp[i].0 + bp[i].1, upper_left, lower_right),
            ) by {
                if i < bi {
                    assert((bp[i].0 + r + 1) * w <= (bp[i].0 + bp[i].1) * w) by (nonlinear_arith)
                        requires
                            bp[i].0 + r + 1 <= bp[i].0 + bp[i].1,
                            w >= 0,
                    ;
                    assert((bp[i].0 + r + 1) * w == (bp[i].0 + r) * w + w) by (nonlinear_arith);
                    if i + 1 < bp.len() {
                        lemma_bands_ordered_full(bp, i, bi as int);
                    }
                    assert(bp[i].0 + bp[i].1 <= top_i);
                    assert((bp[i].0 + bp[i].1) * w <= top_i * w) by (nonlinear_arith)
                        requires
                            bp[i].0 + bp[i].1 <= top_i,
                            w >= 0,
                    ;
                    assert(buf@[(bp[i].0 + r) * bounds.0 + c] == old_buf[(bp[i].0 + r) * bounds.0
                        + c]);
                } else {
                    assert((top_i + r) * w == top_i * w + r * w) by (nonlinear_arith);
                    assert((r + 1) * w <= bp[i].1 * w) by (nonlinear_arith)
                        requires
                            r + 1 <= bp[i].1,
                            w >= 0,
                    ;
                    assert((r + 1) * w == r * w + w) by (nonlinear_arith);
                    assert(bp[i].1 * w == w * bp[i].1) by (nonlinear_arith);
                    assert(buf@[top_i * w + (r * w + c)] == chunk_view[r * w + c]);
                    assert(chunk_view[r * w + c] == pixel_byte(
                        (bounds.0, bp[i].1 as usize),
                        (c as usize, r as usize),
                        band_upper_left(bounds, bp[i].0, upper_left, lower_right),
                        band_lower_right(bounds, bp[i].0 + bp[i].1, upper_left, lower_right),
                    ));
                }
            }
        }
        bi = bi + 1;
    }
    proof {
        assert(buf@.len() == (bounds.1 as int) * (bounds.0 as int));
        assert((bounds.1 as int) * (bounds.0 as int) == bounds.0 * bounds.1) by (nonlinear_arith);
    }
    let pixels = ImageBuffer { rows: bounds.0, cols: bounds.1, buf };
    proof {
        assert(rendered_with_bands(
            bounds,
            upper_left,
            lower_right,
            rows_per_band(bounds.1 as int, workers as int),
            pixels.buf@,
        ));
    }
    pixels
}

/// The end of an earlier band never passes the start of a later one.
proof fn lemma_bands_ordered_full(bands: Seq<(int, int)>, i: int, j: int)
    requires
        forall|k: int|
            0 <= k < bands.len() - 1 ==> (#[trigger] bands[k + 1]).0 == bands[k].0 + bands[k].1,
        forall|k: int| 0 <= k < bands.len() ==> 1 <= (#[trigger] bands[k]).1,
        0 <= i <= j < bands.len(),
    ensures
        i < j ==> bands[j].0 >= bands[i].0 + bands[i].1,
{
    if i < j {
        lemma_bands_ordered(bands, i, j);
    }
}

} // verus!
