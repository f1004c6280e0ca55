//! Fixed-point model of the complex plane and the pixel-to-point mapping.
//!
//! A coordinate is an `i64` counting units of `1 / SCALE`, so the real value
//! `x` is stored as `x * SCALE`. All engine arithmetic is exact integer
//! arithmetic on this representation; divisions truncate toward zero.

use vstd::prelude::*;
use vstd::arithmetic::div_mod::lemma_div_multiples_vanish;

verus! {

/// Number of fixed-point units per 1.0 on either complex axis (2^24).
pub const SCALE: i64 = 16777216;

/// Largest magnitude, in fixed-point units, a coordinate handled by the
/// engine may have (64.0). Keeps every intermediate product within `i64`.
pub const COORD_LIMIT: i64 = 1073741824;

/// Largest pixel width or height the engine accepts.
pub const MAX_DIM: usize = 1000000;

/// A point of the complex plane, both parts in fixed-point units.
#[derive(Clone, Copy, Debug, PartialEq, Eq, Structural)]
pub struct ComplexPoint {
    pub re: i64,
    pub im: i64,
}

impl View for ComplexPoint {
    type V = (int, int);

    open spec fn view(&self) -> (int, int) {
        (self.re as int, self.im as int)
    }
}

/// Division truncating toward zero, the rounding every engine division uses.
pub open spec fn sdiv(p: int, d: int) -> int
    recommends
        d > 0,
{
    if p >= 0 {
        p / d
    } else {
        -((-p) / d)
    }
}

/// Both parts of `c` lie within the engine's coordinate range.
pub open spec fn in_range(c: ComplexPoint) -> bool {
    -COORD_LIMIT <= c.re <= COORD_LIMIT && -COORD_LIMIT <= c.im <= COORD_LIMIT
}

/// Pixel bounds the engine accepts: positive and at most `MAX_DIM` each.
pub open spec fn valid_bounds(bounds: (usize, usize)) -> bool {
    0 < bounds.0 <= MAX_DIM && 0 < bounds.1 <= MAX_DIM
}

/// A well-formed viewport: the upper-left corner lies strictly left of and
/// strictly above the lower-right corner, both within coordinate range.
pub open spec fn valid_viewport(upper_left: ComplexPoint, lower_right: ComplexPoint) -> bool {
    &&& in_range(upper_left)
    &&& in_range(lower_right)
    &&& upper_left.re < lower_right.re
    &&& upper_left.im > lower_right.im
}

/// A possibly degenerate viewport, as arises for a thin band of a deep zoom:
/// corners ordered, but a span may be zero. Every valid viewport is ordered.
pub open spec fn ordered_viewport(upper_left: ComplexPoint, lower_right: ComplexPoint) -> bool {
    &&& in_range(upper_left)
    &&& in_range(lower_right)
    &&& upper_left.re <= lower_right.re
    &&& upper_left.im >= lower_right.im
}

/// Real part of the plane point for pixel column `col`: the upper-left real
/// coordinate plus `col / width` of the real span, truncated.
pub open spec fn point_re(
    bounds: (usize, usize),
    pixel: (usize, usize),
    upper_left: ComplexPoint,
    lower_right: ComplexPoint,
) -> int {
    upper_left.re + (pixel.0 * (lower_right.re - upper_left.re)) / (bounds.0 as int)
}

/// Imaginary part of the plane point for pixel row `row`. The subtraction is
/// deliberate: row indices grow downward while the imaginary axis grows
/// upward.
pub open spec fn point_im(
    bounds: (usize, usize),
    pixel: (usize, usize),
    upper_left: ComplexPoint,
    lower_right: ComplexPoint,
) -> int {
    upper_left.im - (pixel.1 * (upper_left.im - lower_right.im)) / (bounds.1 as int)
}

/// Given the column and row of a pixel, return the corresponding point on the
/// complex plane.
///
/// `bounds` is the (width, height) of the image in pixels; `pixel` is a
/// (column, row) pair, where column may equal the width and row the height so
/// that both viewport corners are reachable; `upper_left` and `lower_right`
/// are the corners of the viewport the image covers. The result is exactly
/// the truncating fixed-point interpolation `point_re` / `point_im`, and it
/// always stays inside the viewport rectangle.
pub fn pixel_to_point(
    bounds: (usize, usize),
    pixel: (usize, usize),
    upper_left: ComplexPoint,
    lower_right: ComplexPoint,
) -> (r: ComplexPoint)
    requires
        valid_bounds(bounds),
        pixel.0 <= bounds.0,
        pixel.1 <= bounds.1,
        ordered_viewport(upper_left, lower_right),
    ensures
        r.re == point_re(bounds, pixel, upper_left, lower_right),
        r.im == point_im(bounds, pixel, upper_left, lower_right),
        upper_left.re <= r.re <= lower_right.re,
        lower_right.im <= r.im <= upper_left.im,
{
    let span_re: u64 = (lower_right.re - upper_left.re) as u64;
    let span_im: u64 = (upper_left.im - lower_right.im) as u64;
    proof {
        assert((pixel.0 as int) * (span_re as int) <= 1000000 * 2147483648) by (nonlinear_arith)
            requires
                0 <= pixel.0 as int <= 1000000,
                0 <= span_re as int <= 2147483648,
        ;
        assert((pixel.1 as int) * (span_im as int) <= 1000000 * 2147483648) by (nonlinear_arith)
            requires
                0 <= pixel.1 as int <= 1000000,
                0 <= span_im as int <= 2147483648,
        ;
    }
    let off_re: u64 = (pixel.0 as u64) * span_re / (bounds.0 as u64);
    let off_im: u64 = (pixel.1 as u64) * span_im / (bounds.1 as u64);
    proof {
        lemma_mul_div_interp(pixel.0 as int, span_re as int, bounds.0 as int);
        lemma_mul_div_interp(pixel.1 as int, span_im as int, bounds.1 as int);
    }
    ComplexPoint {
        re: upper_left.re + (off_re as i64),
        im: upper_left.im - (off_im as i64),
    }
}

/// For `0 <= k <= n` and a positive span `s`, the interpolation offset
/// `k * s / n` lies between `0` and `s`.
proof fn lemma_mul_div_interp(k: int, s: int, n: int)
    requires
        0 <= k <= n,
        0 < n,
        0 <= s,
    ensures
        0 <= (k * s) / n <= s,
        k == 0 ==> (k * s) / n == 0,
        k == n ==> (k * s) / n == s,
{
    assert(k == 0 ==> k * s == 0) by (nonlinear_arith);
    assert(0 <= k * s) by (nonlinear_arith)
        requires
            0 <= k,
            0 <= s,
    ;
    assert(k * s <= n * s) by (nonlinear_arith)
        requires
            k <= n,
            0 <= s,
    ;
    assert(0 <= (k * s) / n <= (n * s) / n) by (nonlinear_arith)
        requires
            0 <= k * s <= n * s,
            0 < n,
    ;
    lemma_div_multiples_vanish(s, n);
    assert(n * s == s * n) by (nonlinear_arith);
}

/// Corner exactness: mapping pixel (0, 0) gives exactly the upper-left
/// viewport corner, and mapping pixel (width, height) gives exactly the
/// lower-right corner.
pub proof fn lemma_pixel_to_point_corners(
    bounds: (usize, usize),
    upper_left: ComplexPoint,
    lower_right: ComplexPoint,
)
    requires
        valid_bounds(bounds),
        ordered_viewport(upper_left, lower_right),
    ensures
        point_re(bounds, (0, 0), upper_left, lower_right) == upper_left.re,
        point_im(bounds, (0, 0), upper_left, lower_right) == upper_left.im,
        point_re(bounds, (bounds.0, bounds.1), upper_left, lower_right) == lower_right.re,
        point_im(bounds, (bounds.0, bounds.1), upper_left, lower_right) == lower_right.im,
{
    lemma_mul_div_interp(bounds.0 as int, lower_right.re - upper_left.re, bounds.0 as int);
    lemma_mul_div_interp(bounds.1 as int, upper_left.im - lower_right.im, bounds.1 as int);
    lemma_mul_div_interp(0, lower_right.re - upper_left.re, bounds.0 as int);
    lemma_mul_div_interp(0, upper_left.im - lower_right.im, bounds.1 as int);
}

} // verus!
