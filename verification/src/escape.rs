//! Escape-time membership test for the Mandelbrot set, on fixed-point
//! complex points.
//!
//! The orbit `z <- z * z + c` is computed exactly in the fixed-point model:
//! each product of coordinates is divided by `SCALE`, truncating toward
//! zero, and the orbit escapes once its scaled squared magnitude exceeds
//! `4 * SCALE` (bailout radius 2).

use vstd::prelude::*;
use vstd::arithmetic::div_mod::{lemma_div_is_ordered, lemma_div_multiples_vanish};
use crate::coords::{ComplexPoint, SCALE, COORD_LIMIT, in_range, sdiv};

verus! {

/// Real part of one orbit step `z * z + c` in the fixed-point model.
/// Both squares are non-negative, so plain flooring division is truncation.
pub open spec fn step_re(z: (int, int), c: (int, int)) -> int {
    (z.0 * z.0) / (SCALE as int) - (z.1 * z.1) / (SCALE as int) + c.0
}

/// Imaginary part of one orbit step `z * z + c` in the fixed-point model.
pub open spec fn step_im(z: (int, int), c: (int, int)) -> int {
    sdiv(2 * z.0 * z.1, SCALE as int) + c.1
}

/// One orbit step `z * z + c`.
pub open spec fn step(z: (int, int), c: (int, int)) -> (int, int) {
    (step_re(z, c), step_im(z, c))
}

/// The orbit point `z` has left the circle of radius two: its scaled
/// squared magnitude exceeds `4 * SCALE`.
pub open spec fn escaped(z: (int, int)) -> bool {
    (z.0 * z.0 + z.1 * z.1) / (SCALE as int) > 4 * (SCALE as int)
}

/// Escape time of the orbit continued from `z`, with `budget` steps left:
/// `Some(k)` if the `k`-th remaining step (0-based) is the first whose
/// result escapes, `None` if no remaining step escapes.
pub open spec fn escape_from(z: (int, int), c: (int, int), budget: nat) -> Option<nat>
    decreases budget,
{
    if budget == 0 {
        None
    } else {
        let z2 = step(z, c);
        if escaped(z2) {
            Some(0)
        } else {
            match escape_from(z2, c, (budget - 1) as nat) {
                Some(k) => Some(k + 1),
                None => None,
            }
        }
    }
}

/// Escape time of `c`: the 0-based index of the first iteration of
/// `z <- z * z + c` from `z = 0` whose result leaves the radius-2 circle,
/// or `None` if no iteration among the first `limit` does.
pub open spec fn escape_time_spec(c: (int, int), limit: nat) -> Option<nat> {
    escape_from((0, 0), c, limit)
}

/// The iteration counts of the two result types agree.
pub open spec fn count_matches(r: Option<u32>, s: Option<nat>) -> bool {
    match r {
        Some(i) => s == Some(i as nat),
        None => s is None,
    }
}

/// `(x * x) / SCALE` for a coordinate of magnitude at most `2 * SCALE`.
fn sq_scaled(x: i64) -> (r: i64)
    requires
        -2 * SCALE <= x <= 2 * SCALE,
    ensures
        r == (x * x) / (SCALE as int),
        0 <= r <= 4 * SCALE,
{
    let m: u64 = if x < 0 {
        (-x) as u64
    } else {
        x as u64
    };
    proof {
        let s = SCALE as int;
        assert((m as int) * (m as int) == x * x) by (nonlinear_arith)
            requires
                m == if x < 0 { -x } else { x as int },
        ;
        assert((m as int) * (m as int) <= s * (4 * s)) by (nonlinear_arith)
            requires
                0 <= m <= 2 * s,
                0 < s,
        ;
        assert(s * (4 * s) == 1125899906842624) by (nonlinear_arith)
            requires
                s == 16777216,
        ;
        assert(0 <= (m as int) * (m as int)) by (nonlinear_arith);
        lemma_div_is_ordered((m as int) * (m as int), s * (4 * s), s);
        lemma_div_is_ordered(0, (m as int) * (m as int), s);
        lemma_div_multiples_vanish(4 * s, s);
    }
    let q: u64 = m * m / (SCALE as u64);
    q as i64
}

/// `sdiv(2 * a * b, SCALE)` for coordinates of magnitude at most `2 * SCALE`.
fn cross_scaled(a: i64, b: i64) -> (r: i64)
    requires
        -2 * SCALE <= a <= 2 * SCALE,
        -2 * SCALE <= b <= 2 * SCALE,
    ensures
        r == sdiv(2 * a * b, SCALE as int),
        -8 * SCALE <= r <= 8 * SCALE,
{
    let neg: bool = (a < 0) != (b < 0);
    let ma: u64 = if a < 0 {
        (-a) as u64
    } else {
        a as u64
    };
    let mb: u64 = if b < 0 {
        (-b) as u64
    } else {
        b as u64
    };
    proof {
        assert(2 * (ma as int) * (mb as int) == if neg { -(2 * a * b) } else { 2 * a * b })
            by (nonlinear_arith)
            requires
                ma == if a < 0 { -a } else { a as int },
                mb == if b < 0 { -b } else { b as int },
                neg == ((a < 0) != (b < 0)),
        ;
        let s = SCALE as int;
        assert(2 * (ma as int) * (mb as int) <= s * (8 * s)) by (nonlinear_arith)
            requires
                0 <= ma <= 2 * s,
                0 <= mb <= 2 * s,
                0 < s,
        ;
        assert(s * (8 * s) == 2251799813685248) by (nonlinear_arith)
            requires
                s == 16777216,
        ;
        assert(0 <= 2 * (ma as int) * (mb as int)) by (nonlinear_arith);
        lemma_div_is_ordered(2 * (ma as int) * (mb as int), s * (8 * s), s);
        lemma_div_is_ordered(0, 2 * (ma as int) * (mb as int), s);
        lemma_div_multiples_vanish(8 * s, s);
    }
    let q: u64 = 2 * ma * mb / (SCALE as u64);
    if neg {
        -(q as i64)
    } else {
        q as i64
    }
}

/// Whether the orbit point `z` has escaped, for points produced by one orbit
/// step from a bounded state: parts of magnitude at most `8 * SCALE + COORD_LIMIT`.
fn norm_exceeds(z: ComplexPoint) -> (r: bool)
    requires
        -(8 * SCALE + COORD_LIMIT) <= z.re <= 8 * SCALE + COORD_LIMIT,
        -(8 * SCALE + COORD_LIMIT) <= z.im <= 8 * SCALE + COORD_LIMIT,
    ensures
        r == escaped(z@),
{
    let mre: u64 = if z.re < 0 {
        (-z.re) as u64
    } else {
        z.re as u64
    };
    let mim: u64 = if z.im < 0 {
        (-z.im) as u64
    } else {
        z.im as u64
    };
    proof {
        let b = (8 * SCALE + COORD_LIMIT) as int;
        assert(b == 1207959552);
        assert(b * b == 1459166279268040704) by (nonlinear_arith)
            requires
                b == 1207959552,
        ;
        assert((mre as int) * (mre as int) == (z.re as int) * (z.re as int)) by (nonlinear_arith)
            requires
                mre == if z.re < 0 { -(z.re as int) } else { z.re as int },
        ;
        assert((mim as int) * (mim as int) == (z.im as int) * (z.im as int)) by (nonlinear_arith)
            requires
                mim == if z.im < 0 { -(z.im as int) } else { z.im as int },
        ;
        assert((mre as int) * (mre as int) <= b * b && (mim as int) * (mim as int) <= b * b)
            by (nonlinear_arith)
            requires
                0 <= mre <= b,
                0 <= mim <= b,
        ;
    }
    let n: u64 = mre * mre + mim * mim;
    n / (SCALE as u64) > 4 * (SCALE as u64)
}

/// If the orbit point has not escaped, each of its parts has magnitude at
/// most `2 * SCALE`.
proof fn lemma_not_escaped_bounds(z: (int, int))
    requires
        !escaped(z),
    ensures
        -2 * SCALE <= z.0 <= 2 * SCALE,
        -2 * SCALE <= z.1 <= 2 * SCALE,
{
    let s = SCALE as int;
    assert(z.0 * z.0 + z.1 * z.1 <= 4 * s * s + s - 1) by (nonlinear_arith)
        requires
            (z.0 * z.0 + z.1 * z.1) / s <= 4 * s,
            s == SCALE as int,
            0 < s,
    ;
    assert(-2 * s <= z.0 <= 2 * s && -2 * s <= z.1 <= 2 * s) by (nonlinear_arith)
        requires
            z.0 * z.0 + z.1 * z.1 <= 4 * s * s + s - 1,
            s == SCALE as int,
            0 < s,
    ;
}

/// Shift an optional remaining-step count by the `done` steps already taken.
pub open spec fn offset_count(o: Option<nat>, done: nat) -> Option<nat> {
    match o {
        Some(k) => Some(k + done),
        None => None,
    }
}

/// Try to determine whether `c` lies in the Mandelbrot set, using at most
/// `limit` orbit iterations.
///
/// Returns `Some(i)` with `i < limit` exactly when the fixed-point orbit of
/// `c` first leaves the circle of radius two at iteration `i`, and `None`
/// exactly when it stays inside for all `limit` iterations (so `c` is taken
/// to be a likely member). The result is `escape_time_spec(c@, limit)`, a
/// function of the arguments alone, so two calls on the same input always
/// agree.
pub fn escape_time(c: ComplexPoint, limit: u32) -> (r: Option<u32>)
    requires
        in_range(c),
    ensures
        count_matches(r, escape_time_spec(c@, limit as nat)),
        r matches Some(i) ==> i < limit,
{
    let mut z = ComplexPoint { re: 0, im: 0 };
    let mut i: u32 = 0;
    proof {
        assert(!escaped((0, 0))) by {
            assert((0int * 0 + 0int * 0) / (SCALE as int) == 0);
        }
    }
    while i < limit
        invariant
            0 <= i <= limit,
            in_range(c),
            !escaped(z@),
            escape_time_spec(c@, limit as nat) == offset_count(
                escape_from(z@, c@, (limit - i) as nat),
                i as nat,
            ),
        decreases limit - i,
    {
        proof {
            lemma_not_escaped_bounds(z@);
        }
        let t_rr = sq_scaled(z.re);
        let t_ii = sq_scaled(z.im);
        let cross = cross_scaled(z.re, z.im);
        let z2 = ComplexPoint { re: t_rr - t_ii + c.re, im: cross + c.im };
        proof {
            assert(z2@ == step(z@, c@));
        }
        if norm_exceeds(z2) {
            proof {
                assert(escape_from(z@, c@, (limit - i) as nat) == Some(0nat));
            }
            return Some(i);
        }
        z = z2;
        i = i + 1;
    }
    None
}

/// Conjugate symmetry of one orbit step: conjugating both state and
/// parameter conjugates the step's result, and leaves escape unchanged.
proof fn lemma_step_conjugate(z: (int, int), c: (int, int))
    ensures
        step((z.0, -z.1), (c.0, -c.1)) == ((step(z, c).0, -step(z, c).1)),
        escaped((z.0, -z.1)) == escaped(z),
{
    assert((-z.1) * (-z.1) == z.1 * z.1) by (nonlinear_arith);
    assert(2 * z.0 * (-z.1) == -(2 * z.0 * z.1)) by (nonlinear_arith);
    let p = 2 * z.0 * z.1;
    assert(sdiv(-p, SCALE as int) == -sdiv(p, SCALE as int));
}

proof fn lemma_escape_from_conjugate(z: (int, int), c: (int, int), budget: nat)
    ensures
        escape_from((z.0, -z.1), (c.0, -c.1), budget) == escape_from(z, c, budget),
    decreases budget,
{
    if budget > 0 {
        lemma_step_conjugate(z, c);
        let z2 = step(z, c);
        lemma_step_conjugate(z2, c);
        lemma_escape_from_conjugate(z2, c, (budget - 1) as nat);
    }
}

/// Conjugate symmetry: the escape time of the conjugate of `c` equals the
/// escape time of `c` — the Mandelbrot set is symmetric about the real axis.
pub proof fn lemma_escape_time_conjugate(c: (int, int), limit: nat)
    ensures
        escape_time_spec((c.0, -c.1), limit) == escape_time_spec(c, limit),
{
    assert((0int, -0int) == (0int, 0int));
    lemma_escape_from_conjugate((0, 0), c, limit);
}

/// The origin never escapes: `escape_time_spec((0, 0), limit)` is `None`
/// for every limit — the origin belongs to the Mandelbrot set.
pub proof fn lemma_escape_time_origin(limit: nat)
    ensures
        escape_time_spec((0, 0), limit) is None,
{
    lemma_origin_fixed(limit);
}

proof fn lemma_origin_fixed(budget: nat)
    ensures
        escape_from((0, 0), (0, 0), budget) is None,
    decreases budget,
{
    if budget > 0 {
        assert(step((0, 0), (0, 0)) == (0int, 0int)) by {
            assert((0int * 0) / (SCALE as int) == 0);
            assert(sdiv(2int * 0 * 0, SCALE as int) == 0);
        }
        assert(!escaped((0int, 0int))) by {
            assert((0int * 0 + 0int * 0) / (SCALE as int) == 0);
        }
        lemma_origin_fixed((budget - 1) as nat);
    }
}

} // verus!
