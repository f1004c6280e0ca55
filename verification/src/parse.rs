//! Verified parsing of coordinate pairs, such as `"400x600"` or
//! `"1.0,0.5"`.
//!
//! A number is an optional sign, decimal digits, and at most one decimal
//! point, with at least one digit; its value is held in fixed-point units
//! of `1 / SCALE`, the fraction truncated toward zero. A pair is two
//! numbers split at the first occurrence of a separator character.

use vstd::prelude::*;
use vstd::arithmetic::div_mod::{lemma_div_is_ordered, lemma_fundamental_div_mod_converse_div};
use vstd::string::StrSliceExecFns;
use crate::coords::{ComplexPoint, SCALE, MAX_DIM};

verus! {

/// Largest integer part a parsed number may have: `i64::MAX / SCALE`.
pub const MAX_WHOLE: u64 = 549755813887;

/// The character is a decimal digit.
pub open spec fn is_digit(c: char) -> bool {
    48 <= c as u32 <= 57
}

/// The numeric value of a decimal digit character.
pub open spec fn digit_val(c: char) -> int {
    c as u32 - 48
}

/// Every character of the sequence is a decimal digit.
pub open spec fn all_digits(s: Seq<char>) -> bool {
    forall|i: int| 0 <= i < s.len() ==> is_digit(#[trigger] s[i])
}

/// The value of a digit sequence read as a decimal integer.
pub open spec fn int_val(s: Seq<char>) -> int
    decreases s.len(),
{
    if s.len() == 0 {
        0
    } else {
        int_val(s.drop_last()) * 10 + digit_val(s.last())
    }
}

/// The value of a digit sequence read as a decimal fraction, in fixed-point
/// units: `floor(0.d1 d2 ... dn * SCALE)`, computed digit by digit from the
/// right by `v <- (d * SCALE + v) / 10`.
pub open spec fn frac_val(s: Seq<char>) -> int
    decreases s.len(),
{
    if s.len() == 0 {
        0
    } else {
        (digit_val(s[0]) * SCALE + frac_val(s.skip(1))) / 10
    }
}

/// The index of the first occurrence of `sep`, if any.
pub open spec fn find_index(s: Seq<char>, sep: char) -> Option<int>
    decreases s.len(),
{
    if s.len() == 0 {
        None
    } else if s[0] == sep {
        Some(0)
    } else {
        match find_index(s.skip(1), sep) {
            Some(i) => Some(i + 1),
            None => None,
        }
    }
}

/// An unsigned number body is well formed: digits with at most one point,
/// and at least one digit.
pub open spec fn unsigned_ok(s: Seq<char>) -> bool {
    match find_index(s, '.') {
        None => s.len() >= 1 && all_digits(s),
        Some(p) => s.len() >= 2 && all_digits(s.subrange(0, p)) && all_digits(
            s.subrange(p + 1, s.len() as int),
        ),
    }
}

/// The fixed-point value of a well-formed unsigned number body.
pub open spec fn unsigned_val(s: Seq<char>) -> int {
    match find_index(s, '.') {
        None => int_val(s) * SCALE,
        Some(p) => int_val(s.subrange(0, p)) * SCALE + frac_val(s.subrange(p + 1, s.len() as int)),
    }
}

/// Parse a number into fixed-point units: an optional `+` or `-` sign, then
/// a well-formed unsigned body whose value fits an `i64`; anything else is
/// rejected.
pub open spec fn parse_fixed_spec(s: Seq<char>) -> Option<i64> {
    let signed = s.len() > 0 && (s[0] == '-' || s[0] == '+');
    let neg = s.len() > 0 && s[0] == '-';
    let body = if signed {
        s.skip(1)
    } else {
        s
    };
    if unsigned_ok(body) && unsigned_val(body) <= i64::MAX {
        if neg {
            Some((-unsigned_val(body)) as i64)
        } else {
            Some(unsigned_val(body) as i64)
        }
    } else {
        None
    }
}

/// Parse a separated pair: split at the first occurrence of the separator
/// and parse both halves; fail if the separator is absent or either half is
/// not a number.
pub open spec fn parse_pair_spec(s: Seq<char>, separator: char) -> Option<(i64, i64)> {
    match find_index(s, separator) {
        None => None,
        Some(p) => match (
            parse_fixed_spec(s.subrange(0, p)),
            parse_fixed_spec(s.subrange(p + 1, s.len() as int)),
        ) {
            (Some(a), Some(b)) => Some((a, b)),
            _ => None,
        },
    }
}

/// Parse a comma-separated coordinate pair as a complex point.
pub open spec fn parse_complex_spec(s: Seq<char>) -> Option<ComplexPoint> {
    match parse_pair_spec(s, ',') {
        Some((re, im)) => Some(ComplexPoint { re, im }),
        None => None,
    }
}

proof fn lemma_find_index_none(s: Seq<char>, sep: char)
    requires
        forall|j: int| 0 <= j < s.len() ==> (#[trigger] s[j]) != sep,
    ensures
        find_index(s, sep) is None,
    decreases s.len(),
{
    if s.len() > 0 {
        assert(forall|j: int| 0 <= j < s.skip(1).len() ==> (#[trigger] s.skip(1)[j]) == s[j + 1]);
        lemma_find_index_none(s.skip(1), sep);
    }
}

proof fn lemma_find_index_some(s: Seq<char>, sep: char, k: int)
    requires
        0 <= k < s.len(),
        s[k] == sep,
        forall|j: int| 0 <= j < k ==> (#[trigger] s[j]) != sep,
    ensures
        find_index(s, sep) == Some(k),
    decreases s.len(),
{
    if k > 0 {
        assert(forall|j: int| 0 <= j < s.skip(1).len() ==> (#[trigger] s.skip(1)[j]) == s[j + 1]);
        lemma_find_index_some(s.skip(1), sep, k - 1);
    }
}

/// A digit sequence has a non-negative integer value.
proof fn lemma_int_val_nonneg(s: Seq<char>)
    requires
        all_digits(s),
    ensures
        int_val(s) >= 0,
    decreases s.len(),
{
    if s.len() > 0 {
        assert(all_digits(s.drop_last()));
        lemma_int_val_nonneg(s.drop_last());
        assert(int_val(s.drop_last()) * 10 >= 0) by (nonlinear_arith)
            requires
                int_val(s.drop_last()) >= 0,
        ;
    }
}

/// Reading further digits never shrinks the integer value.
proof fn lemma_int_val_prefix(s: Seq<char>, k: int)
    requires
        all_digits(s),
        0 <= k <= s.len(),
    ensures
        int_val(s) >= int_val(s.subrange(0, k)),
    decreases s.len() - k,
{
    if k == s.len() {
        assert(s.subrange(0, k) =~= s);
    } else {
        lemma_int_val_prefix(s, k + 1);
        let t = s.subrange(0, k + 1);
        assert(t.drop_last() =~= s.subrange(0, k));
        assert(all_digits(s.subrange(0, k)));
        lemma_int_val_nonneg(s.subrange(0, k));
        assert(int_val(t) == int_val(s.subrange(0, k)) * 10 + digit_val(s[k]));
        assert(int_val(s.subrange(0, k)) * 10 >= int_val(s.subrange(0, k))) by (nonlinear_arith)
            requires
                int_val(s.subrange(0, k)) >= 0,
        ;
    }
}

/// A digit sequence's fraction value lies below one whole unit.
proof fn lemma_frac_val_bounds(s: Seq<char>)
    requires
        all_digits(s),
    ensures
        0 <= frac_val(s) <= SCALE - 1,
    decreases s.len(),
{
    if s.len() > 0 {
        assert(all_digits(s.skip(1)));
        lemma_frac_val_bounds(s.skip(1));
        let d = digit_val(s[0]);
        let v = frac_val(s.skip(1));
        assert(0 <= d * SCALE + v <= 10 * SCALE - 1);
        lemma_fundamental_div_mod_converse_div(10 * (SCALE as int) - 1, 10, SCALE - 1, 9);
        lemma_div_is_ordered(0, d * SCALE + v, 10);
        lemma_div_is_ordered(d * SCALE + v, 10 * (SCALE as int) - 1, 10);
        assert(0int / 10 == 0) by {
            lemma_fundamental_div_mod_converse_div(0, 10, 0, 0);
        }
    }
}

/// Parse the character sequence of `s` as a fixed-point number.
///
/// Returns exactly `parse_fixed_spec(s@)`: the value in units of
/// `1 / SCALE` for a well-formed number that fits, `None` otherwise.
#[verifier::loop_isolation(false)]
pub fn parse_fixed(s: &str) -> (r: Option<i64>)
    ensures
        r == parse_fixed_spec(s@),
{
    let n: usize = s.unicode_len();
    let mut start: usize = 0;
    let mut neg: bool = false;
    if n > 0 {
        let c0 = s.get_char(0);
        if c0 == '-' {
            neg = true;
            start = 1;
        } else if c0 == '+' {
            start = 1;
        }
    }
    let ghost body = if start == 1 {
        s@.skip(1)
    } else {
        s@
    };
    proof {
        assert(body.len() == n - start);
        assert(forall|t: int| 0 <= t < body.len() ==> (#[trigger] body[t]) == s@[t + start]);
    }
    // Find the first decimal point at or after the sign.
    let mut dot: usize = n;
    let mut j: usize = start;
    while j < n
        invariant
            start <= j <= n,
            n == s@.len(),
            dot == n || (start <= dot && dot < j && s@[dot as int] == '.'),
            dot == n ==> forall|t: int| start <= t < j ==> (#[trigger] s@[t]) != '.',
            dot < n ==> forall|t: int| start <= t < dot ==> (#[trigger] s@[t]) != '.',
        decreases n - j,
    {
        if dot == n {
            let c = s.get_char(j);
            if c == '.' {
                dot = j;
            }
        }
        j = j + 1;
    }
    proof {
        if dot == n {
            lemma_find_index_none(body, '.');
        } else {
            lemma_find_index_some(body, '.', dot - start);
        }
    }
    // Reject when there is no digit at all.
    let int_len: usize = (if dot < n {
        dot
    } else {
        n
    }) - start;
    let frac_len: usize = if dot < n {
        n - dot - 1
    } else {
        0
    };
    if int_len == 0 && frac_len == 0 {
        return None;
    }
    // Whole part: validate digits and accumulate the value, rejecting a
    // value too large for the fixed-point range.
    let int_end: usize = start + int_len;
    let mut acc: u64 = 0;
    j = start;
    while j < int_end
        invariant
            start <= j <= int_end <= n,
            n == s@.len(),
            int_end == start + int_len,
            acc <= MAX_WHOLE,
            acc == int_val(s@.subrange(start as int, j as int)),
            all_digits(s@.subrange(start as int, j as int)),
        decreases int_end - j,
    {
        let c = s.get_char(j);
        let d: u32 = c as u32;
        if d < 48 || d > 57 {
            proof {
                lemma_reject_nondigit_int(s@, start as int, int_end as int, j as int, dot as int, n as int);
            }
            return None;
        }
        let step: u64 = acc * 10 + ((d - 48) as u64);
        proof {
            let pre = s@.subrange(start as int, j as int);
            let ext = s@.subrange(start as int, j as int + 1);
            assert(ext.drop_last() =~= pre);
            assert(int_val(ext) == int_val(pre) * 10 + digit_val(s@[j as int]));
            assert(is_digit(s@[j as int]));
            assert forall|t: int| 0 <= t < ext.len() implies is_digit(ext[t]) by {
                if t < ext.len() - 1 {
                    assert(ext[t] == pre[t]);
                } else {
                    assert(ext[t] == s@[j as int]);
                }
            }
        }
        if step > MAX_WHOLE {
            proof {
                lemma_reject_overflow(s@, start as int, int_end as int, j as int + 1, dot as int, n as int);
            }
            return None;
        }
        acc = step;
        j = j + 1;
    }
    // Fraction part: validate digits and accumulate from the right.
    let mut facc: u64 = 0;
    if dot < n {
        j = n;
        while j > dot + 1
            invariant
                dot + 1 <= j <= n,
                n == s@.len(),
                dot < n,
                facc <= SCALE as u64 - 1,
                facc == frac_val(s@.subrange(j as int, n as int)),
                all_digits(s@.subrange(j as int, n as int)),
            decreases j,
        {
            let c = s.get_char(j - 1);
            let d: u32 = c as u32;
            if d < 48 || d > 57 {
                proof {
                    lemma_reject_nondigit_frac(s@, start as int, j as int - 1, dot as int, n as int);
                }
                return None;
            }
            let step: u64 = (((d - 48) as u64) * (SCALE as u64) + facc) / 10;
            proof {
                let whole = s@.subrange(j as int - 1, n as int);
                let rest = s@.subrange(j as int, n as int);
                assert(whole.skip(1) =~= rest);
                assert(whole[0] == s@[j as int - 1]);
                assert(frac_val(whole) == (digit_val(s@[j as int - 1]) * SCALE + frac_val(rest))
                    / 10);
                let d_i = digit_val(s@[j as int - 1]);
                assert(0 <= d_i * SCALE + facc <= 10 * (SCALE as int) - 1);
                lemma_fundamental_div_mod_converse_div(10 * (SCALE as int) - 1, 10, SCALE - 1, 9);
                lemma_div_is_ordered(0, d_i * SCALE + facc, 10);
                lemma_div_is_ordered(d_i * SCALE + facc, 10 * (SCALE as int) - 1, 10);
                assert(0int / 10 == 0) by {
                    lemma_fundamental_div_mod_converse_div(0, 10, 0, 0);
                }
                assert(is_digit(s@[j as int - 1]));
                assert forall|t: int| 0 <= t < whole.len() implies is_digit(whole[t]) by {
                    if t == 0 {
                        assert(whole[0] == s@[j as int - 1]);
                    } else {
                        assert(whole[t] == rest[t - 1]);
                    }
                }
            }
            facc = step;
            j = j - 1;
        }
    }
    // Combine: the value fits because the whole part is capped and the
    // fraction stays below one unit.
    proof {
        assert((acc as int) * (SCALE as int) <= 549755813887 * 16777216) by (nonlinear_arith)
            requires
                0 <= acc <= 549755813887,
                SCALE == 16777216,
        ;
        assert(549755813887int * 16777216 == 0x7fffffffff000000int) by (nonlinear_arith);
    }
    let m: u64 = acc * (SCALE as u64) + facc;
    proof {
        lemma_combine(s@, body, start as int, dot as int, n as int, acc as int, facc as int);
    }
    if neg {
        Some(-(m as i64))
    } else {
        Some(m as i64)
    }
}

/// A non-digit in the whole part makes the body malformed.
proof fn lemma_reject_nondigit_int(s: Seq<char>, start: int, int_end: int, j: int, dot: int, n: int)
    requires
        0 <= start <= j < int_end <= n,
        n == s.len(),
        start <= 1,
        (start == 1) <==> (s.len() > 0 && (s[0] == '-' || s[0] == '+')),
        int_end == if dot < n {
            dot
        } else {
            n
        },
        dot == n || (start <= dot < n && s[dot] == '.'),
        dot == n ==> find_index(if start == 1 {
            s.skip(1)
        } else {
            s
        }, '.') is None,
        dot < n ==> find_index(if start == 1 {
            s.skip(1)
        } else {
            s
        }, '.') == Some(dot - start),
        !is_digit(s[j]),
    ensures
        parse_fixed_spec(s) is None,
{
    let body = if start == 1 {
        s.skip(1)
    } else {
        s
    };
    if dot == n {
        assert(body[j - start] == s[j]);
        assert(!all_digits(body));
    } else {
        let left = body.subrange(0, dot - start);
        assert(left[j - start] == s[j]);
        assert(!all_digits(left));
    }
}

/// A non-digit in the fraction part makes the body malformed.
proof fn lemma_reject_nondigit_frac(s: Seq<char>, start: int, j: int, dot: int, n: int)
    requires
        0 <= start <= 1,
        (start == 1) <==> (s.len() > 0 && (s[0] == '-' || s[0] == '+')),
        n == s.len(),
        start <= dot < j < n,
        s[dot] == '.',
        find_index(if start == 1 {
            s.skip(1)
        } else {
            s
        }, '.') == Some(dot - start),
        !is_digit(s[j]),
    ensures
        parse_fixed_spec(s) is None,
{
    let body = if start == 1 {
        s.skip(1)
    } else {
        s
    };
    let right = body.subrange(dot - start + 1, body.len() as int);
    assert(right[j - dot - 1] == s[j]);
    assert(!all_digits(right));
}

/// A whole part exceeding the cap pushes the value past `i64::MAX`.
proof fn lemma_reject_overflow(s: Seq<char>, start: int, int_end: int, k: int, dot: int, n: int)
    requires
        0 <= start <= 1,
        (start == 1) <==> (s.len() > 0 && (s[0] == '-' || s[0] == '+')),
        n == s.len(),
        start <= k <= int_end <= n,
        int_end == if dot < n {
            dot
        } else {
            n
        },
        dot == n || (start <= dot < n && s[dot] == '.'),
        dot == n ==> find_index(if start == 1 {
            s.skip(1)
        } else {
            s
        }, '.') is None,
        dot < n ==> find_index(if start == 1 {
            s.skip(1)
        } else {
            s
        }, '.') == Some(dot - start),
        all_digits(s.subrange(start, k)),
        int_val(s.subrange(start, k)) > MAX_WHOLE,
    ensures
        parse_fixed_spec(s) is None,
{
    let body = if start == 1 {
        s.skip(1)
    } else {
        s
    };
    let whole = if dot == n {
        body
    } else {
        body.subrange(0, dot - start)
    };
    assert(whole =~= s.subrange(start, int_end));
    if unsigned_ok(body) {
        assert(all_digits(whole));
        lemma_int_val_prefix(whole, k - start);
        assert(whole.subrange(0, k - start) =~= s.subrange(start, k));
        assert(int_val(whole) > MAX_WHOLE);
        assert(int_val(whole) * SCALE >= (MAX_WHOLE + 1) * SCALE) by (nonlinear_arith)
            requires
                int_val(whole) >= MAX_WHOLE + 1,
                SCALE > 0,
        ;
        assert((MAX_WHOLE + 1) * (SCALE as int) == 0x8000000000000000int) by (nonlinear_arith)
            requires
                MAX_WHOLE == 549755813887,
                SCALE == 16777216,
        ;
        if dot < n {
            let right = body.subrange(dot - start + 1, body.len() as int);
            assert(all_digits(right));
            lemma_frac_val_bounds(right);
            assert(unsigned_val(body) > i64::MAX);
        } else {
            assert(unsigned_val(body) > i64::MAX);
        }
    }
}

/// In the success path the accumulated whole and fraction values combine to
/// the body's value, and the parse succeeds with it.
proof fn lemma_combine(s: Seq<char>, body: Seq<char>, start: int, dot: int, n: int, acc: int, facc: int)
    requires
        0 <= start <= 1,
        (start == 1) <==> (s.len() > 0 && (s[0] == '-' || s[0] == '+')),
        n == s.len(),
        body == if start == 1 {
            s.skip(1)
        } else {
            s
        },
        start <= dot <= n,
        dot < n ==> s[dot] == '.',
        dot == n ==> find_index(body, '.') is None,
        dot < n ==> find_index(body, '.') == Some(dot - start),
        acc == int_val(
            s.subrange(
                start,
                if dot < n {
                    dot
                } else {
                    n
                },
            ),
        ),
        all_digits(
            s.subrange(
                start,
                if dot < n {
                    dot
                } else {
                    n
                },
            ),
        ),
        0 <= acc <= MAX_WHOLE,
        0 <= facc <= SCALE - 1,
        dot < n ==> facc == frac_val(s.subrange(dot + 1, n)) && all_digits(s.subrange(dot + 1, n)),
        dot == n ==> facc == 0,
        !(dot == n && n - start == 0) && !(dot < n && n - start == 1),
    ensures
        unsigned_ok(body),
        unsigned_val(body) == acc * SCALE + facc,
        unsigned_val(body) <= i64::MAX,
{
    if dot == n {
        assert(body =~= s.subrange(start, n));
        assert(unsigned_ok(body));
        assert(unsigned_val(body) == acc * SCALE);
    } else {
        let left = body.subrange(0, dot - start);
        let right = body.subrange(dot - start + 1, body.len() as int);
        assert(left =~= s.subrange(start, dot));
        assert(right =~= s.subrange(dot + 1, n));
        assert(unsigned_ok(body));
        assert(unsigned_val(body) == acc * SCALE + facc);
    }
    assert(acc * SCALE <= 549755813887 * 16777216) by (nonlinear_arith)
        requires
            0 <= acc <= 549755813887,
            SCALE == 16777216,
    ;
    assert(549755813887int * 16777216 == 0x7fffffffff000000int) by (nonlinear_arith);
}

/// Parse the string `s` as a coordinate pair, like `"400x600"` or
/// `"1.0,0.5"`: the first occurrence of `separator` splits it, and both
/// sides must be numbers. Returns exactly `parse_pair_spec(s@, separator)`.
#[verifier::loop_isolation(false)]
pub fn parse_pair(s: &str, separator: char) -> (r: Option<(i64, i64)>)
    ensures
        r == parse_pair_spec(s@, separator),
{
    let n: usize = s.unicode_len();
    let mut sep_at: usize = n;
    let mut j: usize = 0;
    while j < n
        invariant
            0 <= j <= n,
            n == s@.len(),
            sep_at == n || (sep_at < j && s@[sep_at as int] == separator),
            sep_at == n ==> forall|t: int| 0 <= t < j ==> (#[trigger] s@[t]) != separator,
            sep_at < n ==> forall|t: int| 0 <= t < sep_at ==> (#[trigger] s@[t]) != separator,
        decreases n - j,
    {
        if sep_at == n {
            let c = s.get_char(j);
            if c == separator {
                sep_at = j;
            }
        }
        j = j + 1;
    }
    if sep_at == n {
        proof {
            lemma_find_index_none(s@, separator);
        }
        None
    } else {
        proof {
            lemma_find_index_some(s@, separator, sep_at as int);
        }
        let left = s.substring_char(0, sep_at);
        let right = s.substring_char(sep_at + 1, n);
        match (parse_fixed(left), parse_fixed(right)) {
            (Some(a), Some(b)) => Some((a, b)),
            _ => None,
        }
    }
}

/// Parse a pair of numbers separated by a comma as a complex point, in
/// fixed-point units. Returns exactly `parse_complex_spec(s@)`.
pub fn parse_complex(s: &str) -> (r: Option<ComplexPoint>)
    ensures
        r == parse_complex_spec(s@),
{
    match parse_pair(s, ',') {
        Some((re, im)) => Some(ComplexPoint { re, im }),
        None => None,
    }
}

/// Whether a parsed fixed-point value names a usable pixel dimension: a
/// whole positive number of units, at most `MAX_DIM`.
pub open spec fn dimension_spec(x: i64) -> Option<usize> {
    if SCALE <= x && x % SCALE == 0 && x / SCALE <= MAX_DIM {
        Some((x / SCALE) as usize)
    } else {
        None
    }
}

/// Convert a parsed fixed-point value to a pixel dimension: defined exactly
/// when the value is a whole positive number of pixels within `MAX_DIM`.
pub fn fixed_to_dimension(x: i64) -> (r: Option<usize>)
    ensures
        r == dimension_spec(x),
{
    if x < SCALE {
        return None;
    }
    let q: u64 = (x as u64) / (SCALE as u64);
    let rem: u64 = (x as u64) % (SCALE as u64);
    if rem != 0 {
        return None;
    }
    if q > (MAX_DIM as u64) {
        return None;
    }
    Some(q as usize)
}

} // verus!
