use mandelbrot::{parse_pair, parse_complex, parse_fixed, fixed_to_dimension, ComplexPoint, SCALE};

#[test]
fn test_parse_pair() {
    assert_eq!(parse_pair("", ','), None);
    assert_eq!(parse_pair("10,", ','), None);
    assert_eq!(parse_pair(",10", ','), None);
    assert_eq!(parse_pair("10,20", ','), Some((10 * SCALE, 20 * SCALE)));
    assert_eq!(parse_pair("10,20xy", ','), None);
    assert_eq!(parse_pair("0.5x", ','), None);
    assert_eq!(parse_pair("0.5x1.5", 'x'), Some((SCALE / 2, SCALE + SCALE / 2)));
}

#[test]
fn test_parse_complex() {
    assert_eq!(
        parse_complex("1.25,-0.0625"),
        Some(ComplexPoint {
            re: SCALE + SCALE / 4,
            im: -(SCALE / 16),
        })
    );
    assert_eq!(parse_complex(",-0.0625"), None);
}

#[test]
fn parse_fixed_signs_and_fractions() {
    assert_eq!(parse_fixed("10"), Some(10 * SCALE));
    assert_eq!(parse_fixed("+10"), Some(10 * SCALE));
    assert_eq!(parse_fixed("-0.5"), Some(-(SCALE / 2)));
    assert_eq!(parse_fixed("1."), Some(SCALE));
    assert_eq!(parse_fixed(".5"), Some(SCALE / 2));
    assert_eq!(parse_fixed("0.25"), Some(SCALE / 4));
}

#[test]
fn parse_fixed_rejects_malformed() {
    assert_eq!(parse_fixed(""), None);
    assert_eq!(parse_fixed("-"), None);
    assert_eq!(parse_fixed("."), None);
    assert_eq!(parse_fixed("abc"), None);
    assert_eq!(parse_fixed("1.2.3"), None);
    assert_eq!(parse_fixed("1 0"), None);
}

#[test]
fn parse_fixed_rejects_overflow() {
    assert_eq!(parse_fixed("99999999999999999999"), None);
    // The cap itself still parses.
    assert_eq!(parse_fixed("549755813887"), Some(549755813887 * SCALE));
    assert_eq!(parse_fixed("549755813888"), None);
}

#[test]
fn parse_pair_separator_is_first_occurrence() {
    assert_eq!(parse_pair("1,2,3", ','), None);
    assert_eq!(parse_pair("1x2", 'x'), Some((SCALE, 2 * SCALE)));
}

#[test]
fn dimension_conversion() {
    assert_eq!(fixed_to_dimension(1000 * SCALE), Some(1000));
    assert_eq!(fixed_to_dimension(SCALE), Some(1));
    assert_eq!(fixed_to_dimension(0), None);
    assert_eq!(fixed_to_dimension(-SCALE), None);
    assert_eq!(fixed_to_dimension(10 * SCALE + SCALE / 2), None);
    assert_eq!(fixed_to_dimension(1000001 * SCALE), None);
}

#[test]
fn dimensions_parse_like_the_command_line() {
    let (w, h) = parse_pair("1000x750", 'x').expect("pair should parse");
    assert_eq!(fixed_to_dimension(w), Some(1000));
    assert_eq!(fixed_to_dimension(h), Some(750));
}
