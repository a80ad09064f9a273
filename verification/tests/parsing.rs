use mandelbrot::parse::{parse_complex, parse_coord, parse_number, parse_pair};
use mandelbrot::plane::ComplexPoint;

#[test]
fn pair_with_matching_separator() {
    assert_eq!(parse_pair("400x600", 'x'), Some((400, 600)));
}

#[test]
fn pair_accepts_a_leading_plus() {
    assert_eq!(parse_pair("+400x600", 'x'), Some((400, 600)));
    assert_eq!(parse_pair("4x+6", 'x'), Some((4, 6)));
    assert_eq!(parse_pair("++4x6", 'x'), None);
    assert_eq!(parse_pair("-4x6", 'x'), None);
    assert_eq!(parse_number("+7"), Some(7));
    assert_eq!(parse_number("+"), None);
}

#[test]
fn pair_with_absent_separator() {
    assert_eq!(parse_pair("400x600", ','), None);
}

#[test]
fn pair_rejects_malformed_sides() {
    assert_eq!(parse_pair("", 'x'), None);
    assert_eq!(parse_pair("10x", 'x'), None);
    assert_eq!(parse_pair("x10", 'x'), None);
    assert_eq!(parse_pair("10x20x30", 'x'), None);
    assert_eq!(parse_pair("4a0x600", 'x'), None);
    assert_eq!(parse_pair("0x0", 'x'), Some((0, 0)));
}

#[test]
fn pair_rejects_overflow() {
    assert_eq!(parse_pair("99999999999999999999x1", 'x'), None);
}

#[test]
fn number_reads_decimal_digits() {
    assert_eq!(parse_number("0"), Some(0));
    assert_eq!(parse_number("1000"), Some(1000));
    assert_eq!(parse_number(""), None);
    assert_eq!(parse_number("12a"), None);
    assert_eq!(parse_number("-1"), None);
}

#[test]
fn complex_scenario() {
    assert_eq!(
        parse_complex("1.25,-0.0625"),
        Some(ComplexPoint {
            real: 1_250_000,
            imag: -62_500,
        })
    );
}

#[test]
fn complex_without_comma() {
    assert_eq!(parse_complex("1.25"), None);
    assert_eq!(parse_complex(""), None);
}

#[test]
fn complex_with_malformed_side() {
    assert_eq!(parse_complex(",1"), None);
    assert_eq!(parse_complex("1,"), None);
    assert_eq!(parse_complex("1,2,3"), None);
    assert_eq!(parse_complex("abc,1"), None);
}

#[test]
fn complex_with_exponent_notation() {
    assert_eq!(
        parse_complex("1e1,0"),
        Some(ComplexPoint {
            real: 10_000_000,
            imag: 0,
        })
    );
    assert_eq!(
        parse_complex("-2.5e-1,+5E-1"),
        Some(ComplexPoint {
            real: -250_000,
            imag: 500_000,
        })
    );
}

#[test]
fn complex_of_integers() {
    assert_eq!(
        parse_complex("-1,0.20"),
        Some(ComplexPoint {
            real: -1_000_000,
            imag: 200_000,
        })
    );
}

#[test]
fn coord_reads_fixed_point_decimals() {
    assert_eq!(parse_coord("2"), Some(2_000_000));
    assert_eq!(parse_coord("-1"), Some(-1_000_000));
    assert_eq!(parse_coord("0.20"), Some(200_000));
    assert_eq!(parse_coord("+0.5"), Some(500_000));
    assert_eq!(parse_coord(".5"), Some(500_000));
    assert_eq!(parse_coord("5."), Some(5_000_000));
    assert_eq!(parse_coord("-0.000001"), Some(-1));
    assert_eq!(parse_coord("0.000000"), Some(0));
}

#[test]
fn coord_rejects_malformed_text() {
    assert_eq!(parse_coord(""), None);
    assert_eq!(parse_coord("-"), None);
    assert_eq!(parse_coord("+"), None);
    assert_eq!(parse_coord("."), None);
    assert_eq!(parse_coord("-."), None);
    assert_eq!(parse_coord("1.2.3"), None);
    assert_eq!(parse_coord(" 1"), None);
    assert_eq!(parse_coord("1e"), None);
    assert_eq!(parse_coord("e1"), None);
    assert_eq!(parse_coord("1e1.5"), None);
    assert_eq!(parse_coord("1e--1"), None);
    assert_eq!(parse_coord("inf"), None);
    assert_eq!(parse_coord("NaN"), None);
}

#[test]
fn coord_reads_exponent_notation() {
    assert_eq!(parse_coord("1e1"), Some(10_000_000));
    assert_eq!(parse_coord("1E1"), Some(10_000_000));
    assert_eq!(parse_coord("1e3"), Some(1_000_000_000));
    assert_eq!(parse_coord("1e+2"), Some(100_000_000));
    assert_eq!(parse_coord("1e-1"), Some(100_000));
    assert_eq!(parse_coord("2.5e-3"), Some(2_500));
    assert_eq!(parse_coord("-1.5e1"), Some(-15_000_000));
    assert_eq!(parse_coord(".5e1"), Some(5_000_000));
    // Seven fraction digits are fine once the exponent shifts them back.
    assert_eq!(parse_coord("1.2345678e1"), Some(12_345_678));
    assert_eq!(parse_coord("0.0000001e1"), Some(1));
}

#[test]
fn coord_exponent_edges() {
    // Finer than a millionth is not representable.
    assert_eq!(parse_coord("1e-7"), None);
    assert_eq!(parse_coord("0.0000001"), None);
    // A huge exponent overflows the range unless the mantissa is zero.
    assert_eq!(parse_coord("1e99999999999999999999"), None);
    assert_eq!(parse_coord("0e99999999999999999999999999999999999999999"), Some(0));
    assert_eq!(parse_coord("-0.0e999999999999999999999999999999999999999"), Some(0));
    // The largest coordinate, written with a negative exponent.
    assert_eq!(
        parse_coord("9223372036850775807e-6"),
        Some(9_223_372_036_850_775_807)
    );
}

#[test]
fn coord_rejects_too_fine_a_fraction() {
    assert_eq!(parse_coord("0.1234567"), None);
    assert_eq!(parse_coord("0.123456"), Some(123_456));
}

#[test]
fn coord_rejects_magnitudes_out_of_range() {
    // The largest accepted magnitude is COORD_LIMIT millionths.
    assert_eq!(parse_coord("9223372036850.775807"), Some(9_223_372_036_850_775_807));
    assert_eq!(parse_coord("9223372036850.775808"), None);
    assert_eq!(parse_coord("-9223372036850.775807"), Some(-9_223_372_036_850_775_807));
    assert_eq!(parse_coord("99999999999999999999"), None);
}
