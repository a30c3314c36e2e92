use tuning_link::value::{Value, format_value, parse_value};

fn val(negative: bool, mantissa: u64, scale: usize) -> Value {
    Value { negative, mantissa, scale }
}

#[test]
fn parses_plain_and_fractional_numbers() {
    assert_eq!(parse_value(b"12.5"), Some(val(false, 125, 1)));
    assert_eq!(parse_value(b"3.0"), Some(val(false, 30, 1)));
    assert_eq!(parse_value(b"7"), Some(val(false, 7, 0)));
    assert_eq!(parse_value(b"007"), Some(val(false, 7, 0)));
    assert_eq!(parse_value(b"0.005"), Some(val(false, 5, 3)));
}

#[test]
fn parses_signs() {
    assert_eq!(parse_value(b"-0.5"), Some(val(true, 5, 1)));
    assert_eq!(parse_value(b"+2.25"), Some(val(false, 225, 2)));
    assert_eq!(parse_value(b"-0"), Some(val(true, 0, 0)));
}

#[test]
fn parses_numbers_with_a_bare_decimal_point_side() {
    assert_eq!(parse_value(b".5"), Some(val(false, 5, 1)));
    assert_eq!(parse_value(b"3."), Some(val(false, 3, 0)));
}

#[test]
fn rejects_malformed_numbers() {
    assert_eq!(parse_value(b""), None);
    assert_eq!(parse_value(b"."), None);
    assert_eq!(parse_value(b"-"), None);
    assert_eq!(parse_value(b"-."), None);
    assert_eq!(parse_value(b"1.2.3"), None);
    assert_eq!(parse_value(b"abc"), None);
    assert_eq!(parse_value(b"1a"), None);
    assert_eq!(parse_value(b" 1"), None);
    assert_eq!(parse_value(b"--1"), None);
}

#[test]
fn mantissa_is_bounded_by_sixty_four_bits() {
    assert_eq!(parse_value(b"18446744073709551615"), Some(val(false, u64::MAX, 0)));
    assert_eq!(parse_value(b"18446744073709551616"), None);
    assert_eq!(parse_value(b"99999999999999999999"), None);
    assert_eq!(parse_value(b"184467440737.09551615"), Some(val(false, u64::MAX, 8)));
}

#[test]
fn formats_values_as_decimal_text() {
    assert_eq!(format_value(val(false, 5, 1)), b"0.5".to_vec());
    assert_eq!(format_value(val(false, 125, 1)), b"12.5".to_vec());
    assert_eq!(format_value(val(false, 0, 0)), b"0".to_vec());
    assert_eq!(format_value(val(false, 12345, 2)), b"123.45".to_vec());
    assert_eq!(format_value(val(true, 5, 3)), b"-0.005".to_vec());
    assert_eq!(format_value(val(false, 30, 1)), b"3.0".to_vec());
    assert_eq!(format_value(val(false, 0, 2)), b"0.00".to_vec());
}

#[test]
fn formatted_values_parse_back_unchanged() {
    let cases = [
        val(false, 125, 1),
        val(true, 5, 3),
        val(false, 7, 0),
        val(false, 0, 1),
        val(false, u64::MAX, 8),
    ];
    for v in cases {
        assert_eq!(parse_value(&format_value(v)), Some(v));
    }
}
