use td::decimal::{format_i8, parse_small_number};

#[test]
fn formats_every_width() {
    assert_eq!(format_i8(0), "0");
    assert_eq!(format_i8(7), "7");
    assert_eq!(format_i8(10), "10");
    assert_eq!(format_i8(99), "99");
    assert_eq!(format_i8(100), "100");
    assert_eq!(format_i8(127), "127");
}

#[test]
fn formats_negative_numbers_behind_a_minus_sign() {
    assert_eq!(format_i8(-1), "-1");
    assert_eq!(format_i8(-45), "-45");
    assert_eq!(format_i8(-128), "-128");
}

#[test]
fn formats_as_std_does() {
    for n in i8::MIN..=i8::MAX {
        assert_eq!(format_i8(n), format!("{}", n));
    }
}

#[test]
fn parses_digits() {
    assert_eq!(parse_small_number("0"), Some(0));
    assert_eq!(parse_small_number("5"), Some(5));
    assert_eq!(parse_small_number("42"), Some(42));
    assert_eq!(parse_small_number("127"), Some(127));
}

#[test]
fn parses_leading_zeros_and_a_plus_sign() {
    assert_eq!(parse_small_number("007"), Some(7));
    assert_eq!(parse_small_number("+5"), Some(5));
    assert_eq!(parse_small_number("+000127"), Some(127));
    assert_eq!(parse_small_number("0000000000000000000000012"), Some(12));
}

#[test]
fn rejects_what_is_no_number_from_0_to_127() {
    assert_eq!(parse_small_number(""), None);
    assert_eq!(parse_small_number("+"), None);
    assert_eq!(parse_small_number("++1"), None);
    assert_eq!(parse_small_number("-1"), None);
    assert_eq!(parse_small_number("-0"), None);
    assert_eq!(parse_small_number("128"), None);
    assert_eq!(parse_small_number("1000"), None);
    assert_eq!(parse_small_number("99999999999999999999999999"), None);
    assert_eq!(parse_small_number("12a"), None);
    assert_eq!(parse_small_number("a12"), None);
    assert_eq!(parse_small_number(" 1"), None);
    assert_eq!(parse_small_number("1 "), None);
    assert_eq!(parse_small_number("0x1f"), None);
    assert_eq!(parse_small_number("١٢"), None);
    assert_eq!(parse_small_number("1.0"), None);
}

#[test]
fn parsing_reads_back_what_formatting_writes() {
    for n in 0..=i8::MAX {
        assert_eq!(parse_small_number(&format_i8(n)), Some(n));
    }
}

#[test]
fn negative_text_is_not_read_back() {
    for n in i8::MIN..0 {
        assert_eq!(parse_small_number(&format_i8(n)), None);
    }
}
