use cinder::resp::text::{is_valid_big_number, is_float_bytes, parse_i64, write_decimal, write_signed};

#[test]
fn decimal_text_is_shortest_form() {
    let mut out = Vec::new();
    write_decimal(0, &mut out);
    write_decimal(1234567890, &mut out);
    assert_eq!(out, b"01234567890".to_vec());
}

#[test]
fn signed_text_matches_to_string() {
    for n in [0i64, 7, -7, 42, i64::MIN, i64::MAX, -1000] {
        let mut out = Vec::new();
        write_signed(n, &mut out);
        assert_eq!(out, n.to_string().into_bytes());
    }
}

#[test]
fn integer_parsing_matches_from_str() {
    for text in ["0", "+1", "-1", "0012", "9223372036854775807", "-9223372036854775808",
                 "9223372036854775808", "", "-", "+", "1a", " 1", "--1", "+-1", "99999999999999999999999"] {
        assert_eq!(parse_i64(text.as_bytes()), text.parse::<i64>().ok(), "{text}");
    }
}

#[test]
fn float_syntax_matches_from_str() {
    for text in ["1", "1.", ".1", "1.5e3", "1.5E-3", "+inf", "-Infinity", "NaN", "nan", "e5", "1e+",
                 "1.2.3", "", "inf ", "infinityx", "+", "-.", "0x10", "1_0", "1e5e5", ".e1"] {
        assert_eq!(is_float_bytes(text.as_bytes()), text.parse::<f64>().is_ok(), "{text}");
    }
}

#[test]
fn big_numbers_are_optionally_negative_digits() {
    assert!(is_valid_big_number(b"123"));
    assert!(is_valid_big_number(b"-123"));
    assert!(!is_valid_big_number(b"+123"));
    assert!(!is_valid_big_number(b""));
    assert!(!is_valid_big_number(b"-"));
    assert!(!is_valid_big_number(b"12.3"));
}
