use cinder::sum::{RespError, RespSum};

#[test]
fn parse_simple_string() {
    let input: u8 = b'+';
    let value = RespSum::try_from(input).expect("Expect a parsable simple string value");
    assert_eq!(value, RespSum::SimpleString);
}

#[test]
fn parse_error() {
    let input: u8 = b'-';
    let value = RespSum::try_from(input).expect("Expect a parsable error value");
    assert_eq!(value, RespSum::Error);
}

#[test]
fn parse_integer() {
    let input: u8 = b':';
    let value = RespSum::try_from(input).expect("Expect a parsable integer value");
    assert_eq!(value, RespSum::Integer);
}

#[test]
fn parse_bulk_string() {
    let input: u8 = b'$';
    let value = RespSum::try_from(input).expect("Expect a parsable bulk string value");
    assert_eq!(value, RespSum::BulkString);
}

#[test]
fn parse_array() {
    let input: u8 = b'*';
    let value = RespSum::try_from(input).expect("Expect a parsable array value");
    assert_eq!(value, RespSum::Array);
}

#[test]
fn resp_parse_unknown_byte_is_an_error() {
    let input: u8 = b'x';
    let err = RespSum::try_from(input).expect_err("expected an unknown type byte to error");
    assert_eq!(err, RespError::UnknownType(b'x'));
}

#[test]
fn resp3_only_tags_are_not_resp2_types() {
    for tag in [b'_', b'#', b',', b'(', b'!', b'=', b'%', b'|', b'~', b'>'] {
        assert_eq!(RespSum::try_from(tag), Err(RespError::UnknownType(tag)));
    }
}
