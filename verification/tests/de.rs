use cinder::resp::{AggregateValue, RespError, RespValue, SimpleValue};

fn assert_deserializes(input: &[u8], expected: RespValue) {
    let value = RespValue::deserialize(input).expect("expected input to deserialize");
    assert_eq!(value, expected);
}

fn assert_deserialize_fails(input: &[u8], expected: RespError) {
    let err =
        RespValue::deserialize(input).expect_err("expected input to fail to deserialize");
    assert_eq!(err, expected);
}

fn bulk(s: &str) -> RespValue {
    RespValue::Aggregate(AggregateValue::BulkString(s.as_bytes().to_vec()))
}

fn bulk_bytes(bytes: &[u8]) -> RespValue {
    RespValue::Aggregate(AggregateValue::BulkString(bytes.to_vec()))
}

#[test]
fn deserializes_simple_string() {
    assert_deserializes(
        b"+OK\r\n",
        RespValue::Simple(SimpleValue::SimpleString(b"OK".to_vec())),
    );
}

#[test]
fn deserializes_simple_string_containing_spaces() {
    assert_deserializes(
        b"+hello world\r\n",
        RespValue::Simple(SimpleValue::SimpleString(b"hello world".to_vec())),
    );
}

#[test]
fn deserializes_error() {
    assert_deserializes(
        b"-Error message\r\n",
        RespValue::Simple(SimpleValue::Error(b"Error message".to_vec())),
    );
}

#[test]
fn deserializes_empty_bulk_string() {
    assert_deserializes(
        b"$0\r\n\r\n",
        RespValue::Aggregate(AggregateValue::BulkString(Vec::new())),
    );
}

#[test]
fn legacy_null_bulk_string_normalizes_to_null() {
    assert_deserializes(b"$-1\r\n", RespValue::Simple(SimpleValue::Null));
}

#[test]
fn legacy_null_array_normalizes_to_null() {
    assert_deserializes(b"*-1\r\n", RespValue::Simple(SimpleValue::Null));
}

#[test]
fn canonical_null_deserializes() {
    assert_deserializes(b"_\r\n", RespValue::Simple(SimpleValue::Null));
}

#[test]
fn deserializes_ping_command() {
    assert_deserializes(
        b"*1\r\n$4\r\nping\r\n",
        RespValue::Aggregate(AggregateValue::Array(vec![bulk("ping")])),
    );
}

#[test]
fn deserializes_echo_command() {
    assert_deserializes(
        b"*2\r\n$4\r\necho\r\n$11\r\nhello world\r\n",
        RespValue::Aggregate(AggregateValue::Array(vec![
            bulk("echo"),
            bulk("hello world"),
        ])),
    );
}

#[test]
fn deserializes_get_command() {
    assert_deserializes(
        b"*2\r\n$3\r\nget\r\n$3\r\nkey\r\n",
        RespValue::Aggregate(AggregateValue::Array(vec![bulk("get"), bulk("key")])),
    );
}

#[test]
fn deserializes_nested_array() {
    assert_deserializes(
        b"*1\r\n*1\r\n+ok\r\n",
        RespValue::Aggregate(AggregateValue::Array(vec![RespValue::Aggregate(
            AggregateValue::Array(vec![RespValue::Simple(SimpleValue::SimpleString(
                b"ok".to_vec(),
            ))]),
        )])),
    );
}

#[test]
fn bulk_string_is_binary_safe() {
    assert_deserializes(b"$6\r\nfo\r\nob\r\n", bulk_bytes(b"fo\r\nob"));
}

#[test]
fn deserializes_boolean_true() {
    assert_deserializes(b"#t\r\n", RespValue::Simple(SimpleValue::Boolean(true)));
}

#[test]
fn deserializes_boolean_false() {
    assert_deserializes(b"#f\r\n", RespValue::Simple(SimpleValue::Boolean(false)));
}

#[test]
fn deserializes_double() {
    assert_deserializes(b",3.14\r\n", RespValue::Simple(SimpleValue::Double(b"3.14".to_vec())));
}

#[test]
fn deserializes_double_infinity() {
    assert_deserializes(
        b",inf\r\n",
        RespValue::Simple(SimpleValue::Double(b"inf".to_vec())),
    );
}

#[test]
fn deserializes_big_number() {
    assert_deserializes(
        b"(3492890328409238509324850943850943825024385\r\n",
        RespValue::Simple(SimpleValue::BigNumber(
            b"3492890328409238509324850943850943825024385".to_vec(),
        )),
    );
}

#[test]
fn deserializes_map() {
    assert_deserializes(
        b"%1\r\n+key\r\n:1\r\n",
        RespValue::Aggregate(AggregateValue::Dictionary(vec![(
            RespValue::Simple(SimpleValue::SimpleString(b"key".to_vec())),
            RespValue::Simple(SimpleValue::Integer(1)),
        )])),
    );
}

#[test]
fn deserializes_set() {
    assert_deserializes(
        b"~2\r\n:1\r\n:2\r\n",
        RespValue::Aggregate(AggregateValue::UnorderedSet(vec![
            RespValue::Simple(SimpleValue::Integer(1)),
            RespValue::Simple(SimpleValue::Integer(2)),
        ])),
    );
}

#[test]
fn deserializes_push() {
    assert_deserializes(
        b">1\r\n+message\r\n",
        RespValue::Aggregate(AggregateValue::Push(vec![RespValue::Simple(
            SimpleValue::SimpleString(b"message".to_vec()),
        )])),
    );
}

#[test]
fn deserializes_verbatim_string() {
    assert_deserializes(
        b"=15\r\ntxt:Some string\r\n",
        RespValue::Aggregate(AggregateValue::VerbatimString {
            encoding: *b"txt",
            text: b"Some string".to_vec(),
        }),
    );
}

#[test]
fn deserializes_attribute_wrapping_its_value() {
    assert_deserializes(
        b"|1\r\n+key\r\n+value\r\n+ok\r\n",
        RespValue::Aggregate(AggregateValue::Attribute {
            attributes: vec![(
                RespValue::Simple(SimpleValue::SimpleString(b"key".to_vec())),
                RespValue::Simple(SimpleValue::SimpleString(b"value".to_vec())),
            )],
            value: Box::new(RespValue::Simple(SimpleValue::SimpleString(
                b"ok".to_vec(),
            ))),
        }),
    );
}

#[test]
fn unknown_type_byte_is_an_error() {
    assert_deserialize_fails(b"^ok\r\n", RespError::UnknownType(b'^'));
}

#[test]
fn non_numeric_length_is_an_error() {
    assert_deserialize_fails(b"$abc\r\n", RespError::InvalidLength(b"abc".to_vec()));
}

#[test]
fn negative_length_other_than_sentinel_is_an_error() {
    assert_deserialize_fails(b"$-5\r\n", RespError::InvalidLength(b"-5".to_vec()));
}

#[test]
fn bulk_string_shorter_than_declared_length_is_an_error() {
    assert_deserialize_fails(b"$5\r\nhi\r\n", RespError::UnexpectedEof);
}

#[test]
fn bulk_string_missing_trailing_terminator_is_an_error() {
    assert_deserialize_fails(b"$2\r\nhiXX", RespError::MissingTerminator);
}

#[test]
fn trailing_bytes_after_a_complete_value_is_an_error() {
    assert_deserialize_fails(b"+OK\r\n+OK\r\n", RespError::TrailingData);
}

#[test]
fn empty_input_is_an_error() {
    assert_deserialize_fails(b"", RespError::UnexpectedEof);
}

#[test]
fn invalid_integer_is_an_error() {
    assert_deserialize_fails(b":12x\r\n", RespError::InvalidInteger(b"12x".to_vec()));
}

#[test]
fn integer_out_of_range_is_an_error() {
    assert_deserialize_fails(
        b":9223372036854775808\r\n",
        RespError::InvalidInteger(b"9223372036854775808".to_vec()),
    );
}

#[test]
fn integer_limits_deserialize() {
    assert_deserializes(
        b":-9223372036854775808\r\n",
        RespValue::Simple(SimpleValue::Integer(i64::MIN)),
    );
    assert_deserializes(
        b":9223372036854775807\r\n",
        RespValue::Simple(SimpleValue::Integer(i64::MAX)),
    );
    assert_deserializes(b":+5\r\n", RespValue::Simple(SimpleValue::Integer(5)));
}

#[test]
fn sign_without_digits_is_an_invalid_integer() {
    assert_deserialize_fails(b":-\r\n", RespError::InvalidInteger(b"-".to_vec()));
}

#[test]
fn invalid_boolean_is_an_error() {
    assert_deserialize_fails(b"#x\r\n", RespError::InvalidBoolean(b"x".to_vec()));
}

#[test]
fn invalid_double_is_an_error() {
    assert_deserialize_fails(b",1.2.3\r\n", RespError::InvalidDouble(b"1.2.3".to_vec()));
    assert_deserialize_fails(b",1e\r\n", RespError::InvalidDouble(b"1e".to_vec()));
    assert_deserialize_fails(b",.\r\n", RespError::InvalidDouble(b".".to_vec()));
    for text in ["1.2.3", "1e", ".", "", " 1", "1_0", "infinit"] {
        assert!(text.parse::<f64>().is_err());
    }
}

#[test]
fn double_forms_that_rust_accepts_deserialize() {
    for text in [&b"-1.5e10"[..], b".5", b"5.", b"+nan", b"-inf", b"Infinity", b"1E-7"] {
        let mut input = b",".to_vec();
        input.extend_from_slice(text);
        input.extend_from_slice(b"\r\n");
        assert_deserializes(&input, RespValue::Simple(SimpleValue::Double(text.to_vec())));
        let parsed: f64 = std::str::from_utf8(text).unwrap().parse().unwrap();
        let _ = parsed;
    }
}

#[test]
fn invalid_big_number_is_an_error() {
    assert_deserialize_fails(b"(12a\r\n", RespError::InvalidBigNumber(b"12a".to_vec()));
    assert_deserialize_fails(b"(-\r\n", RespError::InvalidBigNumber(b"-".to_vec()));
}

#[test]
fn negative_big_number_deserializes() {
    assert_deserializes(
        b"(-12\r\n",
        RespValue::Simple(SimpleValue::BigNumber(b"-12".to_vec())),
    );
}

#[test]
fn invalid_null_is_an_error() {
    assert_deserialize_fails(b"_x\r\n", RespError::InvalidNull(b"x".to_vec()));
}

#[test]
fn verbatim_string_without_colon_is_an_error() {
    assert_deserialize_fails(b"=4\r\ntxtx\r\n", RespError::InvalidVerbatimString);
    assert_deserialize_fails(b"=3\r\ntxt\r\n", RespError::InvalidVerbatimString);
}

#[test]
fn legacy_null_is_refused_for_other_counted_types() {
    assert_deserialize_fails(b"!-1\r\n", RespError::InvalidLength(b"-1".to_vec()));
    assert_deserialize_fails(b"%-1\r\n", RespError::InvalidLength(b"-1".to_vec()));
}

#[test]
fn missing_line_terminator_is_end_of_input() {
    assert_deserialize_fails(b"+OK", RespError::UnexpectedEof);
    assert_deserialize_fails(b"*2\r\n:1\r\n", RespError::UnexpectedEof);
}
