use cinder::resp::{AggregateValue, RespValue, SimpleValue};

fn assert_round_trips(input: &[u8]) {
    let value = RespValue::deserialize(input).expect("expected input to deserialize");
    assert_eq!(value.serialize(), input);
}

#[test]
fn simple_string_round_trips() {
    assert_round_trips(b"+OK\r\n");
}

#[test]
fn ping_command_round_trips() {
    assert_round_trips(b"*1\r\n$4\r\nping\r\n");
}

#[test]
fn map_round_trips() {
    assert_round_trips(b"%1\r\n+key\r\n:1\r\n");
}

#[test]
fn canonical_null_round_trips() {
    assert_round_trips(b"_\r\n");
}

#[test]
fn every_type_round_trips() {
    assert_round_trips(b"-ERR bad\r\n");
    assert_round_trips(b":-42\r\n");
    assert_round_trips(b"#t\r\n");
    assert_round_trips(b"#f\r\n");
    assert_round_trips(b",3.14\r\n");
    assert_round_trips(b"(-123456789012345678901234567890\r\n");
    assert_round_trips(b"$0\r\n\r\n");
    assert_round_trips(b"!3\r\nbad\r\n");
    assert_round_trips(b"=15\r\ntxt:Some string\r\n");
    assert_round_trips(b"~2\r\n:1\r\n:2\r\n");
    assert_round_trips(b">1\r\n+message\r\n");
    assert_round_trips(b"|1\r\n+key\r\n+value\r\n*0\r\n");
}

#[test]
fn serializes_integers_in_decimal() {
    let v = RespValue::Simple(SimpleValue::Integer(i64::MIN));
    assert_eq!(v.serialize(), b":-9223372036854775808\r\n".to_vec());
    let v = RespValue::Simple(SimpleValue::Integer(0));
    assert_eq!(v.serialize(), b":0\r\n".to_vec());
}

#[test]
fn serializes_bulk_string_with_its_length() {
    let v = RespValue::Aggregate(AggregateValue::BulkString(b"hello world".to_vec()));
    assert_eq!(v.serialize(), b"$11\r\nhello world\r\n".to_vec());
}

#[test]
fn serialized_value_deserializes_back() {
    let v = RespValue::Aggregate(AggregateValue::Attribute {
        attributes: vec![(
            RespValue::Simple(SimpleValue::SimpleString(b"ttl".to_vec())),
            RespValue::Simple(SimpleValue::Integer(3600)),
        )],
        value: Box::new(RespValue::Aggregate(AggregateValue::Array(vec![
            RespValue::Aggregate(AggregateValue::VerbatimString { encoding: *b"mkd", text: b"# hi".to_vec() }),
            RespValue::Simple(SimpleValue::Null),
            RespValue::Simple(SimpleValue::Boolean(true)),
        ]))),
    });
    let bytes = v.serialize();
    assert_eq!(RespValue::deserialize(&bytes), Ok(v));
}

#[test]
fn legacy_null_reserializes_canonically() {
    let v = RespValue::deserialize(b"$-1\r\n").expect("legacy null parses");
    assert_eq!(v.serialize(), b"_\r\n".to_vec());
}

#[test]
fn a_clone_is_equal_and_serializes_the_same() {
    let v = RespValue::deserialize(b"|1\r\n+k\r\n=8\r\ntxt:abcd\r\n%1\r\n~1\r\n,1.5\r\n>0\r\n")
        .expect("expected input to deserialize");
    let copy = v.clone();
    assert_eq!(copy, v);
    assert_eq!(copy.serialize(), v.serialize());
    if let RespValue::Aggregate(a) = &v {
        assert_eq!(RespValue::Aggregate(a.clone()), v);
    }
}
