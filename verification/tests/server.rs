use cinder::commands::dispatch_with_store;
use cinder::resp::{RespError, RespValue, SimpleValue};
use cinder::server::{next_frame, protocol_error, Connection};
use cinder::store::new_store;

#[test]
fn next_frame_waits_for_more_bytes_on_an_empty_buffer() {
    assert_eq!(next_frame(b""), Ok(None));
}

#[test]
fn next_frame_waits_for_more_bytes_on_a_partial_command() {
    assert_eq!(next_frame(b"*1\r\n$4\r\nPI"), Ok(None));
}

#[test]
fn next_frame_returns_a_complete_command_and_its_length() {
    let (value, consumed) = next_frame(b"*1\r\n$4\r\nping\r\n")
        .expect("expected parsing to succeed")
        .expect("expected a complete command");
    assert_eq!(consumed, 14);
    let mut store = new_store();
    assert_eq!(
        dispatch_with_store(&value, &mut store),
        RespValue::Simple(SimpleValue::SimpleString(b"PONG".to_vec()))
    );
}

#[test]
fn next_frame_reports_genuine_protocol_errors() {
    let err = next_frame(b"^nope\r\n").expect_err("expected a protocol error");
    assert_eq!(err, RespError::UnknownType(b'^'));
}

#[test]
fn next_frame_leaves_the_bytes_after_a_command() {
    let (_, consumed) = next_frame(b"+a\r\n+b")
        .expect("expected parsing to succeed")
        .expect("expected a complete command");
    assert_eq!(consumed, 4);
}

#[test]
fn pipelined_ping_and_echo_are_answered_in_order() {
    let mut store = new_store();
    let mut conn = Connection::new();
    let (out, close) = conn.receive(
        b"*1\r\n$4\r\nPING\r\n*2\r\n$4\r\nECHO\r\n$5\r\nhello\r\n",
        &mut store,
    );
    assert_eq!(out, b"+PONG\r\n$5\r\nhello\r\n".to_vec());
    assert!(!close);
}

#[test]
fn a_request_split_across_reads_is_answered_once_complete() {
    let mut store = new_store();
    let mut conn = Connection::new();
    let (out, close) = conn.receive(b"*2\r\n$4\r\nECHO\r\n$5\r\nhel", &mut store);
    assert!(out.is_empty());
    assert!(!close);
    let (out, close) = conn.receive(b"lo\r\n*1\r\n$4\r\nPI", &mut store);
    assert_eq!(out, b"$5\r\nhello\r\n".to_vec());
    assert!(!close);
    let (out, close) = conn.receive(b"NG\r\n", &mut store);
    assert_eq!(out, b"+PONG\r\n".to_vec());
    assert!(!close);
}

#[test]
fn set_on_one_connection_is_visible_to_another() {
    let mut store = new_store();
    let mut first = Connection::new();
    let (out, _) = first.receive(b"*3\r\n$3\r\nSET\r\n$3\r\nfoo\r\n$3\r\nbar\r\n", &mut store);
    assert_eq!(out, b"+OK\r\n".to_vec());
    let mut second = Connection::new();
    let (out, _) = second.receive(b"*2\r\n$3\r\nGET\r\n$3\r\nfoo\r\n", &mut store);
    assert_eq!(out, b"$3\r\nbar\r\n".to_vec());
}

#[test]
fn a_protocol_error_is_answered_and_closes_the_connection() {
    let mut store = new_store();
    let mut conn = Connection::new();
    let (out, close) = conn.receive(b"*1\r\n$4\r\nPING\r\n^nope\r\n", &mut store);
    assert_eq!(out, b"+PONG\r\n-ERR Protocol error: UnknownType(94)\r\n".to_vec());
    assert!(close);
}

#[test]
fn protocol_errors_show_their_payload() {
    assert_eq!(
        protocol_error(&RespError::InvalidLength(b"abc".to_vec())),
        RespValue::Simple(SimpleValue::Error(
            b"ERR Protocol error: InvalidLength([97, 98, 99])".to_vec()
        ))
    );
    assert_eq!(
        RespError::InvalidNull(vec![]).debug_text(),
        format!("{:?}", RespError::InvalidNull(vec![])).into_bytes()
    );
    assert_eq!(
        RespError::InvalidInteger(b"x".to_vec()).debug_text(),
        format!("{:?}", RespError::InvalidInteger(b"x".to_vec())).into_bytes()
    );
    assert_eq!(
        RespError::MissingTerminator.debug_text(),
        b"MissingTerminator".to_vec()
    );
}

#[test]
fn the_frame_next_frame_reports_deserializes_alone() {
    let buffer = b"*2\r\n$4\r\nECHO\r\n$2\r\nhi\r\n*1\r\n$4\r\nPI";
    let (value, consumed) = next_frame(buffer)
        .expect("expected parsing to succeed")
        .expect("expected a complete command");
    assert_eq!(RespValue::deserialize(&buffer[..consumed]), Ok(value));
    assert_eq!(RespValue::deserialize(buffer), Err(RespError::TrailingData));
}
