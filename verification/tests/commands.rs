use cinder::commands::{dispatch, dispatch_with_store, run, uppercase};
use cinder::resp::{AggregateValue, RespValue, SimpleValue};
use cinder::store::new_store;

fn command(parts: &[&str]) -> RespValue {
    RespValue::Aggregate(AggregateValue::Array(
        parts
            .iter()
            .map(|p| RespValue::Aggregate(AggregateValue::BulkString(p.as_bytes().to_vec())))
            .collect(),
    ))
}

fn simple_string(s: &str) -> RespValue {
    RespValue::Simple(SimpleValue::SimpleString(s.as_bytes().to_vec()))
}

fn bulk_string(bytes: Vec<u8>) -> RespValue {
    RespValue::Aggregate(AggregateValue::BulkString(bytes))
}

fn error(message: &str) -> RespValue {
    RespValue::Simple(SimpleValue::Error(message.as_bytes().to_vec()))
}

fn assert_error(reply: &RespValue) {
    assert!(
        matches!(reply, RespValue::Simple(SimpleValue::Error(_))),
        "expected an error reply, got {reply:?}"
    );
}

#[test]
fn ping_without_args_replies_pong() {
    assert_eq!(dispatch(&command(&["PING"])), simple_string("PONG"));
}

#[test]
fn ping_is_case_insensitive() {
    assert_eq!(dispatch(&command(&["ping"])), simple_string("PONG"));
}

#[test]
fn ping_with_message_echoes_it_back() {
    assert_eq!(
        dispatch(&command(&["PING", "hello"])),
        bulk_string(b"hello".to_vec())
    );
}

#[test]
fn ping_with_too_many_args_is_an_error() {
    assert_error(&dispatch(&command(&["PING", "a", "b"])));
}

#[test]
fn echo_replies_with_the_message() {
    assert_eq!(
        dispatch(&command(&["ECHO", "Hello World"])),
        bulk_string(b"Hello World".to_vec())
    );
}

#[test]
fn echo_without_args_is_an_error() {
    assert_error(&dispatch(&command(&["ECHO"])));
}

#[test]
fn echo_with_too_many_args_is_an_error() {
    assert_error(&dispatch(&command(&["ECHO", "a", "b"])));
}

#[test]
fn unknown_command_is_an_error() {
    assert_error(&dispatch(&command(&["FLURB"])));
}

#[test]
fn non_array_request_is_an_error() {
    assert_error(&dispatch(&RespValue::Simple(SimpleValue::SimpleString(
        b"PING".to_vec(),
    ))));
}

#[test]
fn error_messages_name_the_problem() {
    assert_eq!(
        dispatch(&RespValue::Simple(SimpleValue::Integer(1))),
        error("ERR expected a RESP array of bulk strings")
    );
    assert_eq!(
        dispatch(&RespValue::Aggregate(AggregateValue::Array(vec![RespValue::Simple(
            SimpleValue::Integer(1)
        )]))),
        error("ERR expected bulk strings as array elements")
    );
    assert_eq!(
        dispatch(&RespValue::Aggregate(AggregateValue::Array(vec![]))),
        error("ERR empty command")
    );
    assert_eq!(
        dispatch(&command(&["flurb", "x"])),
        error("ERR unknown command 'FLURB'")
    );
    assert_eq!(
        dispatch(&command(&["PING", "a", "b"])),
        error("ERR wrong number of arguments for 'ping' command")
    );
    assert_eq!(
        dispatch(&command(&["echo"])),
        error("ERR wrong number of arguments for 'echo' command")
    );
}

#[test]
fn unknown_command_with_invalid_utf8_is_named_lossily() {
    let request = RespValue::Aggregate(AggregateValue::Array(vec![RespValue::Aggregate(
        AggregateValue::BulkString(vec![b'f', 0xff]),
    )]));
    assert_eq!(
        dispatch(&request),
        error("ERR unknown command 'F\u{FFFD}'")
    );
}

#[test]
fn set_then_get_reads_the_value() {
    let mut store = new_store();
    assert_eq!(
        dispatch_with_store(&command(&["SET", "foo", "bar"]), &mut store),
        simple_string("OK")
    );
    assert_eq!(
        dispatch_with_store(&command(&["get", "foo"]), &mut store),
        bulk_string(b"bar".to_vec())
    );
    assert_eq!(
        dispatch_with_store(&command(&["SET", "foo", "baz"]), &mut store),
        simple_string("OK")
    );
    assert_eq!(
        dispatch_with_store(&command(&["GET", "foo"]), &mut store),
        bulk_string(b"baz".to_vec())
    );
}

#[test]
fn get_of_a_missing_key_is_null() {
    let mut store = new_store();
    assert_eq!(
        dispatch_with_store(&command(&["GET", "nope"]), &mut store),
        RespValue::Simple(SimpleValue::Null)
    );
}

#[test]
fn set_and_get_check_their_arguments() {
    let mut store = new_store();
    assert_eq!(
        dispatch_with_store(&command(&["SET", "foo"]), &mut store),
        error("ERR wrong number of arguments for 'set' command")
    );
    assert_eq!(
        dispatch_with_store(&command(&["GET"]), &mut store),
        error("ERR wrong number of arguments for 'get' command")
    );
    assert_eq!(
        dispatch_with_store(&command(&["PING"]), &mut store),
        simple_string("PONG")
    );
}

#[test]
fn commands_without_a_store_do_not_know_set() {
    assert_eq!(
        dispatch(&command(&["SET", "a", "b"])),
        error("ERR unknown command 'SET'")
    );
}

#[test]
fn uppercase_changes_only_ascii_letters() {
    assert_eq!(uppercase(b"ping-\xc3\xa9z"), b"PING-\xc3\xa9Z".to_vec());
}

#[test]
fn run_takes_an_upper_cased_name() {
    assert_eq!(run(b"ECHO", &[b"x".to_vec()]), bulk_string(b"x".to_vec()));
    assert_eq!(run(b"echo", &[b"x".to_vec()]), error("ERR unknown command 'echo'"));
}
