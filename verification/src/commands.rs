//! The command set: a request is an array of bulk strings, the first naming
//! the command (in any letter case) and the rest its arguments.

use vstd::prelude::*;
use vstd::slice::slice_to_vec;
use vstd::string::StringSliceAdditionalSpecFns;
use vstd::utf8::valid_utf8;
use crate::resp::value::{frames_of, lemma_frames_of, Frame};
use crate::resp::{AggregateValue, RespValue, SimpleValue};
use crate::store::{bytes_equal, Store};

verus! {

// ---------------------------------------------------------------------------
// Replies

pub open spec fn msg_not_array() -> Seq<u8> {
    "ERR expected a RESP array of bulk strings".spec_bytes()
}

pub open spec fn msg_not_bulk() -> Seq<u8> {
    "ERR expected bulk strings as array elements".spec_bytes()
}

pub open spec fn msg_empty() -> Seq<u8> {
    "ERR empty command".spec_bytes()
}

pub open spec fn msg_unknown(name: Seq<u8>) -> Seq<u8> {
    "ERR unknown command '".spec_bytes() + name + "'".spec_bytes()
}

pub open spec fn msg_ping_arity() -> Seq<u8> {
    "ERR wrong number of arguments for 'ping' command".spec_bytes()
}

pub open spec fn msg_echo_arity() -> Seq<u8> {
    "ERR wrong number of arguments for 'echo' command".spec_bytes()
}

pub open spec fn msg_set_arity() -> Seq<u8> {
    "ERR wrong number of arguments for 'set' command".spec_bytes()
}

pub open spec fn msg_get_arity() -> Seq<u8> {
    "ERR wrong number of arguments for 'get' command".spec_bytes()
}

pub open spec fn name_ping() -> Seq<u8> {
    "PING".spec_bytes()
}

pub open spec fn name_echo() -> Seq<u8> {
    "ECHO".spec_bytes()
}

pub open spec fn name_set() -> Seq<u8> {
    "SET".spec_bytes()
}

pub open spec fn name_get() -> Seq<u8> {
    "GET".spec_bytes()
}

// ---------------------------------------------------------------------------
// Requests

/// The bytes that `String::from_utf8_lossy` gives for `bytes`: invalid
/// UTF-8 sequences replaced by U+FFFD.
pub uninterp spec fn utf8_lossy(bytes: Seq<u8>) -> Seq<u8>;

/// Text decoded from bytes as `String::from_utf8_lossy` decodes it: valid
/// UTF-8 unchanged, anything else as `utf8_lossy` has it.
pub open spec fn decode_lossy(bytes: Seq<u8>) -> Seq<u8> {
    if valid_utf8(bytes) {
        bytes
    } else {
        utf8_lossy(bytes)
    }
}

/// Calls `String::from_utf8_lossy`. Claimed: valid UTF-8 comes back
/// unchanged, and the result depends on the input bytes alone. How invalid
/// sequences are replaced is not stated.
#[verifier::external_body]
fn lossy_utf8(bytes: &[u8]) -> (r: Vec<u8>)
    ensures
        r@ == (if valid_utf8(bytes@) { bytes@ } else { utf8_lossy(bytes@) }),
{
    String::from_utf8_lossy(bytes).into_owned().into_bytes()
}

/// ASCII upper-casing of one byte, as `str::to_ascii_uppercase` does.
pub open spec fn ascii_upper(b: u8) -> u8 {
    if 97 <= b <= 122 {
        (b - 32) as u8
    } else {
        b
    }
}

pub open spec fn upper_bytes(s: Seq<u8>) -> Seq<u8> {
    Seq::new(s.len(), |i: int| ascii_upper(s[i]))
}

/// The payload of a bulk string; empty for anything else.
pub open spec fn bulk_payload(f: Frame) -> Seq<u8> {
    match f {
        Frame::BulkString(b) => b,
        _ => Seq::empty(),
    }
}

/// A request split into its command name (decoded, upper-cased) and its
/// arguments, or the error message for a malformed request.
pub open spec fn spec_parse_command(request: Frame) -> Result<(Seq<u8>, Seq<Seq<u8>>), Seq<u8>> {
    match request {
        Frame::Array(items) => if !(forall|i: int| 0 <= i < items.len() ==> #[trigger] items[i] is BulkString) {
            Err(msg_not_bulk())
        } else if items.len() == 0 {
            Err(msg_empty())
        } else {
            Ok((
                upper_bytes(decode_lossy(bulk_payload(items[0]))),
                Seq::new((items.len() - 1) as nat, |i: int| bulk_payload(items[i + 1])),
            ))
        },
        _ => Err(msg_not_array()),
    }
}

pub open spec fn arg_views(args: Seq<Vec<u8>>) -> Seq<Seq<u8>> {
    Seq::new(args.len(), |i: int| args[i]@)
}

pub open spec fn spec_ping(args: Seq<Seq<u8>>) -> Frame {
    if args.len() == 0 {
        Frame::SimpleString("PONG".spec_bytes())
    } else if args.len() == 1 {
        Frame::BulkString(args[0])
    } else {
        Frame::Error(msg_ping_arity())
    }
}

pub open spec fn spec_echo(args: Seq<Seq<u8>>) -> Frame {
    if args.len() == 1 {
        Frame::BulkString(args[0])
    } else {
        Frame::Error(msg_echo_arity())
    }
}

/// The reply to a command that needs no store.
pub open spec fn spec_run(name: Seq<u8>, args: Seq<Seq<u8>>) -> Frame {
    if name == name_ping() {
        spec_ping(args)
    } else if name == name_echo() {
        spec_echo(args)
    } else {
        Frame::Error(msg_unknown(name))
    }
}

/// The reply to a request, for the commands that need no store.
pub open spec fn spec_dispatch(request: Frame) -> Frame {
    match spec_parse_command(request) {
        Ok((name, args)) => spec_run(name, args),
        Err(message) => Frame::Error(message),
    }
}

/// The reply to a command, and the store after it.
pub open spec fn spec_run_with_store(
    name: Seq<u8>,
    args: Seq<Seq<u8>>,
    store: Map<Seq<u8>, Seq<u8>>,
) -> (Frame, Map<Seq<u8>, Seq<u8>>) {
    if name == name_set() {
        if args.len() == 2 {
            (Frame::SimpleString("OK".spec_bytes()), store.insert(args[0], args[1]))
        } else {
            (Frame::Error(msg_set_arity()), store)
        }
    } else if name == name_get() {
        if args.len() == 1 {
            if store.contains_key(args[0]) {
                (Frame::BulkString(store[args[0]]), store)
            } else {
                (Frame::Null, store)
            }
        } else {
            (Frame::Error(msg_get_arity()), store)
        }
    } else {
        (spec_run(name, args), store)
    }
}

/// The reply to a request, and the store after it.
pub open spec fn spec_execute(request: Frame, store: Map<Seq<u8>, Seq<u8>>) -> (Frame, Map<Seq<u8>, Seq<u8>>) {
    match spec_parse_command(request) {
        Ok((name, args)) => spec_run_with_store(name, args, store),
        Err(message) => (Frame::Error(message), store),
    }
}

// ---------------------------------------------------------------------------
// Executable

/// The reply to `request`, for the commands that need no store (`PING`, `ECHO`).
pub fn dispatch(request: &RespValue) -> (reply: RespValue)
    ensures
        reply@ == spec_dispatch(request@),
{
    match parse_command(request) {
        Ok((name, args)) => run(name.as_slice(), args.as_slice()),
        Err(message) => error(message.as_slice()),
    }
}

/// The reply to `request`, with `SET` and `GET` working on `store`.
pub fn dispatch_with_store(request: &RespValue, store: &mut Store) -> (reply: RespValue)
    ensures
        (reply@, final(store)@) == spec_execute(request@, old(store)@),
{
    match parse_command(request) {
        Ok((name, args)) => run_with_store(name.as_slice(), args.as_slice(), store),
        Err(message) => error(message.as_slice()),
    }
}

fn str_bytes(s: &str) -> (r: Vec<u8>)
    ensures
        r@ == s.spec_bytes(),
{
    slice_to_vec(s.as_bytes())
}

/// ASCII upper-casing, as `str::to_ascii_uppercase` does on UTF-8 text.
pub fn uppercase(bytes: &[u8]) -> (r: Vec<u8>)
    ensures
        r@ == upper_bytes(bytes@),
        r@.len() == bytes@.len(),
        forall|i: int| 0 <= i < bytes@.len() ==> (97 <= #[trigger] bytes@[i] <= 122 ==> r@[i] + 32 == bytes@[i]),
        forall|i: int| 0 <= i < bytes@.len() ==> (!(97 <= #[trigger] bytes@[i] <= 122) ==> r@[i] == bytes@[i]),
{
    let mut out: Vec<u8> = Vec::new();
    let mut i: usize = 0;
    while i < bytes.len()
        invariant
            i <= bytes@.len(),
            out@ =~= upper_bytes(bytes@.take(i as int)),
        decreases bytes@.len() - i,
    {
        let b = bytes[i];
        let u: u8 = if 97 <= b && b <= 122 { b - 32 } else { b };
        out.push(u);
        i = i + 1;
        assert(out@ =~= upper_bytes(bytes@.take(i as int)));
    }
    assert(bytes@.take(bytes@.len() as int) =~= bytes@);
    proof {
        law_uppercase_bytes(bytes@);
    }
    out
}

/// Splits a request into its command name and arguments.
fn parse_command(request: &RespValue) -> (r: Result<(Vec<u8>, Vec<Vec<u8>>), Vec<u8>>)
    ensures
        match r {
            Ok((name, args)) => spec_parse_command(request@) == Ok::<(Seq<u8>, Seq<Seq<u8>>), Seq<u8>>(
                (name@, arg_views(args@)),
            ),
            Err(message) => spec_parse_command(request@) == Err::<(Seq<u8>, Seq<Seq<u8>>), Seq<u8>>(message@),
        },
{
    let items = match request {
        RespValue::Aggregate(AggregateValue::Array(items)) => items,
        _ => return Err(str_bytes("ERR expected a RESP array of bulk strings")),
    };
    proof {
        lemma_frames_of(items@);
    }
    let ghost frames = frames_of(items@);
    assert(request@ == Frame::Array(frames));
    let mut parts: Vec<Vec<u8>> = Vec::new();
    let mut i: usize = 0;
    while i < items.len()
        invariant
            i <= items@.len(),
            request@ == Frame::Array(frames),
            frames == frames_of(items@),
            frames.len() == items@.len(),
            forall|j: int| 0 <= j < items@.len() ==> #[trigger] frames[j] == items@[j]@,
            parts@.len() == i,
            forall|j: int| 0 <= j < i ==> #[trigger] frames[j] is BulkString,
            forall|j: int| 0 <= j < i ==> #[trigger] parts@[j]@ == bulk_payload(frames[j]),
        decreases items@.len() - i,
    {
        match &items[i] {
            RespValue::Aggregate(AggregateValue::BulkString(bytes)) => {
                parts.push(slice_to_vec(bytes.as_slice()));
            },
            _ => {
                assert(!(frames[i as int] is BulkString));
                return Err(str_bytes("ERR expected bulk strings as array elements"));
            },
        }
        i = i + 1;
    }
    if parts.len() == 0 {
        return Err(str_bytes("ERR empty command"));
    }
    let name = uppercase(lossy_utf8(parts[0].as_slice()).as_slice());
    let mut args: Vec<Vec<u8>> = Vec::new();
    let mut j: usize = 1;
    while j < parts.len()
        invariant
            1 <= j <= parts@.len(),
            args@.len() == j - 1,
            forall|q: int| 0 <= q < j - 1 ==> #[trigger] args@[q]@ == parts@[q + 1]@,
        decreases parts@.len() - j,
    {
        args.push(slice_to_vec(parts[j].as_slice()));
        j = j + 1;
    }
    assert(arg_views(args@) =~= Seq::new((frames.len() - 1) as nat, |q: int| bulk_payload(frames[q + 1])));
    Ok((name, args))
}

fn simple_string(s: &str) -> (r: RespValue)
    ensures
        r@ == Frame::SimpleString(s.spec_bytes()),
{
    RespValue::Simple(SimpleValue::SimpleString(str_bytes(s)))
}

fn bulk_string(bytes: Vec<u8>) -> (r: RespValue)
    ensures
        r@ == Frame::BulkString(bytes@),
{
    RespValue::Aggregate(AggregateValue::BulkString(bytes))
}

fn error(message: &[u8]) -> (r: RespValue)
    ensures
        r@ == Frame::Error(message@),
{
    RespValue::Simple(SimpleValue::Error(slice_to_vec(message)))
}

/// The reply to a command that needs no store; `name` is already upper-cased.
pub fn run(name: &[u8], args: &[Vec<u8>]) -> (reply: RespValue)
    ensures
        reply@ == spec_run(name@, arg_views(args@)),
{
    if bytes_equal(name, "PING".as_bytes()) {
        ping(args)
    } else if bytes_equal(name, "ECHO".as_bytes()) {
        echo(args)
    } else {
        let mut message = str_bytes("ERR unknown command '");
        let mut quoted = slice_to_vec(name);
        message.append(&mut quoted);
        let mut close = str_bytes("'");
        message.append(&mut close);
        error(message.as_slice())
    }
}

/// The reply to a command, with `SET` and `GET` working on `store`; `name`
/// is already upper-cased.
pub fn run_with_store(name: &[u8], args: &[Vec<u8>], store: &mut Store) -> (reply: RespValue)
    ensures
        (reply@, final(store)@) == spec_run_with_store(name@, arg_views(args@), old(store)@),
{
    if bytes_equal(name, "SET".as_bytes()) {
        if args.len() == 2 {
            store.set(slice_to_vec(args[0].as_slice()), slice_to_vec(args[1].as_slice()));
            simple_string("OK")
        } else {
            error(str_bytes("ERR wrong number of arguments for 'set' command").as_slice())
        }
    } else if bytes_equal(name, "GET".as_bytes()) {
        if args.len() == 1 {
            match store.get(args[0].as_slice()) {
                Some(value) => bulk_string(value),
                None => RespValue::Simple(SimpleValue::Null),
            }
        } else {
            error(str_bytes("ERR wrong number of arguments for 'get' command").as_slice())
        }
    } else {
        run(name, args)
    }
}

fn ping(args: &[Vec<u8>]) -> (reply: RespValue)
    ensures
        reply@ == spec_ping(arg_views(args@)),
{
    if args.len() == 0 {
        simple_string("PONG")
    } else if args.len() == 1 {
        bulk_string(slice_to_vec(args[0].as_slice()))
    } else {
        error(str_bytes("ERR wrong number of arguments for 'ping' command").as_slice())
    }
}

fn echo(args: &[Vec<u8>]) -> (reply: RespValue)
    ensures
        reply@ == spec_echo(arg_views(args@)),
{
    if args.len() == 1 {
        bulk_string(slice_to_vec(args[0].as_slice()))
    } else {
        error(str_bytes("ERR wrong number of arguments for 'echo' command").as_slice())
    }
}

// ---------------------------------------------------------------------------
// Laws

/// A request made of bulk strings.
pub open spec fn bulk_request(parts: Seq<Seq<u8>>) -> Frame {
    Frame::Array(Seq::new(parts.len(), |i: int| Frame::BulkString(parts[i])))
}

proof fn lemma_command_names()
    ensures
        upper_bytes(decode_lossy(name_set())) == name_set(),
        upper_bytes(decode_lossy(name_get())) == name_get(),
        name_set() != name_get(),
{
    broadcast use vstd::string::is_ascii_spec_bytes, vstd::utf8::encode_utf8_valid_utf8;
    reveal_strlit("SET");
    reveal_strlit("GET");
    assert(vstd::string::is_ascii("SET"));
    assert(vstd::string::is_ascii("GET"));
    assert(valid_utf8(name_set()));
    assert(valid_utf8(name_get()));
    assert(upper_bytes(name_set()) =~= name_set());
    assert(upper_bytes(name_get()) =~= name_get());
    assert(name_set()[0] != name_get()[0]);
}

/// A `GET` after a `SET` of the same key replies with the value that was set,
/// and leaves the store as the `SET` left it.
pub proof fn law_get_after_set(key: Seq<u8>, value: Seq<u8>, store: Map<Seq<u8>, Seq<u8>>)
    ensures
        ({
            let (reply1, store1) = spec_execute(bulk_request(seq![name_set(), key, value]), store);
            &&& reply1 == Frame::SimpleString("OK".spec_bytes())
            &&& store1 == store.insert(key, value)
            &&& spec_execute(bulk_request(seq![name_get(), key]), store1) == (Frame::BulkString(value), store1)
        }),
{
    lemma_command_names();
    let set_request = bulk_request(seq![name_set(), key, value]);
    let get_request = bulk_request(seq![name_get(), key]);
    if let Frame::Array(items) = set_request {
        assert(items[0] is BulkString && items[1] is BulkString && items[2] is BulkString);
        assert(Seq::new((items.len() - 1) as nat, |i: int| bulk_payload(items[i + 1])) =~= seq![key, value]);
    }
    if let Frame::Array(items) = get_request {
        assert(items[0] is BulkString && items[1] is BulkString);
        assert(Seq::new((items.len() - 1) as nat, |i: int| bulk_payload(items[i + 1])) =~= seq![key]);
    }
}

/// A `SET` changes no key but its own.
pub proof fn law_set_keeps_other_keys(key: Seq<u8>, value: Seq<u8>, other: Seq<u8>, store: Map<Seq<u8>, Seq<u8>>)
    requires
        other != key,
    ensures
        ({
            let (_, store1) = spec_execute(bulk_request(seq![name_set(), key, value]), store);
            &&& store1.contains_key(other) == store.contains_key(other)
            &&& store.contains_key(other) ==> store1[other] == store[other]
        }),
{
    law_get_after_set(key, value, store);
}

/// Command names match in any letter case: two requests whose names differ
/// only in ASCII case get the same reply.
pub proof fn law_names_ignore_case(name1: Seq<u8>, name2: Seq<u8>, args: Seq<Seq<u8>>)
    requires
        valid_utf8(name1),
        valid_utf8(name2),
        upper_bytes(name1) == upper_bytes(name2),
    ensures
        spec_dispatch(bulk_request(seq![name1] + args)) == spec_dispatch(bulk_request(seq![name2] + args)),
{
    let r1 = bulk_request(seq![name1] + args);
    let r2 = bulk_request(seq![name2] + args);
    if let (Frame::Array(items1), Frame::Array(items2)) = (r1, r2) {
        assert(forall|i: int| 0 <= i < items1.len() ==> #[trigger] items1[i] is BulkString);
        assert(forall|i: int| 0 <= i < items2.len() ==> #[trigger] items2[i] is BulkString);
        assert(bulk_payload(items1[0]) == name1);
        assert(bulk_payload(items2[0]) == name2);
        assert(Seq::new((items1.len() - 1) as nat, |i: int| bulk_payload(items1[i + 1]))
            =~= Seq::new((items2.len() - 1) as nat, |i: int| bulk_payload(items2[i + 1])));
    }
}

/// With a store, every request other than `SET` and `GET` gets the reply it
/// gets without one, and leaves the store unchanged.
pub proof fn law_store_only_for_set_and_get(request: Frame, store: Map<Seq<u8>, Seq<u8>>)
    requires
        spec_parse_command(request) matches Ok((name, _)) ==> name != name_set() && name != name_get(),
    ensures
        spec_execute(request, store) == (spec_dispatch(request), store),
{
}

/// ASCII upper-casing moves each lower-case letter (`a` to `z`) 32 places
/// down to its capital, keeps every other byte, and leaves no lower-case
/// letter behind.
pub proof fn law_uppercase_bytes(s: Seq<u8>)
    ensures
        upper_bytes(s).len() == s.len(),
        forall|i: int| 0 <= i < s.len() ==> (97 <= #[trigger] s[i] <= 122 ==> upper_bytes(s)[i] + 32 == s[i]),
        forall|i: int| 0 <= i < s.len() ==> (!(97 <= #[trigger] s[i] <= 122) ==> upper_bytes(s)[i] == s[i]),
        forall|i: int| 0 <= i < s.len() ==> !(97 <= #[trigger] upper_bytes(s)[i] <= 122),
{
}

/// Bytes below 128 are valid UTF-8.
proof fn lemma_ascii_valid_utf8(s: Seq<u8>)
    requires
        forall|i: int| 0 <= i < s.len() ==> #[trigger] s[i] < 128,
    ensures
        valid_utf8(s),
    decreases s.len(),
{
    if s.len() > 0 {
        let b = s[0];
        assert(vstd::utf8::is_leading_byte_width_1(b));
        assert(vstd::utf8::codepoint_width_1(b) == b as u32) by (bit_vector)
            requires b < 128;
        let t = vstd::utf8::pop_first_scalar(s);
        assert(t =~= s.drop_first());
        lemma_ascii_valid_utf8(t);
    }
}

pub open spec fn is_capital_word(word: Seq<u8>) -> bool {
    forall|i: int| 0 <= i < word.len() ==> 65 <= #[trigger] word[i] <= 90
}

/// `name` spells `word` (written in capitals) in any mix of letter cases.
pub open spec fn spells_any_case(name: Seq<u8>, word: Seq<u8>) -> bool {
    &&& name.len() == word.len()
    &&& forall|i: int| 0 <= i < name.len() ==> #[trigger] name[i] == word[i] || name[i] == word[i] + 32
}

proof fn lemma_names_are_capitals()
    ensures
        name_ping() == seq![80u8, 73, 78, 71],
        name_echo() == seq![69u8, 67, 72, 79],
        name_set() == seq![83u8, 69, 84],
        name_get() == seq![71u8, 69, 84],
        is_capital_word(name_ping()),
        is_capital_word(name_echo()),
        is_capital_word(name_set()),
        is_capital_word(name_get()),
{
    broadcast use vstd::string::is_ascii_spec_bytes;
    reveal_strlit("PING");
    reveal_strlit("ECHO");
    reveal_strlit("SET");
    reveal_strlit("GET");
    assert(vstd::string::is_ascii("PING"));
    assert(vstd::string::is_ascii("ECHO"));
    assert(vstd::string::is_ascii("SET"));
    assert(vstd::string::is_ascii("GET"));
    assert(name_ping() =~= seq![80u8, 73, 78, 71]);
    assert(name_echo() =~= seq![69u8, 67, 72, 79]);
    assert(name_set() =~= seq![83u8, 69, 84]);
    assert(name_get() =~= seq![71u8, 69, 84]);
}

/// A command name in any letter case is read as the capital word.
proof fn lemma_name_any_case(name: Seq<u8>, word: Seq<u8>)
    requires
        is_capital_word(word),
        spells_any_case(name, word),
    ensures
        upper_bytes(decode_lossy(name)) == word,
{
    assert forall|i: int| 0 <= i < name.len() implies #[trigger] name[i] < 128 by {
        assert(65 <= word[i] <= 90);
    }
    lemma_ascii_valid_utf8(name);
    assert forall|i: int| 0 <= i < name.len() implies #[trigger] upper_bytes(name)[i] == word[i] by {
        assert(65 <= word[i] <= 90);
    }
    assert(upper_bytes(name) =~= word);
}

/// A request of bulk strings names its command by the first, upper-cased,
/// and passes the rest as arguments.
proof fn lemma_bulk_request(parts: Seq<Seq<u8>>)
    requires
        parts.len() > 0,
    ensures
        spec_parse_command(bulk_request(parts)) == Ok::<(Seq<u8>, Seq<Seq<u8>>), Seq<u8>>(
            (upper_bytes(decode_lossy(parts[0])), parts.drop_first()),
        ),
{
    if let Frame::Array(items) = bulk_request(parts) {
        assert(forall|i: int| 0 <= i < items.len() ==> #[trigger] items[i] is BulkString);
        assert(bulk_payload(items[0]) == parts[0]);
        assert(Seq::new((items.len() - 1) as nat, |i: int| bulk_payload(items[i + 1])) =~= parts.drop_first());
    }
}

/// `SET key value`, with `SET` in any letter case, replies `OK` and stores
/// the value under the key.
pub proof fn law_set_in_any_case(name: Seq<u8>, key: Seq<u8>, value: Seq<u8>, store: Map<Seq<u8>, Seq<u8>>)
    requires
        spells_any_case(name, seq![83u8, 69, 84]),
    ensures
        spec_execute(bulk_request(seq![name, key, value]), store) == (
            Frame::SimpleString(seq![79u8, 75]),
            store.insert(key, value),
        ),
{
    lemma_names_are_capitals();
    lemma_name_any_case(name, name_set());
    lemma_bulk_request(seq![name, key, value]);
    assert(seq![name, key, value].drop_first() =~= seq![key, value]);
    broadcast use vstd::string::is_ascii_spec_bytes;
    reveal_strlit("OK");
    assert(vstd::string::is_ascii("OK"));
    assert("OK".spec_bytes() =~= seq![79u8, 75]);
}

/// `GET key`, with `GET` in any letter case, replies with the stored value,
/// or null where the key has none, and changes nothing.
pub proof fn law_get_in_any_case(name: Seq<u8>, key: Seq<u8>, store: Map<Seq<u8>, Seq<u8>>)
    requires
        spells_any_case(name, seq![71u8, 69, 84]),
    ensures
        spec_execute(bulk_request(seq![name, key]), store) == (
            if store.contains_key(key) { Frame::BulkString(store[key]) } else { Frame::Null },
            store,
        ),
{
    lemma_names_are_capitals();
    lemma_name_any_case(name, name_get());
    lemma_bulk_request(seq![name, key]);
    assert(seq![name, key].drop_first() =~= seq![key]);
}

/// `ECHO message` and `PING message`, with the name in any letter case,
/// reply with the message as a bulk string, whatever bytes it holds, with or
/// without a store, and change nothing.
pub proof fn law_echo_returns_message(name: Seq<u8>, message: Seq<u8>, store: Map<Seq<u8>, Seq<u8>>)
    requires
        spells_any_case(name, seq![69u8, 67, 72, 79]) || spells_any_case(name, seq![80u8, 73, 78, 71]),
    ensures
        spec_dispatch(bulk_request(seq![name, message])) == Frame::BulkString(message),
        spec_execute(bulk_request(seq![name, message]), store) == (Frame::BulkString(message), store),
{
    lemma_names_are_capitals();
    if spells_any_case(name, seq![69u8, 67, 72, 79]) {
        lemma_name_any_case(name, name_echo());
    } else {
        lemma_name_any_case(name, name_ping());
    }
    lemma_bulk_request(seq![name, message]);
    assert(seq![name, message].drop_first() =~= seq![message]);
}

/// `PING` alone, in any letter case, replies `PONG`.
pub proof fn law_ping_alone(name: Seq<u8>, store: Map<Seq<u8>, Seq<u8>>)
    requires
        spells_any_case(name, seq![80u8, 73, 78, 71]),
    ensures
        spec_dispatch(bulk_request(seq![name])) == Frame::SimpleString(seq![80u8, 79, 78, 71]),
        spec_execute(bulk_request(seq![name]), store) == (Frame::SimpleString(seq![80u8, 79, 78, 71]), store),
{
    lemma_names_are_capitals();
    lemma_name_any_case(name, name_ping());
    lemma_bulk_request(seq![name]);
    assert(seq![name].drop_first() =~= Seq::<Seq<u8>>::empty());
    broadcast use vstd::string::is_ascii_spec_bytes;
    reveal_strlit("PONG");
    assert(vstd::string::is_ascii("PONG"));
    assert("PONG".spec_bytes() =~= seq![80u8, 79, 78, 71]);
}

/// With a store too, command names match in any letter case: two requests
/// whose names differ only in ASCII case get the same reply and leave the
/// same store.
pub proof fn law_names_ignore_case_with_store(
    name1: Seq<u8>,
    name2: Seq<u8>,
    args: Seq<Seq<u8>>,
    store: Map<Seq<u8>, Seq<u8>>,
)
    requires
        valid_utf8(name1),
        valid_utf8(name2),
        upper_bytes(name1) == upper_bytes(name2),
    ensures
        spec_execute(bulk_request(seq![name1] + args), store) == spec_execute(bulk_request(seq![name2] + args), store),
{
    lemma_bulk_request(seq![name1] + args);
    lemma_bulk_request(seq![name2] + args);
    assert((seq![name1] + args).drop_first() =~= args);
    assert((seq![name2] + args).drop_first() =~= args);
}

} // verus!
