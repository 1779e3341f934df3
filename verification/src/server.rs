//! What a connection does with the bytes it receives: split them into
//! request frames, answer each one, and give up on a protocol error.
//! Reading from and writing to the socket is left to the caller.

use vstd::prelude::*;
use vstd::slice::{slice_subrange, slice_to_vec};
use vstd::string::StringSliceAdditionalSpecFns;
use crate::commands::{dispatch_with_store, spec_execute};
use crate::resp::grammar::{spec_parse_value, spec_serialize};
use crate::resp::grammar::spec_deserialize;
use crate::resp::laws::{
    law_parse_never_reports_trailing_data, law_parse_reads_only_its_bytes, lemma_parse_consumes,
    lemma_parse_cut, lemma_parse_extend, lemma_parse_serialized, lemma_serialize_nonempty, well_formed,
};
use crate::resp::text::{decimal_text, write_decimal};
use crate::resp::value::{Frame, FrameError};
use crate::resp::{RespError, RespValue, SimpleValue};
use crate::store::Store;

verus! {

// ---------------------------------------------------------------------------
// Framing

/// What the front of a connection's buffer holds: a complete request and its
/// length, nothing complete yet (`None`), or a protocol error.
pub open spec fn spec_next_frame(buffer: Seq<u8>) -> Result<Option<(Frame, int)>, FrameError> {
    if buffer.len() == 0 {
        Ok(None)
    } else {
        match spec_parse_value(buffer) {
            Ok((f, k)) => Ok(Some((f, k))),
            Err(FrameError::UnexpectedEof) => Ok(None),
            Err(e) => Err(e),
        }
    }
}

/// The complete request at the front of `buffer` and its length in bytes,
/// `None` while the request is still incomplete, or the protocol error.
pub fn next_frame(buffer: &[u8]) -> (r: Result<Option<(RespValue, usize)>, RespError>)
    ensures
        match r {
            Ok(Some((v, k))) => spec_next_frame(buffer@) == Ok::<Option<(Frame, int)>, FrameError>(
                Some((v@, k as int)),
            ) && 0 < k <= buffer@.len(),
            Ok(None) => spec_next_frame(buffer@) == Ok::<Option<(Frame, int)>, FrameError>(None),
            Err(e) => spec_next_frame(buffer@) == Err::<Option<(Frame, int)>, FrameError>(e@),
        },
{
    if buffer.len() == 0 {
        return Ok(None);
    }
    match RespValue::deserialize_prefix(buffer) {
        Ok((value, consumed)) => Ok(Some((value, consumed))),
        Err(RespError::UnexpectedEof) => Ok(None),
        Err(err) => Err(err),
    }
}

// ---------------------------------------------------------------------------
// Error replies

pub open spec fn join_decimals(bytes: Seq<u8>) -> Seq<u8>
    decreases bytes.len(),
{
    if bytes.len() == 0 {
        Seq::empty()
    } else if bytes.len() == 1 {
        decimal_text(bytes[0] as nat)
    } else {
        join_decimals(bytes.drop_last()) + ", ".spec_bytes() + decimal_text(bytes.last() as nat)
    }
}

/// A byte list as `Debug` shows it: `[97, 98, 99]`.
pub open spec fn list_text(bytes: Seq<u8>) -> Seq<u8> {
    "[".spec_bytes() + join_decimals(bytes) + "]".spec_bytes()
}

/// A parse error as `Debug` shows it, such as `UnknownType(94)` or
/// `InvalidLength([97, 98, 99])`.
pub open spec fn debug_text(e: FrameError) -> Seq<u8> {
    match e {
        FrameError::UnknownType(b) => "UnknownType(".spec_bytes() + decimal_text(b as nat) + ")".spec_bytes(),
        FrameError::UnexpectedEof => "UnexpectedEof".spec_bytes(),
        FrameError::MissingTerminator => "MissingTerminator".spec_bytes(),
        FrameError::TrailingData => "TrailingData".spec_bytes(),
        FrameError::InvalidInteger(v) => "InvalidInteger(".spec_bytes() + list_text(v) + ")".spec_bytes(),
        FrameError::InvalidLength(v) => "InvalidLength(".spec_bytes() + list_text(v) + ")".spec_bytes(),
        FrameError::InvalidBoolean(v) => "InvalidBoolean(".spec_bytes() + list_text(v) + ")".spec_bytes(),
        FrameError::InvalidDouble(v) => "InvalidDouble(".spec_bytes() + list_text(v) + ")".spec_bytes(),
        FrameError::InvalidBigNumber(v) => "InvalidBigNumber(".spec_bytes() + list_text(v) + ")".spec_bytes(),
        FrameError::InvalidNull(v) => "InvalidNull(".spec_bytes() + list_text(v) + ")".spec_bytes(),
        FrameError::InvalidVerbatimString => "InvalidVerbatimString".spec_bytes(),
    }
}

/// The reply a connection sends before it gives up on a protocol error.
pub open spec fn protocol_error_reply(e: FrameError) -> Frame {
    Frame::Error("ERR Protocol error: ".spec_bytes() + debug_text(e))
}

fn push_str(out: &mut Vec<u8>, s: &str)
    ensures
        final(out)@ == old(out)@ + s.spec_bytes(),
{
    let mut bytes = slice_to_vec(s.as_bytes());
    out.append(&mut bytes);
}

fn write_list(out: &mut Vec<u8>, bytes: &[u8])
    ensures
        final(out)@ == old(out)@ + list_text(bytes@),
{
    push_str(out, "[");
    let ghost start = out@;
    let mut i: usize = 0;
    while i < bytes.len()
        invariant
            i <= bytes@.len(),
            out@ == start + join_decimals(bytes@.take(i as int)),
        decreases bytes@.len() - i,
    {
        let ghost before = out@;
        if i > 0 {
            push_str(out, ", ");
        }
        write_decimal(bytes[i] as u128, out);
        proof {
            let t = bytes@.take(i + 1);
            assert(t.drop_last() =~= bytes@.take(i as int));
            if i == 0 {
                assert(bytes@.take(0) =~= Seq::<u8>::empty());
                assert(out@ =~= start + join_decimals(t));
            } else {
                assert(out@ =~= start + join_decimals(t));
            }
        }
        i = i + 1;
    }
    assert(bytes@.take(bytes@.len() as int) =~= bytes@);
    push_str(out, "]");
    assert(out@ =~= old(out)@ + list_text(bytes@));
}

fn write_wrapped_list(out: &mut Vec<u8>, name: &str, bytes: &[u8])
    ensures
        final(out)@ == old(out)@ + (name.spec_bytes() + list_text(bytes@) + ")".spec_bytes()),
{
    push_str(out, name);
    write_list(out, bytes);
    push_str(out, ")");
    assert(out@ =~= old(out)@ + (name.spec_bytes() + list_text(bytes@) + ")".spec_bytes()));
}

impl RespError {
    /// This error as `Debug` shows it.
    pub fn debug_text(&self) -> (text: Vec<u8>)
        ensures
            text@ == debug_text(self@),
    {
        let mut out: Vec<u8> = Vec::new();
        match self {
            RespError::UnknownType(b) => {
                push_str(&mut out, "UnknownType(");
                write_decimal(*b as u128, &mut out);
                push_str(&mut out, ")");
            },
            RespError::UnexpectedEof => push_str(&mut out, "UnexpectedEof"),
            RespError::MissingTerminator => push_str(&mut out, "MissingTerminator"),
            RespError::TrailingData => push_str(&mut out, "TrailingData"),
            RespError::InvalidInteger(v) => write_wrapped_list(&mut out, "InvalidInteger(", v.as_slice()),
            RespError::InvalidLength(v) => write_wrapped_list(&mut out, "InvalidLength(", v.as_slice()),
            RespError::InvalidBoolean(v) => write_wrapped_list(&mut out, "InvalidBoolean(", v.as_slice()),
            RespError::InvalidDouble(v) => write_wrapped_list(&mut out, "InvalidDouble(", v.as_slice()),
            RespError::InvalidBigNumber(v) => write_wrapped_list(&mut out, "InvalidBigNumber(", v.as_slice()),
            RespError::InvalidNull(v) => write_wrapped_list(&mut out, "InvalidNull(", v.as_slice()),
            RespError::InvalidVerbatimString => push_str(&mut out, "InvalidVerbatimString"),
        }
        assert(out@ =~= debug_text(self@));
        out
    }
}

// ---------------------------------------------------------------------------
// Connections

/// What a buffer of received bytes leads to: the bytes to send back, the
/// bytes left waiting for the rest of a request, the store afterwards, and
/// whether the connection is to be closed (after a protocol error).
pub open spec fn spec_serve(buffer: Seq<u8>, store: Map<Seq<u8>, Seq<u8>>) -> (
    Seq<u8>,
    Seq<u8>,
    Map<Seq<u8>, Seq<u8>>,
    bool,
)
    decreases buffer.len(),
{
    match spec_next_frame(buffer) {
        Ok(Some((request, k))) => if 0 < k <= buffer.len() {
            let (reply, store2) = spec_execute(request, store);
            let (out, rest, store3, close) = spec_serve(buffer.skip(k), store2);
            (spec_serialize(reply) + out, rest, store3, close)
        } else {
            // not reached: a request takes at least its tag byte, and no more than the buffer
            (Seq::empty(), buffer, store, true)
        },
        Ok(None) => (Seq::empty(), buffer, store, false),
        Err(e) => (spec_serialize(protocol_error_reply(e)), buffer, store, true),
    }
}

/// The state of one client connection: the bytes received that do not yet
/// make a complete request.
pub struct Connection {
    buffer: Vec<u8>,
}

impl Connection {
    pub fn new() -> (c: Connection)
        ensures
            c.pending() == Seq::<u8>::empty(),
    {
        Connection { buffer: Vec::new() }
    }

    /// The bytes received that do not yet make a complete request.
    pub closed spec fn pending(&self) -> Seq<u8> {
        self.buffer@
    }

    /// Takes bytes read from the client and answers every complete request
    /// now in the buffer, in order. Returns the bytes to send back and
    /// whether to close the connection.
    pub fn receive(&mut self, chunk: &[u8], store: &mut Store) -> (r: (Vec<u8>, bool))
        ensures
            ({
                let (out, rest, after, close) = spec_serve(old(self).pending() + chunk@, old(store)@);
                &&& r.0@ == out
                &&& r.1 == close
                &&& final(self).pending() == rest
                &&& final(store)@ == after
            }),
    {
        let mut more = slice_to_vec(chunk);
        self.buffer.append(&mut more);
        let ghost start = self.buffer@;
        let ghost store0 = store@;
        let mut out: Vec<u8> = Vec::new();
        let mut pos: usize = 0;
        assert(start.skip(0) =~= start);
        loop
            invariant
                pos <= self.buffer@.len(),
                self.buffer@ == start,
                start == old(self).pending() + chunk@,
                ({
                    let (o, rest, after, close) = spec_serve(start.skip(pos as int), store@);
                    spec_serve(start, store0) == (out@ + o, rest, after, close)
                }),
                store0 == old(store)@,
            decreases self.buffer@.len() - pos,
        {
            let remaining = slice_subrange(self.buffer.as_slice(), pos, self.buffer.len());
            assert(remaining@ =~= start.skip(pos as int));
            match next_frame(remaining) {
                Ok(Some((request, consumed))) => {
                    let ghost store_before = store@;
                    let reply = dispatch_with_store(&request, store);
                    let mut bytes = reply.serialize();
                    let ghost o_before = out@;
                    out.append(&mut bytes);
                    proof {
                        assert(remaining@.skip(consumed as int) =~= start.skip(pos + consumed));
                        let (o2, rest2, after2, close2) = spec_serve(start.skip(pos + consumed), store@);
                        assert(o_before + (spec_serialize(reply@) + o2) =~= out@ + o2);
                    }
                    pos = pos + consumed;
                },
                Ok(None) => {
                    let rest = slice_to_vec(remaining);
                    self.buffer = rest;
                    assert(out@ + Seq::<u8>::empty() =~= out@);
                    return (out, false);
                },
                Err(err) => {
                    let reply = protocol_error(&err);
                    let mut bytes = reply.serialize();
                    out.append(&mut bytes);
                    let rest = slice_to_vec(remaining);
                    self.buffer = rest;
                    return (out, true);
                },
            }
        }
    }
}

/// The error reply for a protocol error.
pub fn protocol_error(err: &RespError) -> (reply: RespValue)
    ensures
        reply@ == protocol_error_reply(err@),
{
    let mut message: Vec<u8> = Vec::new();
    push_str(&mut message, "ERR Protocol error: ");
    let mut text = err.debug_text();
    message.append(&mut text);
    RespValue::Simple(SimpleValue::Error(message))
}

// ---------------------------------------------------------------------------
// Laws

/// A well-formed value's wire form, followed by anything, is one complete
/// request of exactly that length.
pub proof fn law_complete_request_is_framed(f: Frame, rest: Seq<u8>)
    requires
        well_formed(f),
    ensures
        spec_next_frame(spec_serialize(f) + rest) == Ok::<Option<(Frame, int)>, FrameError>(
            Some((f, spec_serialize(f).len() as int)),
        ),
{
    lemma_parse_serialized(f, rest);
}

/// Any proper prefix of a well-formed value's wire form is not yet a request:
/// the connection waits for more bytes.
pub proof fn law_incomplete_request_waits(f: Frame, j: int)
    requires
        well_formed(f),
        0 <= j < spec_serialize(f).len(),
    ensures
        spec_next_frame(spec_serialize(f).take(j)) == Ok::<Option<(Frame, int)>, FrameError>(None),
{
    lemma_parse_cut(f, j);
}

/// How the received bytes are split into reads does not matter: serving `a`
/// and then the bytes left over with `b` appended sends the same replies,
/// leaves the same bytes waiting and the same store, as serving `a` and `b`
/// at once (unless `a` already closed the connection).
pub proof fn law_serve_in_pieces(a: Seq<u8>, b: Seq<u8>, store: Map<Seq<u8>, Seq<u8>>)
    requires
        !spec_serve(a, store).3,
    ensures
        ({
            let (out1, rest1, store1, _) = spec_serve(a, store);
            let (out2, rest2, store2, close2) = spec_serve(rest1 + b, store1);
            spec_serve(a + b, store) == (out1 + out2, rest2, store2, close2)
        }),
    decreases a.len(),
{
    if a.len() == 0 {
        assert(a + b =~= b);
        let (out1, rest1, store1, _) = spec_serve(a, store);
        assert(rest1 + b =~= b);
        assert(out1 + spec_serve(b, store).0 =~= spec_serve(b, store).0);
    } else {
        match spec_parse_value(a) {
            Ok((request, k)) => {
                lemma_parse_extend(a, b);
                if 0 < k <= a.len() {
                    let (reply, store2) = spec_execute(request, store);
                    assert((a + b).skip(k) =~= a.skip(k) + b);
                    law_serve_in_pieces(a.skip(k), b, store2);
                    let (o1, r1, s1, _) = spec_serve(a.skip(k), store2);
                    let (o2, r2, s2, c2) = spec_serve(r1 + b, s1);
                    assert(spec_serialize(reply) + (o1 + o2) =~= (spec_serialize(reply) + o1) + o2);
                }
            },
            Err(e) => {
                let (out1, rest1, store1, _) = spec_serve(a, store);
                assert(rest1 == a);
                assert(out1 + spec_serve(a + b, store).0 =~= spec_serve(a + b, store).0);
                if e == FrameError::UnexpectedEof {
                    assert((a + b).len() > 0);
                }
            },
        }
    }
}

/// After serving, what is left waiting never holds a complete request (unless
/// the connection is being closed): every complete request has been answered.
pub proof fn law_pending_is_incomplete(buffer: Seq<u8>, store: Map<Seq<u8>, Seq<u8>>)
    requires
        !spec_serve(buffer, store).3,
    ensures
        spec_next_frame(spec_serve(buffer, store).1) == Ok::<Option<(Frame, int)>, FrameError>(None),
    decreases buffer.len(),
{
    if let Ok(Some((request, k))) = spec_next_frame(buffer) {
        if 0 < k <= buffer.len() {
            let (reply, store2) = spec_execute(request, store);
            law_pending_is_incomplete(buffer.skip(k), store2);
        }
    }
}

/// `next_frame` and `deserialize` agree: the buffer holds a protocol error
/// exactly when deserializing it fails with an error other than running out
/// of bytes or having bytes left over, and the request that `next_frame`
/// reports is what its own bytes deserialize to.
pub proof fn law_next_frame_agrees_with_deserialize(buffer: Seq<u8>, e: FrameError)
    ensures
        spec_next_frame(buffer) == Err::<Option<(Frame, int)>, FrameError>(e) <==> (spec_deserialize(buffer)
            == Err::<Frame, FrameError>(e) && e != FrameError::UnexpectedEof && e != FrameError::TrailingData),
        spec_next_frame(buffer) matches Ok(Some((f, k))) ==> spec_deserialize(buffer.take(k)) == Ok::<Frame, FrameError>(f),
{
    law_parse_never_reports_trailing_data(buffer);
    if spec_parse_value(buffer) is Ok {
        law_parse_reads_only_its_bytes(buffer);
    }
}

/// A complete, well-formed request at the front of the buffer is answered,
/// whatever its reply (an error reply too), and the rest of the buffer is
/// then served as it would be on its own, with the store that the request
/// left.
pub proof fn law_request_answered_then_rest_served(f: Frame, rest: Seq<u8>, store: Map<Seq<u8>, Seq<u8>>)
    requires
        well_formed(f),
    ensures
        ({
            let (reply, store1) = spec_execute(f, store);
            let (out, pending, after, close) = spec_serve(rest, store1);
            spec_serve(spec_serialize(f) + rest, store) == (spec_serialize(reply) + out, pending, after, close)
        }),
{
    let buffer = spec_serialize(f) + rest;
    lemma_parse_serialized(f, rest);
    lemma_serialize_nonempty(f);
    assert(buffer.skip(spec_serialize(f).len() as int) =~= rest);
}

/// A connection is closed only on a protocol error: it closes exactly when
/// what is left in the buffer starts with one, and its last reply is then
/// the error reply for it. Otherwise what is left is an incomplete request.
pub proof fn law_close_only_on_protocol_error(buffer: Seq<u8>, store: Map<Seq<u8>, Seq<u8>>)
    ensures
        ({
            let (out, pending, after, close) = spec_serve(buffer, store);
            &&& close <==> spec_next_frame(pending) is Err
            &&& !close ==> spec_next_frame(pending) == Ok::<Option<(Frame, int)>, FrameError>(None)
            &&& spec_next_frame(pending) matches Err(e) ==> exists|before: Seq<u8>|
                out == before + spec_serialize(#[trigger] protocol_error_reply(e))
        }),
    decreases buffer.len(),
{
    lemma_parse_consumes(buffer);
    match spec_next_frame(buffer) {
        Ok(Some((request, k))) => {
            let (reply, store2) = spec_execute(request, store);
            law_close_only_on_protocol_error(buffer.skip(k), store2);
            let (o, p, a, c) = spec_serve(buffer.skip(k), store2);
            if let Err(e) = spec_next_frame(p) {
                let before = choose|before: Seq<u8>| o == before + spec_serialize(#[trigger] protocol_error_reply(e));
                assert(spec_serialize(reply) + o =~= (spec_serialize(reply) + before) + spec_serialize(protocol_error_reply(e)));
            }
        },
        Ok(None) => {},
        Err(e) => {
            assert(spec_serialize(protocol_error_reply(e)) =~= Seq::<u8>::empty() + spec_serialize(protocol_error_reply(e)));
        },
    }
}

} // verus!
