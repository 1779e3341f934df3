//! The RESP wire format, stated over byte sequences: what a frame parses to,
//! and what a value serializes to.

use vstd::prelude::*;
use super::tag::{AggregateType, RespType, SimpleType, tag_type};
use super::text::{decimal_text, is_big_number, is_float_text, parse_i64_text, signed_text};
use super::value::{Frame, FrameError};

verus! {

// ---------------------------------------------------------------------------
// Lines and counted payloads

/// A CRLF starts at index `i` of `s`.
pub open spec fn crlf_at(s: Seq<u8>, i: int) -> bool {
    0 <= i && i + 1 < s.len() && s[i] == 13 && s[i + 1] == 10
}

/// The index of the first CRLF at or after `from`.
pub open spec fn first_crlf(s: Seq<u8>, from: int) -> Option<int>
    decreases s.len() - from,
{
    if from < 0 || from + 1 >= s.len() {
        None
    } else if crlf_at(s, from) {
        Some(from)
    } else {
        first_crlf(s, from + 1)
    }
}

pub proof fn lemma_first_crlf(s: Seq<u8>, from: int)
    requires
        0 <= from,
    ensures
        match first_crlf(s, from) {
            Some(i) => from <= i && crlf_at(s, i) && forall|j: int| from <= j < i ==> !#[trigger] crlf_at(s, j),
            None => forall|j: int| from <= j ==> !#[trigger] crlf_at(s, j),
        },
    decreases s.len() - from,
{
    if from + 1 < s.len() && !crlf_at(s, from) {
        lemma_first_crlf(s, from + 1);
    }
}

/// The line at the start of `s` (without its CRLF), and how many bytes it
/// takes with its CRLF.
pub open spec fn spec_read_line(s: Seq<u8>) -> Result<(Seq<u8>, int), FrameError> {
    match first_crlf(s, 0) {
        Some(i) => Ok((s.take(i), i + 2)),
        None => Err(FrameError::UnexpectedEof),
    }
}

/// The `n` bytes at the start of `s`, which must be followed by CRLF.
pub open spec fn spec_read_exact(s: Seq<u8>, n: int) -> Result<(Seq<u8>, int), FrameError> {
    if s.len() < n + 2 {
        Err(FrameError::UnexpectedEof)
    } else if s[n] != 13 || s[n + 1] != 10 {
        Err(FrameError::MissingTerminator)
    } else {
        Ok((s.take(n), n + 2))
    }
}

/// A length or count line: `None` stands for the legacy null length `-1`,
/// which only bulk strings and arrays allow.
pub open spec fn spec_parse_length(line: Seq<u8>, allow_legacy_null: bool) -> Result<Option<int>, FrameError> {
    match parse_i64_text(line) {
        None => Err(FrameError::InvalidLength(line)),
        Some(n) => if n == -1 && allow_legacy_null {
            Ok(None)
        } else if n < 0 {
            Err(FrameError::InvalidLength(line))
        } else {
            Ok(Some(n))
        },
    }
}

// ---------------------------------------------------------------------------
// Parsing

/// The value that the line of a simple type denotes.
pub open spec fn simple_line_frame(t: SimpleType, line: Seq<u8>) -> Result<Frame, FrameError> {
    match t {
        SimpleType::SimpleString => Ok(Frame::SimpleString(line)),
        SimpleType::Error => Ok(Frame::Error(line)),
        SimpleType::Integer => match parse_i64_text(line) {
            Some(n) => Ok(Frame::Integer(n)),
            None => Err(FrameError::InvalidInteger(line)),
        },
        SimpleType::Null => if line.len() == 0 {
            Ok(Frame::Null)
        } else {
            Err(FrameError::InvalidNull(line))
        },
        SimpleType::Boolean => if line == seq![116u8] {
            Ok(Frame::Boolean(true))
        } else if line == seq![102u8] {
            Ok(Frame::Boolean(false))
        } else {
            Err(FrameError::InvalidBoolean(line))
        },
        SimpleType::Double => if is_float_text(line) {
            Ok(Frame::Double(line))
        } else {
            Err(FrameError::InvalidDouble(line))
        },
        SimpleType::BigNumber => if is_big_number(line) {
            Ok(Frame::BigNumber(line))
        } else {
            Err(FrameError::InvalidBigNumber(line))
        },
    }
}

/// A simple value after its tag byte: the value and the bytes it takes.
pub open spec fn spec_parse_simple(t: SimpleType, s: Seq<u8>) -> Result<(Frame, int), FrameError> {
    match spec_read_line(s) {
        Err(e) => Err(e),
        Ok((line, k)) => match simple_line_frame(t, line) {
            Ok(f) => Ok((f, k)),
            Err(e) => Err(e),
        },
    }
}

/// Adds `k` to the byte count of a successful parse.
pub open spec fn after(r: Result<(Frame, int), FrameError>, k: int) -> Result<(Frame, int), FrameError> {
    match r {
        Ok((f, m)) => Ok((f, k + m)),
        Err(e) => Err(e),
    }
}

/// The value at the start of `s` and the number of bytes it takes.
pub open spec fn spec_parse_value(s: Seq<u8>) -> Result<(Frame, int), FrameError>
    decreases s.len(), 0int,
{
    if s.len() == 0 {
        Err(FrameError::UnexpectedEof)
    } else {
        match tag_type(s[0]) {
            None => Err(FrameError::UnknownType(s[0])),
            Some(RespType::Simple(t)) => after(spec_parse_simple(t, s.drop_first()), 1),
            Some(RespType::Aggregate(t)) => after(spec_parse_aggregate(t, s.drop_first()), 1),
        }
    }
}

/// An aggregate value after its tag byte: the value and the bytes it takes.
pub open spec fn spec_parse_aggregate(t: AggregateType, s: Seq<u8>) -> Result<(Frame, int), FrameError>
    decreases s.len(), 1int,
{
    proof {
        lemma_first_crlf(s, 0);
    }
    match spec_read_line(s) {
        Err(e) => Err(e),
        Ok((line, k)) => {
            let rest = s.skip(k);
            let legacy_null = t == AggregateType::BulkString || t == AggregateType::Array;
            match spec_parse_length(line, legacy_null) {
                Err(e) => Err(e),
                Ok(None) => Ok((Frame::Null, k)),
                Ok(Some(n)) => match t {
                    AggregateType::BulkString => match spec_read_exact(rest, n) {
                        Ok((b, m)) => Ok((Frame::BulkString(b), k + m)),
                        Err(e) => Err(e),
                    },
                    AggregateType::BulkError => match spec_read_exact(rest, n) {
                        Ok((b, m)) => Ok((Frame::BulkError(b), k + m)),
                        Err(e) => Err(e),
                    },
                    AggregateType::VerbatimString => match spec_read_exact(rest, n) {
                        Ok((b, m)) => if n < 4 || b[3] != 58 {
                            Err(FrameError::InvalidVerbatimString)
                        } else {
                            Ok((Frame::VerbatimString(b.take(3), b.skip(4)), k + m))
                        },
                        Err(e) => Err(e),
                    },
                    AggregateType::Array => match spec_parse_values(rest, n) {
                        Ok((fs, m)) => Ok((Frame::Array(fs), k + m)),
                        Err(e) => Err(e),
                    },
                    AggregateType::UnorderedSet => match spec_parse_values(rest, n) {
                        Ok((fs, m)) => Ok((Frame::UnorderedSet(fs), k + m)),
                        Err(e) => Err(e),
                    },
                    AggregateType::Push => match spec_parse_values(rest, n) {
                        Ok((fs, m)) => Ok((Frame::Push(fs), k + m)),
                        Err(e) => Err(e),
                    },
                    AggregateType::Dictionary => match spec_parse_pairs(rest, n) {
                        Ok((ps, m)) => Ok((Frame::Dictionary(ps), k + m)),
                        Err(e) => Err(e),
                    },
                    AggregateType::Attribute => match spec_parse_pairs(rest, n) {
                        Ok((ps, m)) => if 0 <= m <= rest.len() {
                            match spec_parse_value(rest.skip(m)) {
                                Ok((v, m2)) => Ok((Frame::Attribute(ps, Box::new(v)), k + m + m2)),
                                Err(e) => Err(e),
                            }
                        } else {
                            // not reached: a parse never takes more bytes than it is given
                            Err(FrameError::UnexpectedEof)
                        },
                        Err(e) => Err(e),
                    },
                },
            }
        },
    }
}

/// `n` values one after another at the start of `s`, and the bytes they take.
pub open spec fn spec_parse_values(s: Seq<u8>, n: int) -> Result<(Seq<Frame>, int), FrameError>
    decreases s.len(), 2int,
{
    if n <= 0 {
        Ok((Seq::empty(), 0))
    } else {
        match spec_parse_value(s) {
            Err(e) => Err(e),
            Ok((f, k)) => if 0 < k <= s.len() {
                match spec_parse_values(s.skip(k), n - 1) {
                    Ok((fs, m)) => Ok((seq![f] + fs, k + m)),
                    Err(e) => Err(e),
                }
            } else {
                // not reached: a parse takes at least its tag byte, and no more than it is given
                Err(FrameError::UnexpectedEof)
            },
        }
    }
}

/// `n` key-value pairs one after another at the start of `s`, and the bytes they take.
pub open spec fn spec_parse_pairs(s: Seq<u8>, n: int) -> Result<(Seq<(Frame, Frame)>, int), FrameError>
    decreases s.len(), 2int,
{
    if n <= 0 {
        Ok((Seq::empty(), 0))
    } else {
        match spec_parse_value(s) {
            Err(e) => Err(e),
            Ok((key, k1)) => if 0 < k1 <= s.len() {
                match spec_parse_value(s.skip(k1)) {
                    Err(e) => Err(e),
                    Ok((value, k2)) => if 0 < k2 <= s.len() - k1 {
                        match spec_parse_pairs(s.skip(k1 + k2), n - 1) {
                            Ok((ps, m)) => Ok((seq![(key, value)] + ps, k1 + k2 + m)),
                            Err(e) => Err(e),
                        }
                    } else {
                        // not reached, as above
                        Err(FrameError::UnexpectedEof)
                    },
                }
            } else {
                // not reached, as above
                Err(FrameError::UnexpectedEof)
            },
        }
    }
}

/// What a whole byte sequence deserializes to: one value and nothing after it.
pub open spec fn spec_deserialize(s: Seq<u8>) -> Result<Frame, FrameError> {
    match spec_parse_value(s) {
        Ok((f, k)) => if k == s.len() {
            Ok(f)
        } else {
            Err(FrameError::TrailingData)
        },
        Err(e) => Err(e),
    }
}

// ---------------------------------------------------------------------------
// Serialization

pub open spec fn crlf() -> Seq<u8> {
    seq![13u8, 10u8]
}

/// A tag, a line body and CRLF.
pub open spec fn line_frame(tag: u8, body: Seq<u8>) -> Seq<u8> {
    seq![tag] + body + crlf()
}

/// A tag, a count and CRLF.
pub open spec fn header(tag: u8, n: nat) -> Seq<u8> {
    seq![tag] + decimal_text(n) + crlf()
}

/// A tag, the length of the body, CRLF, the body and CRLF.
pub open spec fn length_prefixed(tag: u8, body: Seq<u8>) -> Seq<u8> {
    header(tag, body.len()) + body + crlf()
}

/// The wire form of a value.
pub open spec fn spec_serialize(f: Frame) -> Seq<u8>
    decreases f,
{
    match f {
        Frame::SimpleString(b) => line_frame(43, b),
        Frame::Error(b) => line_frame(45, b),
        Frame::Integer(n) => line_frame(58, signed_text(n)),
        Frame::Null => line_frame(95, Seq::empty()),
        Frame::Boolean(b) => line_frame(35, if b { seq![116u8] } else { seq![102u8] }),
        Frame::Double(t) => line_frame(44, t),
        Frame::BigNumber(d) => line_frame(40, d),
        Frame::BulkString(b) => length_prefixed(36, b),
        Frame::BulkError(b) => length_prefixed(33, b),
        Frame::VerbatimString(encoding, text) => length_prefixed(61, encoding + seq![58u8] + text),
        Frame::Array(items) => header(42, items.len()) + serialize_all(items),
        Frame::UnorderedSet(items) => header(126, items.len()) + serialize_all(items),
        Frame::Push(items) => header(62, items.len()) + serialize_all(items),
        Frame::Dictionary(pairs) => header(37, pairs.len()) + serialize_pairs(pairs),
        Frame::Attribute(pairs, value) => header(124, pairs.len()) + serialize_pairs(pairs) + spec_serialize(*value),
    }
}

/// The wire forms of values, one after another.
pub open spec fn serialize_all(s: Seq<Frame>) -> Seq<u8>
    decreases s,
{
    if s.len() == 0 {
        Seq::empty()
    } else {
        spec_serialize(s[0]) + serialize_all(s.subrange(1, s.len() as int))
    }
}

/// The wire forms of key-value pairs, key before value, one pair after another.
pub open spec fn serialize_pairs(s: Seq<(Frame, Frame)>) -> Seq<u8>
    decreases s,
{
    if s.len() == 0 {
        Seq::empty()
    } else {
        spec_serialize(s[0].0) + spec_serialize(s[0].1) + serialize_pairs(s.subrange(1, s.len() as int))
    }
}

} // verus!
