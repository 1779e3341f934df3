//! Parsing RESP frames from bytes.

use vstd::prelude::*;
use vstd::slice::{slice_subrange, slice_to_vec};
use super::error::RespError;
use super::grammar::{
    first_crlf, lemma_first_crlf, simple_line_frame, spec_deserialize, spec_parse_aggregate,
    spec_parse_length, spec_parse_pairs, spec_parse_simple, spec_parse_value, spec_parse_values,
    spec_read_exact,
};
use super::tag::{AggregateType, RespType, SimpleType};
use super::text::{is_valid_big_number, is_float_bytes, parse_i64};
use super::value::{
    AggregateValue, Frame, FrameError, RespValue, SimpleValue, frames_of, lemma_frames_of_push,
    lemma_pair_frames_of_push, pair_frames_of,
};

verus! {

/// A parse result agrees with its model: the same value and byte count, or the same error.
pub open spec fn parsed_as(r: Result<(RespValue, usize), RespError>, m: Result<(Frame, int), FrameError>) -> bool {
    match r {
        Ok((v, k)) => m == Ok::<(Frame, int), FrameError>((v@, k as int)),
        Err(e) => m == Err::<(Frame, int), FrameError>(e@),
    }
}

/// Puts the values already parsed in front of what the rest parses to.
pub open spec fn continue_values(
    done: Seq<Frame>,
    pos: int,
    r: Result<(Seq<Frame>, int), FrameError>,
) -> Result<(Seq<Frame>, int), FrameError> {
    match r {
        Ok((fs, m)) => Ok((done + fs, pos + m)),
        Err(e) => Err(e),
    }
}

/// Puts the pairs already parsed in front of what the rest parses to.
pub open spec fn continue_pairs(
    done: Seq<(Frame, Frame)>,
    pos: int,
    r: Result<(Seq<(Frame, Frame)>, int), FrameError>,
) -> Result<(Seq<(Frame, Frame)>, int), FrameError> {
    match r {
        Ok((ps, m)) => Ok((done + ps, pos + m)),
        Err(e) => Err(e),
    }
}

impl RespValue {
    /// Parses exactly one value from `input`; bytes left over are an error.
    pub fn deserialize(input: &[u8]) -> (r: Result<RespValue, RespError>)
        ensures
            match r {
                Ok(v) => spec_deserialize(input@) == Ok::<Frame, FrameError>(v@),
                Err(e) => spec_deserialize(input@) == Err::<Frame, FrameError>(e@),
            },
    {
        match parse_value(input) {
            Ok((value, consumed)) => {
                if consumed != input.len() {
                    return Err(RespError::TrailingData);
                }
                Ok(value)
            },
            Err(e) => Err(e),
        }
    }

    /// Parses the value at the start of `input` and reports how many bytes it
    /// takes; the bytes after it are left alone.
    pub fn deserialize_prefix(input: &[u8]) -> (r: Result<(RespValue, usize), RespError>)
        ensures
            parsed_as(r, spec_parse_value(input@)),
            r matches Ok((_, k)) ==> 0 < k <= input@.len(),
    {
        parse_value(input)
    }
}

/// A length line: a byte length or element count, or the legacy null length.
enum Length {
    Known(u64),
    Null,
}

/// The index of the first CRLF in `input`.
fn read_line(input: &[u8]) -> (r: Result<usize, RespError>)
    ensures
        match r {
            Ok(i) => first_crlf(input@, 0) == Some(i as int) && i + 2 <= input@.len(),
            Err(e) => first_crlf(input@, 0) is None && e@ == FrameError::UnexpectedEof,
        },
{
    let len = input.len();
    let mut i: usize = 0;
    while i < len && len - i >= 2
        invariant
            i <= len,
            len == input@.len(),
            first_crlf(input@, 0) == first_crlf(input@, i as int),
        decreases len - i,
    {
        if input[i] == 13 && input[i + 1] == 10 {
            return Ok(i);
        }
        i = i + 1;
    }
    Err(RespError::UnexpectedEof)
}

/// Checks that `input` holds `n` bytes followed by CRLF; returns `n`.
fn read_exact(input: &[u8], n: u64) -> (r: Result<usize, RespError>)
    ensures
        match r {
            Ok(m) => m == n && spec_read_exact(input@, n as int) == Ok::<(Seq<u8>, int), FrameError>(
                (input@.take(n as int), n + 2),
            ) && m + 2 <= input@.len(),
            Err(e) => spec_read_exact(input@, n as int) == Err::<(Seq<u8>, int), FrameError>(e@),
        },
{
    let len = input.len();
    if len < 2 || ((len - 2) as u64) < n {
        return Err(RespError::UnexpectedEof);
    }
    let k = n as usize;
    if input[k] != 13 || input[k + 1] != 10 {
        return Err(RespError::MissingTerminator);
    }
    Ok(k)
}

fn parse_length(bytes: &[u8], allow_legacy_null: bool) -> (r: Result<Length, RespError>)
    ensures
        match r {
            Ok(Length::Known(n)) => spec_parse_length(bytes@, allow_legacy_null) == Ok::<Option<int>, FrameError>(
                Some(n as int),
            ) && n <= i64::MAX,
            Ok(Length::Null) => spec_parse_length(bytes@, allow_legacy_null) == Ok::<Option<int>, FrameError>(None),
            Err(e) => spec_parse_length(bytes@, allow_legacy_null) == Err::<Option<int>, FrameError>(e@),
        },
{
    match parse_i64(bytes) {
        None => Err(RespError::InvalidLength(slice_to_vec(bytes))),
        Some(n) => {
            if n == -1 && allow_legacy_null {
                Ok(Length::Null)
            } else if n < 0 {
                Err(RespError::InvalidLength(slice_to_vec(bytes)))
            } else {
                Ok(Length::Known(n as u64))
            }
        },
    }
}

/// Parses a simple value's line, after its tag byte.
fn parse_simple(t: SimpleType, input: &[u8]) -> (r: Result<(RespValue, usize), RespError>)
    ensures
        parsed_as(r, spec_parse_simple(t, input@)),
        r matches Ok((_, k)) ==> 0 < k <= input@.len(),
{
    let total = input.len();
    let found = read_line(input);
    let i = match found {
        Ok(i) => i,
        Err(e) => return Err(e),
    };
    assert(found == Ok::<usize, RespError>(i));
    let line = slice_subrange(input, 0, i);
    assert(line@ =~= input@.take(i as int));
    let consumed = i + 2;
    let value = match t {
        SimpleType::SimpleString => SimpleValue::SimpleString(slice_to_vec(line)),
        SimpleType::Error => SimpleValue::Error(slice_to_vec(line)),
        SimpleType::Integer => match parse_i64(line) {
            Some(n) => SimpleValue::Integer(n),
            None => return Err(RespError::InvalidInteger(slice_to_vec(line))),
        },
        SimpleType::Null => {
            if line.len() != 0 {
                return Err(RespError::InvalidNull(slice_to_vec(line)));
            }
            SimpleValue::Null
        },
        SimpleType::Boolean => {
            if line.len() == 1 && line[0] == 116 {
                assert(line@ =~= seq![116u8]);
                SimpleValue::Boolean(true)
            } else if line.len() == 1 && line[0] == 102 {
                assert(line@ =~= seq![102u8]);
                SimpleValue::Boolean(false)
            } else {
                assert(line@ != seq![116u8] && line@ != seq![102u8]) by {
                    if line@.len() == 1 {
                        assert(line@[0] == line[0]);
                    }
                }
                return Err(RespError::InvalidBoolean(slice_to_vec(line)));
            }
        },
        SimpleType::Double => {
            if !is_float_bytes(line) {
                return Err(RespError::InvalidDouble(slice_to_vec(line)));
            }
            SimpleValue::Double(slice_to_vec(line))
        },
        SimpleType::BigNumber => {
            if !is_valid_big_number(line) {
                return Err(RespError::InvalidBigNumber(slice_to_vec(line)));
            }
            SimpleValue::BigNumber(slice_to_vec(line))
        },
    };
    assert(simple_line_frame(t, line@) == Ok::<Frame, FrameError>(RespValue::Simple(value)@));
    Ok((RespValue::Simple(value), consumed))
}

/// Parses the value at the start of `input`.
fn parse_value(input: &[u8]) -> (r: Result<(RespValue, usize), RespError>)
    ensures
        parsed_as(r, spec_parse_value(input@)),
        r matches Ok((_, k)) ==> 0 < k <= input@.len(),
    decreases input@.len(), 0int,
{
    if input.len() == 0 {
        return Err(RespError::UnexpectedEof);
    }
    let tag = input[0];
    let rest = slice_subrange(input, 1, input.len());
    assert(rest@ =~= input@.drop_first());
    match RespType::try_from(tag) {
        Err(e) => Err(e),
        Ok(RespType::Simple(t)) => match parse_simple(t, rest) {
            Ok((v, k)) => Ok((v, k + 1)),
            Err(e) => Err(e),
        },
        Ok(RespType::Aggregate(t)) => match parse_aggregate(t, rest) {
            Ok((v, k)) => Ok((v, k + 1)),
            Err(e) => Err(e),
        },
    }
}

/// Parses an aggregate value, after its tag byte.
fn parse_aggregate(t: AggregateType, input: &[u8]) -> (r: Result<(RespValue, usize), RespError>)
    ensures
        parsed_as(r, spec_parse_aggregate(t, input@)),
        r matches Ok((_, k)) ==> 0 < k <= input@.len(),
    decreases input@.len(), 1int,
{
    let total = input.len();
    let found = read_line(input);
    let i = match found {
        Ok(i) => i,
        Err(e) => return Err(e),
    };
    assert(found == Ok::<usize, RespError>(i));
    proof {
        lemma_first_crlf(input@, 0);
    }
    let line = slice_subrange(input, 0, i);
    assert(line@ =~= input@.take(i as int));
    let k = i + 2;
    let rest = slice_subrange(input, k, input.len());
    assert(rest@ =~= input@.skip(k as int));
    let legacy_null = match t {
        AggregateType::BulkString | AggregateType::Array => true,
        _ => false,
    };
    let n = match parse_length(line, legacy_null) {
        Err(e) => return Err(e),
        Ok(Length::Null) => return Ok((RespValue::Simple(SimpleValue::Null), k)),
        Ok(Length::Known(n)) => n,
    };
    match t {
        AggregateType::BulkString | AggregateType::BulkError => {
            let m = match read_exact(rest, n) {
                Ok(m) => m,
                Err(e) => return Err(e),
            };
            let body = slice_subrange(rest, 0, m);
            assert(body@ =~= rest@.take(n as int));
            let bytes = slice_to_vec(body);
            let value = match t {
                AggregateType::BulkString => AggregateValue::BulkString(bytes),
                _ => AggregateValue::BulkError(bytes),
            };
            Ok((RespValue::Aggregate(value), k + m + 2))
        },
        AggregateType::VerbatimString => {
            let m = match read_exact(rest, n) {
                Ok(m) => m,
                Err(e) => return Err(e),
            };
            let body = slice_subrange(rest, 0, m);
            assert(body@ =~= rest@.take(n as int));
            if m < 4 || body[3] != 58 {
                return Err(RespError::InvalidVerbatimString);
            }
            let encoding: [u8; 3] = [body[0], body[1], body[2]];
            let text = slice_to_vec(slice_subrange(body, 4, m));
            assert(encoding@ =~= body@.take(3));
            assert(text@ =~= body@.skip(4));
            Ok((RespValue::Aggregate(AggregateValue::VerbatimString { encoding, text }), k + m + 2))
        },
        AggregateType::Array | AggregateType::UnorderedSet | AggregateType::Push => {
            let (items, m) = match parse_n_values(rest, n) {
                Ok(p) => p,
                Err(e) => return Err(e),
            };
            let value = match t {
                AggregateType::Array => AggregateValue::Array(items),
                AggregateType::UnorderedSet => AggregateValue::UnorderedSet(items),
                _ => AggregateValue::Push(items),
            };
            Ok((RespValue::Aggregate(value), k + m))
        },
        AggregateType::Dictionary => {
            let (pairs, m) = match parse_n_pairs(rest, n) {
                Ok(p) => p,
                Err(e) => return Err(e),
            };
            Ok((RespValue::Aggregate(AggregateValue::Dictionary(pairs)), k + m))
        },
        AggregateType::Attribute => {
            let (attributes, m) = match parse_n_pairs(rest, n) {
                Ok(p) => p,
                Err(e) => return Err(e),
            };
            let tail = slice_subrange(rest, m, rest.len());
            assert(tail@ =~= rest@.skip(m as int));
            let (value, m2) = match parse_value(tail) {
                Ok(p) => p,
                Err(e) => return Err(e),
            };
            Ok((
                RespValue::Aggregate(AggregateValue::Attribute { attributes, value: Box::new(value) }),
                k + m + m2,
            ))
        },
    }
}

/// Parses `n` values one after another from the start of `input`.
fn parse_n_values(input: &[u8], n: u64) -> (r: Result<(Vec<RespValue>, usize), RespError>)
    ensures
        match r {
            Ok((items, m)) => spec_parse_values(input@, n as int) == Ok::<(Seq<Frame>, int), FrameError>(
                (frames_of(items@), m as int),
            ) && m <= input@.len(),
            Err(e) => spec_parse_values(input@, n as int) == Err::<(Seq<Frame>, int), FrameError>(e@),
        },
    decreases input@.len(), 2int,
{
    let mut items: Vec<RespValue> = Vec::new();
    let mut pos: usize = 0;
    let mut i: u64 = 0;
    assert(input@.skip(0) =~= input@);
    assert(frames_of(items@) + Seq::<Frame>::empty() =~= Seq::<Frame>::empty());
    while i < n
        invariant
            i <= n,
            pos <= input@.len(),
            spec_parse_values(input@, n as int) == continue_values(
                frames_of(items@),
                pos as int,
                spec_parse_values(input@.skip(pos as int), n - i),
            ),
        decreases n - i,
    {
        let rest = slice_subrange(input, pos, input.len());
        assert(rest@ =~= input@.skip(pos as int));
        match parse_value(rest) {
            Err(e) => {
                return Err(e);
            },
            Ok((v, k)) => {
                assert(rest@.skip(k as int) =~= input@.skip(pos + k));
                proof {
                    lemma_frames_of_push(items@, v);
                    let tail = spec_parse_values(input@.skip(pos + k), n - i - 1);
                    match tail {
                        Ok((fs, m)) => {
                            assert(frames_of(items@) + (seq![v@] + fs) =~= frames_of(items@).push(v@) + fs);
                        },
                        Err(_) => {},
                    }
                }
                items.push(v);
                pos = pos + k;
                i = i + 1;
            },
        }
    }
    assert(frames_of(items@) + Seq::<Frame>::empty() =~= frames_of(items@));
    Ok((items, pos))
}

/// Parses `n` key-value pairs one after another from the start of `input`.
fn parse_n_pairs(input: &[u8], n: u64) -> (r: Result<(Vec<(RespValue, RespValue)>, usize), RespError>)
    ensures
        match r {
            Ok((pairs, m)) => spec_parse_pairs(input@, n as int) == Ok::<(Seq<(Frame, Frame)>, int), FrameError>(
                (pair_frames_of(pairs@), m as int),
            ) && m <= input@.len(),
            Err(e) => spec_parse_pairs(input@, n as int) == Err::<(Seq<(Frame, Frame)>, int), FrameError>(e@),
        },
    decreases input@.len(), 2int,
{
    let mut pairs: Vec<(RespValue, RespValue)> = Vec::new();
    let mut pos: usize = 0;
    let mut i: u64 = 0;
    assert(input@.skip(0) =~= input@);
    assert(pair_frames_of(pairs@) + Seq::<(Frame, Frame)>::empty() =~= Seq::<(Frame, Frame)>::empty());
    while i < n
        invariant
            i <= n,
            pos <= input@.len(),
            spec_parse_pairs(input@, n as int) == continue_pairs(
                pair_frames_of(pairs@),
                pos as int,
                spec_parse_pairs(input@.skip(pos as int), n - i),
            ),
        decreases n - i,
    {
        let rest = slice_subrange(input, pos, input.len());
        assert(rest@ =~= input@.skip(pos as int));
        let (key, k1) = match parse_value(rest) {
            Ok(p) => p,
            Err(e) => return Err(e),
        };
        let rest2 = slice_subrange(rest, k1, rest.len());
        assert(rest2@ =~= rest@.skip(k1 as int));
        let (value, k2) = match parse_value(rest2) {
            Ok(p) => p,
            Err(e) => return Err(e),
        };
        assert(rest@.skip(k1 + k2) =~= input@.skip(pos + k1 + k2));
        proof {
            lemma_pair_frames_of_push(pairs@, (key, value));
            let tail = spec_parse_pairs(input@.skip(pos + k1 + k2), n - i - 1);
            match tail {
                Ok((ps, m)) => {
                    assert(pair_frames_of(pairs@) + (seq![(key@, value@)] + ps) =~= pair_frames_of(pairs@).push(
                        (key@, value@),
                    ) + ps);
                },
                Err(_) => {},
            }
        }
        pairs.push((key, value));
        pos = pos + k1 + k2;
        i = i + 1;
    }
    assert(pair_frames_of(pairs@) + Seq::<(Frame, Frame)>::empty() =~= pair_frames_of(pairs@));
    Ok((pairs, pos))
}

} // verus!
