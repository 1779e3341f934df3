//! RESP values and their mathematical model.

use vstd::prelude::*;
use super::error::RespError;

verus! {

/// A RESP value as the library holds it.
#[derive(Debug, PartialEq)]
pub enum RespValue {
    Simple(SimpleValue),
    Aggregate(AggregateValue),
}

/// A value carried on a single line.
///
/// A double is held as the text of its decimal or symbolic form (`3.14`,
/// `-1e10`, `inf`, `nan`), exactly as it stands on the wire.
#[derive(Debug, Clone, PartialEq)]
pub enum SimpleValue {
    SimpleString(Vec<u8>),
    Error(Vec<u8>),
    Integer(i64),
    Null,
    Boolean(bool),
    Double(Vec<u8>),
    BigNumber(Vec<u8>),
}

/// A value announced by a byte length or an element count.
#[derive(Debug, PartialEq)]
pub enum AggregateValue {
    BulkString(Vec<u8>),
    Array(Vec<RespValue>),
    BulkError(Vec<u8>),
    VerbatimString { encoding: [u8; 3], text: Vec<u8> },
    Dictionary(Vec<(RespValue, RespValue)>),
    Attribute { attributes: Vec<(RespValue, RespValue)>, value: Box<RespValue> },
    UnorderedSet(Vec<RespValue>),
    Push(Vec<RespValue>),
}

/// The mathematical model of a RESP value.
pub enum Frame {
    SimpleString(Seq<u8>),
    Error(Seq<u8>),
    Integer(int),
    Null,
    Boolean(bool),
    Double(Seq<u8>),
    BigNumber(Seq<u8>),
    BulkString(Seq<u8>),
    Array(Seq<Frame>),
    BulkError(Seq<u8>),
    VerbatimString(Seq<u8>, Seq<u8>),
    Dictionary(Seq<(Frame, Frame)>),
    Attribute(Seq<(Frame, Frame)>, Box<Frame>),
    UnorderedSet(Seq<Frame>),
    Push(Seq<Frame>),
}

/// The model of a parse failure.
pub enum FrameError {
    UnknownType(u8),
    UnexpectedEof,
    MissingTerminator,
    TrailingData,
    InvalidInteger(Seq<u8>),
    InvalidLength(Seq<u8>),
    InvalidBoolean(Seq<u8>),
    InvalidDouble(Seq<u8>),
    InvalidBigNumber(Seq<u8>),
    InvalidNull(Seq<u8>),
    InvalidVerbatimString,
}

impl View for RespError {
    type V = FrameError;

    open spec fn view(&self) -> FrameError {
        match self {
            RespError::UnknownType(b) => FrameError::UnknownType(*b),
            RespError::UnexpectedEof => FrameError::UnexpectedEof,
            RespError::MissingTerminator => FrameError::MissingTerminator,
            RespError::TrailingData => FrameError::TrailingData,
            RespError::InvalidInteger(b) => FrameError::InvalidInteger(b@),
            RespError::InvalidLength(b) => FrameError::InvalidLength(b@),
            RespError::InvalidBoolean(b) => FrameError::InvalidBoolean(b@),
            RespError::InvalidDouble(b) => FrameError::InvalidDouble(b@),
            RespError::InvalidBigNumber(b) => FrameError::InvalidBigNumber(b@),
            RespError::InvalidNull(b) => FrameError::InvalidNull(b@),
            RespError::InvalidVerbatimString => FrameError::InvalidVerbatimString,
        }
    }
}

pub open spec fn simple_frame(v: SimpleValue) -> Frame {
    match v {
        SimpleValue::SimpleString(b) => Frame::SimpleString(b@),
        SimpleValue::Error(b) => Frame::Error(b@),
        SimpleValue::Integer(n) => Frame::Integer(n as int),
        SimpleValue::Null => Frame::Null,
        SimpleValue::Boolean(b) => Frame::Boolean(b),
        SimpleValue::Double(t) => Frame::Double(t@),
        SimpleValue::BigNumber(d) => Frame::BigNumber(d@),
    }
}

/// The model of a value.
pub open spec fn value_frame(v: RespValue) -> Frame
    decreases v,
{
    match v {
        RespValue::Simple(s) => simple_frame(s),
        RespValue::Aggregate(a) => match a {
            AggregateValue::BulkString(b) => Frame::BulkString(b@),
            AggregateValue::Array(items) => Frame::Array(frames_of(items@)),
            AggregateValue::BulkError(b) => Frame::BulkError(b@),
            AggregateValue::VerbatimString { encoding, text } => Frame::VerbatimString(encoding@, text@),
            AggregateValue::Dictionary(pairs) => Frame::Dictionary(pair_frames_of(pairs@)),
            AggregateValue::Attribute { attributes, value } => Frame::Attribute(
                pair_frames_of(attributes@),
                Box::new(value_frame(*value)),
            ),
            AggregateValue::UnorderedSet(items) => Frame::UnorderedSet(frames_of(items@)),
            AggregateValue::Push(items) => Frame::Push(frames_of(items@)),
        },
    }
}

/// The models of a sequence of values, in order.
pub open spec fn frames_of(s: Seq<RespValue>) -> Seq<Frame>
    decreases s,
{
    if s.len() == 0 {
        Seq::empty()
    } else {
        seq![value_frame(s[0])] + frames_of(s.subrange(1, s.len() as int))
    }
}

/// The models of a sequence of key-value pairs, in order.
pub open spec fn pair_frames_of(s: Seq<(RespValue, RespValue)>) -> Seq<(Frame, Frame)>
    decreases s,
{
    if s.len() == 0 {
        Seq::empty()
    } else {
        seq![(value_frame(s[0].0), value_frame(s[0].1))] + pair_frames_of(s.subrange(1, s.len() as int))
    }
}

/// The models of a sequence are the models of its elements, position by position.
pub proof fn lemma_frames_of(s: Seq<RespValue>)
    ensures
        frames_of(s).len() == s.len(),
        forall|i: int| 0 <= i < s.len() ==> #[trigger] frames_of(s)[i] == value_frame(s[i]),
    decreases s.len(),
{
    if s.len() > 0 {
        let tail = s.subrange(1, s.len() as int);
        lemma_frames_of(tail);
        assert forall|i: int| 0 <= i < s.len() implies #[trigger] frames_of(s)[i] == value_frame(s[i]) by {
            if i > 0 {
                assert(frames_of(s)[i] == frames_of(tail)[i - 1]);
                assert(tail[i - 1] == s[i]);
            }
        }
    }
}

/// The models of a sequence of pairs are the models of its pairs, position by position.
pub proof fn lemma_pair_frames_of(s: Seq<(RespValue, RespValue)>)
    ensures
        pair_frames_of(s).len() == s.len(),
        forall|i: int| 0 <= i < s.len() ==> #[trigger] pair_frames_of(s)[i] == (value_frame(s[i].0), value_frame(s[i].1)),
    decreases s.len(),
{
    if s.len() > 0 {
        let tail = s.subrange(1, s.len() as int);
        lemma_pair_frames_of(tail);
        assert forall|i: int| 0 <= i < s.len() implies #[trigger] pair_frames_of(s)[i] == (value_frame(s[i].0), value_frame(s[i].1)) by {
            if i > 0 {
                assert(pair_frames_of(s)[i] == pair_frames_of(tail)[i - 1]);
                assert(tail[i - 1] == s[i]);
            }
        }
    }
}

pub proof fn lemma_frames_of_push(s: Seq<RespValue>, v: RespValue)
    ensures
        frames_of(s.push(v)) == frames_of(s).push(value_frame(v)),
{
    lemma_frames_of(s);
    lemma_frames_of(s.push(v));
    assert(frames_of(s.push(v)) =~= frames_of(s).push(value_frame(v)));
}

pub proof fn lemma_pair_frames_of_push(s: Seq<(RespValue, RespValue)>, p: (RespValue, RespValue))
    ensures
        pair_frames_of(s.push(p)) == pair_frames_of(s).push((value_frame(p.0), value_frame(p.1))),
{
    lemma_pair_frames_of(s);
    lemma_pair_frames_of(s.push(p));
    assert(pair_frames_of(s.push(p)) =~= pair_frames_of(s).push((value_frame(p.0), value_frame(p.1))));
}

impl View for RespValue {
    type V = Frame;

    open spec fn view(&self) -> Frame {
        value_frame(*self)
    }
}

impl Clone for RespValue {
    /// A copy with the same model.
    fn clone(&self) -> (r: RespValue)
        ensures
            r@ == self@,
        decreases self,
    {
        match self {
            RespValue::Simple(v) => RespValue::Simple(copy_simple(v)),
            RespValue::Aggregate(v) => RespValue::Aggregate(copy_aggregate(v)),
        }
    }
}

impl Clone for AggregateValue {
    /// A copy with the same model.
    fn clone(&self) -> (r: AggregateValue)
        ensures
            RespValue::Aggregate(r)@ == RespValue::Aggregate(*self)@,
    {
        copy_aggregate(self)
    }
}

fn copy_bytes(b: &Vec<u8>) -> (r: Vec<u8>)
    ensures
        r@ == b@,
{
    vstd::slice::slice_to_vec(b.as_slice())
}

fn copy_simple(v: &SimpleValue) -> (r: SimpleValue)
    ensures
        simple_frame(r) == simple_frame(*v),
{
    match v {
        SimpleValue::SimpleString(b) => SimpleValue::SimpleString(copy_bytes(b)),
        SimpleValue::Error(b) => SimpleValue::Error(copy_bytes(b)),
        SimpleValue::Integer(n) => SimpleValue::Integer(*n),
        SimpleValue::Null => SimpleValue::Null,
        SimpleValue::Boolean(b) => SimpleValue::Boolean(*b),
        SimpleValue::Double(t) => SimpleValue::Double(copy_bytes(t)),
        SimpleValue::BigNumber(d) => SimpleValue::BigNumber(copy_bytes(d)),
    }
}

fn copy_values(items: &Vec<RespValue>) -> (r: Vec<RespValue>)
    ensures
        frames_of(r@) == frames_of(items@),
    decreases items,
{
    proof {
        lemma_frames_of(items@);
    }
    let mut out: Vec<RespValue> = Vec::new();
    let mut i: usize = 0;
    while i < items.len()
        invariant
            i <= items@.len(),
            out@.len() == i,
            forall|j: int| 0 <= j < i ==> #[trigger] value_frame(out@[j]) == value_frame(items@[j]),
        decreases items@.len() - i,
    {
        out.push(items[i].clone());
        i = i + 1;
    }
    proof {
        lemma_frames_of(out@);
        assert(frames_of(out@) =~= frames_of(items@));
    }
    out
}

fn copy_pairs(pairs: &Vec<(RespValue, RespValue)>) -> (r: Vec<(RespValue, RespValue)>)
    ensures
        pair_frames_of(r@) == pair_frames_of(pairs@),
    decreases pairs,
{
    proof {
        lemma_pair_frames_of(pairs@);
    }
    let mut out: Vec<(RespValue, RespValue)> = Vec::new();
    let mut i: usize = 0;
    while i < pairs.len()
        invariant
            i <= pairs@.len(),
            out@.len() == i,
            forall|j: int| 0 <= j < i ==> #[trigger] value_frame(out@[j].0) == value_frame(pairs@[j].0)
                && value_frame(out@[j].1) == value_frame(pairs@[j].1),
        decreases pairs@.len() - i,
    {
        let pair = &pairs[i];
        out.push((pair.0.clone(), pair.1.clone()));
        i = i + 1;
    }
    proof {
        lemma_pair_frames_of(out@);
        assert(pair_frames_of(out@) =~= pair_frames_of(pairs@));
    }
    out
}

fn copy_aggregate(v: &AggregateValue) -> (r: AggregateValue)
    ensures
        RespValue::Aggregate(r)@ == RespValue::Aggregate(*v)@,
    decreases v,
{
    match v {
        AggregateValue::BulkString(b) => AggregateValue::BulkString(copy_bytes(b)),
        AggregateValue::Array(items) => AggregateValue::Array(copy_values(items)),
        AggregateValue::BulkError(b) => AggregateValue::BulkError(copy_bytes(b)),
        AggregateValue::VerbatimString { encoding, text } => {
            let e: [u8; 3] = [encoding[0], encoding[1], encoding[2]];
            assert(e@ =~= encoding@);
            AggregateValue::VerbatimString { encoding: e, text: copy_bytes(text) }
        },
        AggregateValue::Dictionary(pairs) => AggregateValue::Dictionary(copy_pairs(pairs)),
        AggregateValue::Attribute { attributes, value } => AggregateValue::Attribute {
            attributes: copy_pairs(attributes),
            value: Box::new((**value).clone()),
        },
        AggregateValue::UnorderedSet(items) => AggregateValue::UnorderedSet(copy_values(items)),
        AggregateValue::Push(items) => AggregateValue::Push(copy_values(items)),
    }
}

} // verus!
