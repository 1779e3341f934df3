//! Writing RESP values as bytes.

use vstd::prelude::*;
use super::grammar::{
    crlf, header, length_prefixed, line_frame, serialize_all, serialize_pairs, spec_serialize,
};
use super::text::{write_decimal, write_signed};
use super::value::{
    AggregateValue, Frame, RespValue, SimpleValue, frames_of, lemma_frames_of, lemma_pair_frames_of,
    pair_frames_of, simple_frame, value_frame,
};

verus! {

impl RespValue {
    /// The wire form of this value.
    pub fn serialize(&self) -> (out: Vec<u8>)
        ensures
            out@ == spec_serialize(self@),
    {
        let mut out = Vec::new();
        write_value(self, &mut out);
        assert(out@ =~= spec_serialize(self@));
        out
    }
}

pub proof fn lemma_serialize_all_push(s: Seq<Frame>, f: Frame)
    ensures
        serialize_all(s.push(f)) == serialize_all(s) + spec_serialize(f),
    decreases s.len(),
{
    let t = s.push(f);
    if s.len() == 0 {
        assert(t.subrange(1, t.len() as int) =~= Seq::<Frame>::empty());
        assert(serialize_all(Seq::<Frame>::empty()) == Seq::<u8>::empty());
        assert(t[0] == f);
        assert(serialize_all(t) =~= serialize_all(s) + spec_serialize(f));
    } else {
        let tail = s.subrange(1, s.len() as int);
        lemma_serialize_all_push(tail, f);
        assert(t.subrange(1, t.len() as int) =~= tail.push(f));
        assert(serialize_all(t) =~= serialize_all(s) + spec_serialize(f));
    }
}

pub proof fn lemma_serialize_pairs_push(s: Seq<(Frame, Frame)>, p: (Frame, Frame))
    ensures
        serialize_pairs(s.push(p)) == serialize_pairs(s) + spec_serialize(p.0) + spec_serialize(p.1),
    decreases s.len(),
{
    let t = s.push(p);
    if s.len() == 0 {
        assert(t.subrange(1, t.len() as int) =~= Seq::<(Frame, Frame)>::empty());
        assert(serialize_pairs(Seq::<(Frame, Frame)>::empty()) == Seq::<u8>::empty());
        assert(t[0] == p);
        assert(serialize_pairs(t) =~= serialize_pairs(s) + spec_serialize(p.0) + spec_serialize(p.1));
    } else {
        let tail = s.subrange(1, s.len() as int);
        lemma_serialize_pairs_push(tail, p);
        assert(t.subrange(1, t.len() as int) =~= tail.push(p));
        assert(serialize_pairs(t) =~= serialize_pairs(s) + spec_serialize(p.0) + spec_serialize(p.1));
    }
}

/// Appends `bytes` to `out`.
fn append_bytes(out: &mut Vec<u8>, bytes: &[u8])
    ensures
        final(out)@ == old(out)@ + bytes@,
{
    let mut i: usize = 0;
    while i < bytes.len()
        invariant
            i <= bytes@.len(),
            out@ == old(out)@ + bytes@.take(i as int),
        decreases bytes@.len() - i,
    {
        out.push(bytes[i]);
        assert(bytes@.take(i + 1) =~= bytes@.take(i as int).push(bytes@[i as int]));
        assert(out@ =~= old(out)@ + bytes@.take(i + 1));
        i = i + 1;
    }
    assert(bytes@.take(bytes@.len() as int) =~= bytes@);
}

fn write_crlf(out: &mut Vec<u8>)
    ensures
        final(out)@ == old(out)@ + crlf(),
{
    out.push(13);
    out.push(10);
    assert(out@ =~= old(out)@ + crlf());
}

/// Appends a tag, a line body and CRLF.
fn write_line(out: &mut Vec<u8>, tag: u8, body: &[u8])
    ensures
        final(out)@ == old(out)@ + line_frame(tag, body@),
{
    out.push(tag);
    append_bytes(out, body);
    write_crlf(out);
    assert(out@ =~= old(out)@ + line_frame(tag, body@));
}

/// Appends a tag, a count and CRLF.
fn write_header(out: &mut Vec<u8>, tag: u8, n: usize)
    ensures
        final(out)@ == old(out)@ + header(tag, n as nat),
{
    out.push(tag);
    write_decimal(n as u128, out);
    write_crlf(out);
    assert(out@ =~= old(out)@ + header(tag, n as nat));
}

/// Appends a tag, the length of the body, CRLF, the body and CRLF.
fn write_length_prefixed(out: &mut Vec<u8>, tag: u8, body: &[u8])
    ensures
        final(out)@ == old(out)@ + length_prefixed(tag, body@),
{
    write_header(out, tag, body.len());
    append_bytes(out, body);
    write_crlf(out);
    assert(out@ =~= old(out)@ + length_prefixed(tag, body@));
}

fn write_simple(value: &SimpleValue, out: &mut Vec<u8>)
    ensures
        final(out)@ == old(out)@ + spec_serialize(simple_frame(*value)),
{
    match value {
        SimpleValue::SimpleString(bytes) => write_line(out, 43, bytes.as_slice()),
        SimpleValue::Error(bytes) => write_line(out, 45, bytes.as_slice()),
        SimpleValue::Integer(n) => {
            out.push(58);
            write_signed(*n, out);
            write_crlf(out);
            assert(out@ =~= old(out)@ + spec_serialize(simple_frame(*value)));
        },
        SimpleValue::Null => {
            let empty: [u8; 0] = [];
            assert(empty@ =~= Seq::<u8>::empty());
            write_line(out, 95, empty.as_slice());
        },
        SimpleValue::Boolean(b) => {
            let body: [u8; 1] = if *b { [116] } else { [102] };
            assert(body@ =~= (if *b { seq![116u8] } else { seq![102u8] }));
            write_line(out, 35, body.as_slice());
        },
        SimpleValue::Double(text) => write_line(out, 44, text.as_slice()),
        SimpleValue::BigNumber(digits) => write_line(out, 40, digits.as_slice()),
    }
}

/// Appends the wire form of `value`.
fn write_value(value: &RespValue, out: &mut Vec<u8>)
    ensures
        final(out)@ == old(out)@ + spec_serialize(value@),
    decreases value,
{
    match value {
        RespValue::Simple(v) => write_simple(v, out),
        RespValue::Aggregate(v) => write_aggregate(v, out),
    }
}

/// Appends a tag, the number of `items`, CRLF, and the wire forms of
/// `items`, one after another.
fn write_collection(out: &mut Vec<u8>, tag: u8, items: &Vec<RespValue>)
    ensures
        final(out)@ == old(out)@ + header(tag, items@.len()) + serialize_all(frames_of(items@)),
    decreases items,
{
    proof {
        lemma_frames_of(items@);
    }
    write_header(out, tag, items.len());
    let ghost start = out@;
    let mut i: usize = 0;
    assert(frames_of(items@).take(0) =~= Seq::<Frame>::empty());
    assert(out@ =~= start + serialize_all(frames_of(items@).take(0)));
    while i < items.len()
        invariant
            i <= items@.len(),
            frames_of(items@).len() == items@.len(),
            forall|j: int| 0 <= j < items@.len() ==> #[trigger] frames_of(items@)[j] == value_frame(items@[j]),
            out@ == start + serialize_all(frames_of(items@).take(i as int)),
        decreases items@.len() - i,
    {
        write_value(&items[i], out);
        proof {
            let fs = frames_of(items@);
            assert(fs.take(i + 1) =~= fs.take(i as int).push(fs[i as int]));
            lemma_serialize_all_push(fs.take(i as int), fs[i as int]);
        }
        i = i + 1;
    }
    assert(frames_of(items@).take(items@.len() as int) =~= frames_of(items@));
    assert(out@ =~= old(out)@ + header(tag, items@.len()) + serialize_all(frames_of(items@)));
}

/// Appends the wire forms of `pairs`, key before value, one pair after another.
fn write_pairs(pairs: &Vec<(RespValue, RespValue)>, out: &mut Vec<u8>)
    ensures
        final(out)@ == old(out)@ + serialize_pairs(pair_frames_of(pairs@)),
    decreases pairs,
{
    proof {
        lemma_pair_frames_of(pairs@);
    }
    let mut i: usize = 0;
    assert(pair_frames_of(pairs@).take(0) =~= Seq::<(Frame, Frame)>::empty());
    assert(out@ =~= old(out)@ + serialize_pairs(pair_frames_of(pairs@).take(0)));
    while i < pairs.len()
        invariant
            i <= pairs@.len(),
            pair_frames_of(pairs@).len() == pairs@.len(),
            forall|j: int| 0 <= j < pairs@.len() ==> #[trigger] pair_frames_of(pairs@)[j] == (value_frame(pairs@[j].0), value_frame(pairs@[j].1)),
            out@ == old(out)@ + serialize_pairs(pair_frames_of(pairs@).take(i as int)),
        decreases pairs@.len() - i,
    {
        let pair = &pairs[i];
        write_value(&pair.0, out);
        write_value(&pair.1, out);
        proof {
            let ps = pair_frames_of(pairs@);
            assert(ps.take(i + 1) =~= ps.take(i as int).push(ps[i as int]));
            lemma_serialize_pairs_push(ps.take(i as int), ps[i as int]);
        }
        i = i + 1;
    }
    assert(pair_frames_of(pairs@).take(pairs@.len() as int) =~= pair_frames_of(pairs@));
}

fn write_aggregate(value: &AggregateValue, out: &mut Vec<u8>)
    ensures
        final(out)@ == old(out)@ + spec_serialize(RespValue::Aggregate(*value)@),
    decreases value,
{
    match value {
        AggregateValue::BulkString(bytes) => write_length_prefixed(out, 36, bytes.as_slice()),
        AggregateValue::BulkError(bytes) => write_length_prefixed(out, 33, bytes.as_slice()),
        AggregateValue::VerbatimString { encoding, text } => {
            let ghost body = encoding@ + seq![58u8] + text@;
            let len = text.len();
            assert(body.len() == 4 + len);
            out.push(61);
            write_decimal(4 + len as u128, out);
            write_crlf(out);
            append_bytes(out, encoding.as_slice());
            out.push(58);
            append_bytes(out, text.as_slice());
            write_crlf(out);
            assert(out@ =~= old(out)@ + length_prefixed(61, body));
        },
        AggregateValue::Array(items) => {
            write_collection(out, 42, items);
            proof { lemma_frames_of(items@); }
            assert(out@ =~= old(out)@ + spec_serialize(RespValue::Aggregate(*value)@));
        },
        AggregateValue::UnorderedSet(items) => {
            write_collection(out, 126, items);
            proof { lemma_frames_of(items@); }
            assert(out@ =~= old(out)@ + spec_serialize(RespValue::Aggregate(*value)@));
        },
        AggregateValue::Push(items) => {
            write_collection(out, 62, items);
            proof { lemma_frames_of(items@); }
            assert(out@ =~= old(out)@ + spec_serialize(RespValue::Aggregate(*value)@));
        },
        AggregateValue::Dictionary(pairs) => {
            write_header(out, 37, pairs.len());
            write_pairs(pairs, out);
            proof { lemma_pair_frames_of(pairs@); }
            assert(out@ =~= old(out)@ + spec_serialize(RespValue::Aggregate(*value)@));
        },
        AggregateValue::Attribute { attributes, value: inner } => {
            write_header(out, 124, attributes.len());
            write_pairs(attributes, out);
            write_value(inner, out);
            proof { lemma_pair_frames_of(attributes@); }
            assert(out@ =~= old(out)@ + spec_serialize(RespValue::Aggregate(*value)@));
        },
    }
}

} // verus!
