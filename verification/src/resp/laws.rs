//! Properties of the wire format as a whole: what a serialization parses
//! back to, and how an incomplete frame is reported.

use vstd::prelude::*;
use super::grammar::{
    crlf, crlf_at, first_crlf, header, length_prefixed, lemma_first_crlf, line_frame, serialize_all,
    serialize_pairs, spec_deserialize, spec_parse_aggregate, spec_parse_length, spec_parse_pairs,
    spec_parse_simple, spec_parse_value, spec_parse_values, spec_read_exact, spec_read_line,
    spec_serialize,
};
use super::tag::{AggregateType, RespType, SimpleType, tag_type};
use super::text::{
    decimal_text, is_big_number, is_digit, is_float_text, lemma_decimal_text_digits,
    lemma_signed_text_parses, signed_text,
};
use super::value::{Frame, FrameError};

verus! {

/// `b` holds no CR immediately followed by LF.
pub open spec fn no_crlf(b: Seq<u8>) -> bool {
    forall|i: int| !#[trigger] crlf_at(b, i)
}

/// A value that the wire format can carry and give back unchanged: line
/// payloads hold no CRLF, doubles and big numbers are well-formed texts,
/// integers fit in `i64`, and every length and count fits in `i64`.
pub open spec fn well_formed(f: Frame) -> bool
    decreases f,
{
    match f {
        Frame::SimpleString(b) => no_crlf(b),
        Frame::Error(b) => no_crlf(b),
        Frame::Integer(n) => i64::MIN <= n <= i64::MAX,
        Frame::Null => true,
        Frame::Boolean(_) => true,
        Frame::Double(t) => is_float_text(t) && no_crlf(t),
        Frame::BigNumber(d) => is_big_number(d),
        Frame::BulkString(b) => b.len() <= i64::MAX,
        Frame::BulkError(b) => b.len() <= i64::MAX,
        Frame::VerbatimString(encoding, text) => encoding.len() == 3 && text.len() + 4 <= i64::MAX,
        Frame::Array(items) => items.len() <= i64::MAX && all_well_formed(items),
        Frame::UnorderedSet(items) => items.len() <= i64::MAX && all_well_formed(items),
        Frame::Push(items) => items.len() <= i64::MAX && all_well_formed(items),
        Frame::Dictionary(pairs) => pairs.len() <= i64::MAX && pairs_well_formed(pairs),
        Frame::Attribute(pairs, value) => pairs.len() <= i64::MAX && pairs_well_formed(pairs) && well_formed(*value),
    }
}

pub open spec fn all_well_formed(s: Seq<Frame>) -> bool
    decreases s,
{
    s.len() > 0 ==> well_formed(s[0]) && all_well_formed(s.subrange(1, s.len() as int))
}

pub open spec fn pairs_well_formed(s: Seq<(Frame, Frame)>) -> bool
    decreases s,
{
    s.len() > 0 ==> well_formed(s[0].0) && well_formed(s[0].1) && pairs_well_formed(s.subrange(1, s.len() as int))
}

// ---------------------------------------------------------------------------
// Lines

proof fn lemma_first_crlf_is(s: Seq<u8>, from: int, n: int)
    requires
        0 <= from <= n,
        crlf_at(s, n),
        forall|j: int| from <= j < n ==> !#[trigger] crlf_at(s, j),
    ensures
        first_crlf(s, from) == Some(n),
    decreases n - from,
{
    if from < n {
        lemma_first_crlf_is(s, from + 1, n);
    }
}

/// A line body without CRLF, followed by CRLF, reads back as that line.
proof fn lemma_read_line_of(b: Seq<u8>, rest: Seq<u8>)
    requires
        no_crlf(b),
    ensures
        spec_read_line(b + crlf() + rest) == Ok::<(Seq<u8>, int), FrameError>((b, b.len() as int + 2)),
{
    let s = b + crlf() + rest;
    assert forall|j: int| 0 <= j < b.len() implies !#[trigger] crlf_at(s, j) by {
        if j + 1 < b.len() {
            assert(!crlf_at(b, j));
            assert(s[j] == b[j] && s[j + 1] == b[j + 1]);
        } else {
            assert(s[j + 1] == 13);
        }
    }
    assert(s[b.len() as int] == 13 && s[b.len() as int + 1] == 10);
    lemma_first_crlf_is(s, 0, b.len() as int);
    assert(s.take(b.len() as int) =~= b);
}

/// A proper prefix of a line and its CRLF holds no complete line.
proof fn lemma_read_line_cut(b: Seq<u8>, j: int)
    requires
        no_crlf(b),
        0 <= j < b.len() + 2,
    ensures
        spec_read_line((b + crlf()).take(j)) == Err::<(Seq<u8>, int), FrameError>(FrameError::UnexpectedEof),
{
    let s = (b + crlf()).take(j);
    lemma_first_crlf(s, 0);
    if let Some(i) = first_crlf(s, 0) {
        assert(crlf_at(s, i));
        if i + 1 < b.len() {
            assert(s[i] == b[i] && s[i + 1] == b[i + 1]);
            assert(crlf_at(b, i));
        } else {
            assert(i + 1 < j);
            assert(i + 1 == b.len());
            assert(s[i + 1] == 13);
        }
    }
}

proof fn lemma_signed_text_no_crlf(n: int)
    requires
        i64::MIN <= n <= i64::MAX,
    ensures
        no_crlf(signed_text(n)),
{
    lemma_signed_text_parses(n);
    let t = signed_text(n);
    assert forall|i: int| !#[trigger] crlf_at(t, i) by {
        if 0 <= i < t.len() {
            assert(t[i] == 45 || is_digit(t[i]));
        }
    }
}

proof fn lemma_decimal_text_no_crlf(n: nat)
    ensures
        no_crlf(decimal_text(n)),
{
    lemma_decimal_text_digits(n);
    let t = decimal_text(n);
    assert forall|i: int| !#[trigger] crlf_at(t, i) by {
        if 0 <= i < t.len() {
            assert(is_digit(t[i]));
        }
    }
}

proof fn lemma_big_number_no_crlf(d: Seq<u8>)
    requires
        is_big_number(d),
    ensures
        no_crlf(d),
{
    let digits = if d.len() > 0 && d[0] == 45 { d.drop_first() } else { d };
    assert forall|i: int| !#[trigger] crlf_at(d, i) by {
        if 0 <= i < d.len() && d[i] == 13 {
            if d.len() > 0 && d[0] == 45 {
                assert(i > 0);
                assert(digits[i - 1] == d[i]);
                assert(is_digit(digits[i - 1]));
            } else {
                assert(is_digit(digits[i]));
            }
        }
    }
}

/// A count reads back from its decimal text.
proof fn lemma_length_of(n: nat, legacy_null: bool)
    requires
        n <= i64::MAX,
    ensures
        spec_parse_length(decimal_text(n), legacy_null) == Ok::<Option<int>, FrameError>(Some(n as int)),
{
    lemma_signed_text_parses(n as int);
}


// ---------------------------------------------------------------------------
// Serialization parses back

/// What a simple value's wire form looks like after its tag byte.
proof fn lemma_line_body(tag: u8, b: Seq<u8>, rest: Seq<u8>)
    ensures
        (line_frame(tag, b) + rest)[0] == tag,
        (line_frame(tag, b) + rest).drop_first() == b + crlf() + rest,
        line_frame(tag, b).len() == b.len() + 3,
{
    assert((line_frame(tag, b) + rest).drop_first() =~= b + crlf() + rest);
}

/// What a counted value's wire form looks like after its tag byte.
proof fn lemma_header_body(tag: u8, n: nat, body: Seq<u8>, rest: Seq<u8>)
    ensures
        (header(tag, n) + body + rest)[0] == tag,
        (header(tag, n) + body + rest).drop_first() == decimal_text(n) + crlf() + (body + rest),
        header(tag, n).len() == decimal_text(n).len() + 3,
{
    assert((header(tag, n) + body + rest).drop_first() =~= decimal_text(n) + crlf() + (body + rest));
}

/// The header line of a counted value reads back as its count, and what
/// follows it is the rest.
proof fn lemma_header_parse(t: AggregateType, n: nat, body: Seq<u8>, rest: Seq<u8>)
    requires
        n <= i64::MAX,
    ensures
        ({
            let s = decimal_text(n) + crlf() + (body + rest);
            let k = decimal_text(n).len() + 2;
            &&& spec_read_line(s) == Ok::<(Seq<u8>, int), FrameError>((decimal_text(n), k as int))
            &&& s.skip(k as int) == body + rest
            &&& spec_parse_length(decimal_text(n), t == AggregateType::BulkString || t == AggregateType::Array)
                == Ok::<Option<int>, FrameError>(Some(n as int))
        }),
{
    lemma_decimal_text_no_crlf(n);
    lemma_read_line_of(decimal_text(n), body + rest);
    let s = decimal_text(n) + crlf() + (body + rest);
    assert(s.skip(decimal_text(n).len() as int + 2) =~= body + rest);
    lemma_length_of(n, t == AggregateType::BulkString || t == AggregateType::Array);
}

proof fn lemma_read_exact_of(b: Seq<u8>, rest: Seq<u8>)
    ensures
        spec_read_exact(b + crlf() + rest, b.len() as int) == Ok::<(Seq<u8>, int), FrameError>(
            (b, b.len() as int + 2),
        ),
{
    let s = b + crlf() + rest;
    assert(s[b.len() as int] == 13 && s[b.len() as int + 1] == 10);
    assert(s.take(b.len() as int) =~= b);
}

/// Every wire form starts with a tag byte.
pub proof fn lemma_serialize_nonempty(f: Frame)
    ensures
        spec_serialize(f).len() > 0,
{
}

/// A simple value's line parses back to the value.
proof fn lemma_parse_line(t: SimpleType, tag: u8, b: Seq<u8>, f: Frame, rest: Seq<u8>)
    requires
        tag_type(tag) == Some(RespType::Simple(t)),
        no_crlf(b),
        super::grammar::simple_line_frame(t, b) == Ok::<Frame, FrameError>(f),
    ensures
        spec_parse_value(line_frame(tag, b) + rest) == Ok::<(Frame, int), FrameError>((f, line_frame(tag, b).len() as int)),
{
    lemma_line_body(tag, b, rest);
    lemma_read_line_of(b, rest);
    assert(spec_parse_simple(t, b + crlf() + rest) == Ok::<(Frame, int), FrameError>((f, b.len() as int + 2)));
}

/// A length-prefixed value parses back, given what its body parses to.
#[verifier::spinoff_prover]
proof fn lemma_parse_counted(t: AggregateType, tag: u8, n: nat, body: Seq<u8>, rest: Seq<u8>)
    requires
        tag_type(tag) == Some(RespType::Aggregate(t)),
        n <= i64::MAX,
    ensures
        ({
            let s = header(tag, n) + body + rest;
            let k = decimal_text(n).len() + 2;
            &&& s[0] == tag
            &&& spec_parse_value(s) == super::grammar::after(spec_parse_aggregate(t, s.drop_first()), 1)
            &&& spec_read_line(s.drop_first()) == Ok::<(Seq<u8>, int), FrameError>((decimal_text(n), k as int))
            &&& s.drop_first().skip(k as int) == body + rest
            &&& spec_parse_length(decimal_text(n), t == AggregateType::BulkString || t == AggregateType::Array)
                == Ok::<Option<int>, FrameError>(Some(n as int))
            &&& header(tag, n).len() == k + 1
        }),
{
    lemma_header_body(tag, n, body, rest);
    lemma_header_parse(t, n, body, rest);
}

proof fn lemma_parse_bulk(t: AggregateType, tag: u8, b: Seq<u8>, f: Frame, rest: Seq<u8>)
    requires
        tag_type(tag) == Some(RespType::Aggregate(t)),
        t == AggregateType::BulkString || t == AggregateType::BulkError,
        b.len() <= i64::MAX,
        f == (if t == AggregateType::BulkString { Frame::BulkString(b) } else { Frame::BulkError(b) }),
    ensures
        spec_parse_value(length_prefixed(tag, b) + rest) == Ok::<(Frame, int), FrameError>((f, length_prefixed(tag, b).len() as int)),
{
    lemma_parse_counted(t, tag, b.len(), b + crlf(), rest);
    lemma_read_exact_of(b, rest);
    assert(b + crlf() + rest =~= (b + crlf()) + rest);
    assert(length_prefixed(tag, b) + rest =~= header(tag, b.len()) + (b + crlf()) + rest);
}

proof fn lemma_parse_verbatim(encoding: Seq<u8>, text: Seq<u8>, rest: Seq<u8>)
    requires
        encoding.len() == 3,
        text.len() + 4 <= i64::MAX,
    ensures
        ({
            let w = length_prefixed(61, encoding + seq![58u8] + text);
            spec_parse_value(w + rest) == Ok::<(Frame, int), FrameError>((Frame::VerbatimString(encoding, text), w.len() as int))
        }),
{
    let b = encoding + seq![58u8] + text;
    lemma_parse_counted(AggregateType::VerbatimString, 61, b.len(), b + crlf(), rest);
    lemma_read_exact_of(b, rest);
    assert(b + crlf() + rest =~= (b + crlf()) + rest);
    assert(length_prefixed(61, b) + rest =~= header(61, b.len()) + (b + crlf()) + rest);
    assert(b[3] == 58);
    assert(b.take(3) =~= encoding);
    assert(b.skip(4) =~= text);
}

proof fn lemma_parse_collection(t: AggregateType, tag: u8, items: Seq<Frame>, f: Frame, rest: Seq<u8>)
    requires
        tag_type(tag) == Some(RespType::Aggregate(t)),
        t == AggregateType::Array || t == AggregateType::UnorderedSet || t == AggregateType::Push,
        items.len() <= i64::MAX,
        f == (if t == AggregateType::Array { Frame::Array(items) } else if t == AggregateType::UnorderedSet {
            Frame::UnorderedSet(items)
        } else {
            Frame::Push(items)
        }),
        spec_parse_values(serialize_all(items) + rest, items.len() as int) == Ok::<(Seq<Frame>, int), FrameError>(
            (items, serialize_all(items).len() as int),
        ),
    ensures
        spec_parse_value(header(tag, items.len()) + serialize_all(items) + rest) == Ok::<(Frame, int), FrameError>(
            (f, (header(tag, items.len()) + serialize_all(items)).len() as int),
        ),
{
    lemma_parse_counted(t, tag, items.len(), serialize_all(items), rest);
}

proof fn lemma_parse_dictionary(pairs: Seq<(Frame, Frame)>, rest: Seq<u8>)
    requires
        pairs.len() <= i64::MAX,
        spec_parse_pairs(serialize_pairs(pairs) + rest, pairs.len() as int) == Ok::<(Seq<(Frame, Frame)>, int), FrameError>(
            (pairs, serialize_pairs(pairs).len() as int),
        ),
    ensures
        spec_parse_value(header(37, pairs.len()) + serialize_pairs(pairs) + rest) == Ok::<(Frame, int), FrameError>(
            (Frame::Dictionary(pairs), (header(37, pairs.len()) + serialize_pairs(pairs)).len() as int),
        ),
{
    lemma_parse_counted(AggregateType::Dictionary, 37, pairs.len(), serialize_pairs(pairs), rest);
}

proof fn lemma_parse_attribute(pairs: Seq<(Frame, Frame)>, value: Frame, rest: Seq<u8>)
    requires
        pairs.len() <= i64::MAX,
        spec_parse_pairs(serialize_pairs(pairs) + (spec_serialize(value) + rest), pairs.len() as int)
            == Ok::<(Seq<(Frame, Frame)>, int), FrameError>((pairs, serialize_pairs(pairs).len() as int)),
        spec_parse_value(spec_serialize(value) + rest) == Ok::<(Frame, int), FrameError>(
            (value, spec_serialize(value).len() as int),
        ),
    ensures
        spec_parse_value(header(124, pairs.len()) + (serialize_pairs(pairs) + spec_serialize(value)) + rest)
            == Ok::<(Frame, int), FrameError>((
            Frame::Attribute(pairs, Box::new(value)),
            (header(124, pairs.len()) + serialize_pairs(pairs) + spec_serialize(value)).len() as int,
        )),
{
    let body = serialize_pairs(pairs) + spec_serialize(value);
    lemma_parse_counted(AggregateType::Attribute, 124, pairs.len(), body, rest);
    assert(body + rest =~= serialize_pairs(pairs) + (spec_serialize(value) + rest));
    assert((body + rest).skip(serialize_pairs(pairs).len() as int) =~= spec_serialize(value) + rest);
}

/// A well-formed value's wire form, followed by anything, parses back to the
/// value and takes exactly its wire form.
pub proof fn lemma_parse_serialized(f: Frame, rest: Seq<u8>)
    requires
        well_formed(f),
    ensures
        spec_parse_value(spec_serialize(f) + rest) == Ok::<(Frame, int), FrameError>((f, spec_serialize(f).len() as int)),
    decreases f,
{
    match f {
        Frame::SimpleString(b) => lemma_parse_line(SimpleType::SimpleString, 43, b, f, rest),
        Frame::Error(b) => lemma_parse_line(SimpleType::Error, 45, b, f, rest),
        Frame::Integer(n) => {
            lemma_signed_text_no_crlf(n);
            lemma_signed_text_parses(n);
            lemma_parse_line(SimpleType::Integer, 58, signed_text(n), f, rest);
        },
        Frame::Null => {
            assert(no_crlf(Seq::<u8>::empty()));
            lemma_parse_line(SimpleType::Null, 95, Seq::empty(), f, rest);
        },
        Frame::Boolean(v) => {
            let b = if v { seq![116u8] } else { seq![102u8] };
            assert(no_crlf(b));
            lemma_parse_line(SimpleType::Boolean, 35, b, f, rest);
        },
        Frame::Double(t) => lemma_parse_line(SimpleType::Double, 44, t, f, rest),
        Frame::BigNumber(d) => {
            lemma_big_number_no_crlf(d);
            lemma_parse_line(SimpleType::BigNumber, 40, d, f, rest);
        },
        Frame::BulkString(b) => lemma_parse_bulk(AggregateType::BulkString, 36, b, f, rest),
        Frame::BulkError(b) => lemma_parse_bulk(AggregateType::BulkError, 33, b, f, rest),
        Frame::VerbatimString(encoding, text) => lemma_parse_verbatim(encoding, text, rest),
        Frame::Array(items) => {
            lemma_parse_serialized_all(items, rest);
            lemma_parse_collection(AggregateType::Array, 42, items, f, rest);
        },
        Frame::UnorderedSet(items) => {
            lemma_parse_serialized_all(items, rest);
            lemma_parse_collection(AggregateType::UnorderedSet, 126, items, f, rest);
        },
        Frame::Push(items) => {
            lemma_parse_serialized_all(items, rest);
            lemma_parse_collection(AggregateType::Push, 62, items, f, rest);
        },
        Frame::Dictionary(pairs) => {
            lemma_parse_serialized_pairs(pairs, rest);
            lemma_parse_dictionary(pairs, rest);
        },
        Frame::Attribute(pairs, value) => {
            lemma_parse_serialized_pairs(pairs, spec_serialize(*value) + rest);
            lemma_parse_serialized(*value, rest);
            lemma_parse_attribute(pairs, *value, rest);
            assert(header(124, pairs.len()) + (serialize_pairs(pairs) + spec_serialize(*value)) + rest
                =~= spec_serialize(f) + rest);
        },
    }
}

/// Well-formed values serialized one after another parse back as a sequence.
pub proof fn lemma_parse_serialized_all(fs: Seq<Frame>, rest: Seq<u8>)
    requires
        all_well_formed(fs),
    ensures
        spec_parse_values(serialize_all(fs) + rest, fs.len() as int) == Ok::<(Seq<Frame>, int), FrameError>(
            (fs, serialize_all(fs).len() as int),
        ),
    decreases fs,
{
    if fs.len() == 0 {
        assert(fs =~= Seq::<Frame>::empty());
    } else {
        let tail = fs.subrange(1, fs.len() as int);
        let after_first = serialize_all(tail) + rest;
        let s = serialize_all(fs) + rest;
        assert(s =~= spec_serialize(fs[0]) + after_first);
        lemma_parse_serialized(fs[0], after_first);
        lemma_serialize_nonempty(fs[0]);
        let k = spec_serialize(fs[0]).len() as int;
        assert(s.skip(k) =~= after_first);
        lemma_parse_serialized_all(tail, rest);
        assert(seq![fs[0]] + tail =~= fs);
    }
}

/// Well-formed pairs serialized one after another parse back as a sequence.
pub proof fn lemma_parse_serialized_pairs(ps: Seq<(Frame, Frame)>, rest: Seq<u8>)
    requires
        pairs_well_formed(ps),
    ensures
        spec_parse_pairs(serialize_pairs(ps) + rest, ps.len() as int) == Ok::<(Seq<(Frame, Frame)>, int), FrameError>(
            (ps, serialize_pairs(ps).len() as int),
        ),
    decreases ps,
{
    if ps.len() == 0 {
        assert(ps =~= Seq::<(Frame, Frame)>::empty());
    } else {
        let tail = ps.subrange(1, ps.len() as int);
        let after_pair = serialize_pairs(tail) + rest;
        let s = serialize_pairs(ps) + rest;
        let k1 = spec_serialize(ps[0].0).len() as int;
        let k2 = spec_serialize(ps[0].1).len() as int;
        assert(s =~= spec_serialize(ps[0].0) + (spec_serialize(ps[0].1) + after_pair));
        lemma_parse_serialized(ps[0].0, spec_serialize(ps[0].1) + after_pair);
        lemma_serialize_nonempty(ps[0].0);
        assert(s.skip(k1) =~= spec_serialize(ps[0].1) + after_pair);
        lemma_parse_serialized(ps[0].1, after_pair);
        lemma_serialize_nonempty(ps[0].1);
        assert(s.skip(k1 + k2) =~= after_pair);
        lemma_parse_serialized_pairs(tail, rest);
        assert(seq![(ps[0].0, ps[0].1)] + tail =~= ps);
    }
}

// ---------------------------------------------------------------------------
// An incomplete frame asks for more bytes

proof fn lemma_cut_line(t: SimpleType, tag: u8, b: Seq<u8>, j: int)
    requires
        tag_type(tag) == Some(RespType::Simple(t)),
        no_crlf(b),
        0 <= j < line_frame(tag, b).len(),
    ensures
        spec_parse_value(line_frame(tag, b).take(j)) == Err::<(Frame, int), FrameError>(FrameError::UnexpectedEof),
{
    let s = line_frame(tag, b).take(j);
    if j > 0 {
        assert(s[0] == tag);
        assert(s.drop_first() =~= (b + crlf()).take(j - 1));
        lemma_read_line_cut(b, j - 1);
    }
}

/// A cut counted frame: either its header line is incomplete, or the header
/// reads back and the cut body follows it.
#[verifier::spinoff_prover]
proof fn lemma_cut_header(t: AggregateType, tag: u8, n: nat, body: Seq<u8>, j: int)
    requires
        tag_type(tag) == Some(RespType::Aggregate(t)),
        n <= i64::MAX,
        0 <= j < (header(tag, n) + body).len(),
    ensures
        ({
            let s = (header(tag, n) + body).take(j);
            let k = decimal_text(n).len() + 2;
            if j < header(tag, n).len() {
                spec_parse_value(s) == Err::<(Frame, int), FrameError>(FrameError::UnexpectedEof)
            } else {
                &&& spec_parse_value(s) == super::grammar::after(spec_parse_aggregate(t, s.drop_first()), 1)
                &&& spec_read_line(s.drop_first()) == Ok::<(Seq<u8>, int), FrameError>((decimal_text(n), k as int))
                &&& s.drop_first().skip(k as int) == body.take(j - header(tag, n).len())
                &&& spec_parse_length(decimal_text(n), t == AggregateType::BulkString || t == AggregateType::Array)
                    == Ok::<Option<int>, FrameError>(Some(n as int))
                &&& header(tag, n).len() == k + 1
            }
        }),
{
    let s = (header(tag, n) + body).take(j);
    let dt = decimal_text(n);
    lemma_decimal_text_no_crlf(n);
    if j < header(tag, n).len() {
        if j > 0 {
            assert(s[0] == tag);
            assert(s.drop_first() =~= (dt + crlf()).take(j - 1));
            lemma_read_line_cut(dt, j - 1);
        }
    } else {
        let cut = body.take(j - header(tag, n).len());
        assert(s =~= header(tag, n) + cut);
        lemma_header_body(tag, n, cut, Seq::empty());
        assert(header(tag, n) + cut + Seq::<u8>::empty() =~= s);
        lemma_header_parse(t, n, cut, Seq::empty());
        assert(cut + Seq::<u8>::empty() =~= cut);
    }
}

proof fn lemma_cut_bulk(t: AggregateType, tag: u8, b: Seq<u8>, j: int)
    requires
        tag_type(tag) == Some(RespType::Aggregate(t)),
        b.len() <= i64::MAX,
        t == AggregateType::BulkString || t == AggregateType::BulkError || t == AggregateType::VerbatimString,
        0 <= j < length_prefixed(tag, b).len(),
    ensures
        spec_parse_value(length_prefixed(tag, b).take(j)) == Err::<(Frame, int), FrameError>(FrameError::UnexpectedEof),
{
    let body = b + crlf();
    assert(length_prefixed(tag, b) =~= header(tag, b.len()) + body);
    lemma_cut_header(t, tag, b.len(), body, j);
}

proof fn lemma_cut_collection(t: AggregateType, tag: u8, items: Seq<Frame>, j: int)
    requires
        tag_type(tag) == Some(RespType::Aggregate(t)),
        t == AggregateType::Array || t == AggregateType::UnorderedSet || t == AggregateType::Push,
        items.len() <= i64::MAX,
        0 <= j < (header(tag, items.len()) + serialize_all(items)).len(),
        j >= header(tag, items.len()).len() ==> spec_parse_values(
            serialize_all(items).take(j - header(tag, items.len()).len()),
            items.len() as int,
        ) == Err::<(Seq<Frame>, int), FrameError>(FrameError::UnexpectedEof),
    ensures
        spec_parse_value((header(tag, items.len()) + serialize_all(items)).take(j)) == Err::<(Frame, int), FrameError>(
            FrameError::UnexpectedEof,
        ),
{
    lemma_cut_header(t, tag, items.len(), serialize_all(items), j);
}

proof fn lemma_cut_dictionary(pairs: Seq<(Frame, Frame)>, j: int)
    requires
        pairs.len() <= i64::MAX,
        0 <= j < (header(37, pairs.len()) + serialize_pairs(pairs)).len(),
        j >= header(37, pairs.len()).len() ==> spec_parse_pairs(
            serialize_pairs(pairs).take(j - header(37, pairs.len()).len()),
            pairs.len() as int,
        ) == Err::<(Seq<(Frame, Frame)>, int), FrameError>(FrameError::UnexpectedEof),
    ensures
        spec_parse_value((header(37, pairs.len()) + serialize_pairs(pairs)).take(j)) == Err::<(Frame, int), FrameError>(
            FrameError::UnexpectedEof,
        ),
{
    lemma_cut_header(AggregateType::Dictionary, 37, pairs.len(), serialize_pairs(pairs), j);
}

proof fn lemma_cut_attribute(pairs: Seq<(Frame, Frame)>, value: Frame, j: int)
    requires
        pairs.len() <= i64::MAX,
        0 <= j < (header(124, pairs.len()) + (serialize_pairs(pairs) + spec_serialize(value))).len(),
        forall|m: int| 0 <= m < serialize_pairs(pairs).len() ==> #[trigger] spec_parse_pairs(serialize_pairs(pairs).take(m), pairs.len() as int)
            == Err::<(Seq<(Frame, Frame)>, int), FrameError>(FrameError::UnexpectedEof),
        forall|r: Seq<u8>| #[trigger] spec_parse_pairs(serialize_pairs(pairs) + r, pairs.len() as int)
            == Ok::<(Seq<(Frame, Frame)>, int), FrameError>((pairs, serialize_pairs(pairs).len() as int)),
        forall|m: int| 0 <= m < spec_serialize(value).len() ==> #[trigger] spec_parse_value(spec_serialize(value).take(m))
            == Err::<(Frame, int), FrameError>(FrameError::UnexpectedEof),
    ensures
        spec_parse_value((header(124, pairs.len()) + (serialize_pairs(pairs) + spec_serialize(value))).take(j))
            == Err::<(Frame, int), FrameError>(FrameError::UnexpectedEof),
{
    let body = serialize_pairs(pairs) + spec_serialize(value);
    lemma_cut_header(AggregateType::Attribute, 124, pairs.len(), body, j);
    let h = header(124, pairs.len()).len() as int;
    let s = (header(124, pairs.len()) + body).take(j);
    if j >= h {
        let m = j - h;
        let p = serialize_pairs(pairs).len() as int;
        let k = decimal_text(pairs.len()).len() + 2;
        let rest = body.take(m);
        assert(s.drop_first().skip(k as int) == rest);
        if m < p {
            assert(rest =~= serialize_pairs(pairs).take(m));
            assert(spec_parse_pairs(rest, pairs.len() as int) == Err::<(Seq<(Frame, Frame)>, int), FrameError>(
                FrameError::UnexpectedEof,
            ));
        } else {
            let vcut = spec_serialize(value).take(m - p);
            assert(rest =~= serialize_pairs(pairs) + vcut);
            assert(spec_parse_pairs(rest, pairs.len() as int)
                == Ok::<(Seq<(Frame, Frame)>, int), FrameError>((pairs, p)));
            assert(rest.skip(p) =~= vcut);
            assert(spec_parse_value(vcut) == Err::<(Frame, int), FrameError>(FrameError::UnexpectedEof));
        }
        assert(spec_parse_aggregate(AggregateType::Attribute, s.drop_first()) == Err::<(Frame, int), FrameError>(
            FrameError::UnexpectedEof,
        ));
    }
}

/// Any proper prefix of a well-formed value's wire form is reported as
/// incomplete: the parse asks for more bytes.
pub proof fn lemma_parse_cut(f: Frame, j: int)
    requires
        well_formed(f),
        0 <= j < spec_serialize(f).len(),
    ensures
        spec_parse_value(spec_serialize(f).take(j)) == Err::<(Frame, int), FrameError>(FrameError::UnexpectedEof),
    decreases f,
{
    match f {
        Frame::SimpleString(b) => lemma_cut_line(SimpleType::SimpleString, 43, b, j),
        Frame::Error(b) => lemma_cut_line(SimpleType::Error, 45, b, j),
        Frame::Integer(n) => {
            lemma_signed_text_no_crlf(n);
            lemma_cut_line(SimpleType::Integer, 58, signed_text(n), j);
        },
        Frame::Null => {
            assert(no_crlf(Seq::<u8>::empty()));
            lemma_cut_line(SimpleType::Null, 95, Seq::empty(), j);
        },
        Frame::Boolean(v) => {
            let b = if v { seq![116u8] } else { seq![102u8] };
            assert(no_crlf(b));
            lemma_cut_line(SimpleType::Boolean, 35, b, j);
        },
        Frame::Double(t) => lemma_cut_line(SimpleType::Double, 44, t, j),
        Frame::BigNumber(d) => {
            lemma_big_number_no_crlf(d);
            lemma_cut_line(SimpleType::BigNumber, 40, d, j);
        },
        Frame::BulkString(b) => lemma_cut_bulk(AggregateType::BulkString, 36, b, j),
        Frame::BulkError(b) => lemma_cut_bulk(AggregateType::BulkError, 33, b, j),
        Frame::VerbatimString(encoding, text) => lemma_cut_bulk(
            AggregateType::VerbatimString,
            61,
            encoding + seq![58u8] + text,
            j,
        ),
        Frame::Array(items) => {
            let h = header(42, items.len()).len() as int;
            if j >= h {
                lemma_parse_values_cut(items, j - h);
            }
            lemma_cut_collection(AggregateType::Array, 42, items, j);
        },
        Frame::UnorderedSet(items) => {
            let h = header(126, items.len()).len() as int;
            if j >= h {
                lemma_parse_values_cut(items, j - h);
            }
            lemma_cut_collection(AggregateType::UnorderedSet, 126, items, j);
        },
        Frame::Push(items) => {
            let h = header(62, items.len()).len() as int;
            if j >= h {
                lemma_parse_values_cut(items, j - h);
            }
            lemma_cut_collection(AggregateType::Push, 62, items, j);
        },
        Frame::Dictionary(pairs) => {
            let h = header(37, pairs.len()).len() as int;
            if j >= h {
                lemma_parse_pairs_cut(pairs, j - h);
            }
            lemma_cut_dictionary(pairs, j);
        },
        Frame::Attribute(pairs, value) => {
            assert forall|m: int| 0 <= m < serialize_pairs(pairs).len() implies #[trigger] spec_parse_pairs(
                serialize_pairs(pairs).take(m),
                pairs.len() as int,
            ) == Err::<(Seq<(Frame, Frame)>, int), FrameError>(FrameError::UnexpectedEof) by {
                lemma_parse_pairs_cut(pairs, m);
            }
            assert forall|r: Seq<u8>| #[trigger] spec_parse_pairs(serialize_pairs(pairs) + r, pairs.len() as int)
                == Ok::<(Seq<(Frame, Frame)>, int), FrameError>((pairs, serialize_pairs(pairs).len() as int)) by {
                lemma_parse_serialized_pairs(pairs, r);
            }
            assert forall|m: int| 0 <= m < spec_serialize(*value).len() implies #[trigger] spec_parse_value(
                spec_serialize(*value).take(m),
            ) == Err::<(Frame, int), FrameError>(FrameError::UnexpectedEof) by {
                lemma_parse_cut(*value, m);
            }
            lemma_cut_attribute(pairs, *value, j);
            assert(spec_serialize(f) =~= header(124, pairs.len()) + (serialize_pairs(pairs) + spec_serialize(*value)));
        },
    }
}

/// A proper prefix of well-formed values serialized one after another is
/// reported as incomplete.
pub proof fn lemma_parse_values_cut(fs: Seq<Frame>, m: int)
    requires
        all_well_formed(fs),
        0 <= m < serialize_all(fs).len(),
    ensures
        spec_parse_values(serialize_all(fs).take(m), fs.len() as int) == Err::<(Seq<Frame>, int), FrameError>(
            FrameError::UnexpectedEof,
        ),
    decreases fs,
{
    let tail = fs.subrange(1, fs.len() as int);
    let first = spec_serialize(fs[0]);
    let s = serialize_all(fs).take(m);
    if m < first.len() {
        assert(s =~= first.take(m));
        lemma_parse_cut(fs[0], m);
    } else {
        let cut = serialize_all(tail).take(m - first.len());
        assert(s =~= first + cut);
        lemma_parse_serialized(fs[0], cut);
        lemma_serialize_nonempty(fs[0]);
        assert(s.skip(first.len() as int) =~= cut);
        lemma_parse_values_cut(tail, m - first.len());
    }
}

/// A proper prefix of well-formed pairs serialized one after another is
/// reported as incomplete.
pub proof fn lemma_parse_pairs_cut(ps: Seq<(Frame, Frame)>, m: int)
    requires
        pairs_well_formed(ps),
        0 <= m < serialize_pairs(ps).len(),
    ensures
        spec_parse_pairs(serialize_pairs(ps).take(m), ps.len() as int) == Err::<(Seq<(Frame, Frame)>, int), FrameError>(
            FrameError::UnexpectedEof,
        ),
    decreases ps,
{
    let tail = ps.subrange(1, ps.len() as int);
    let key = spec_serialize(ps[0].0);
    let value = spec_serialize(ps[0].1);
    let s = serialize_pairs(ps).take(m);
    assert(serialize_pairs(ps) =~= key + value + serialize_pairs(tail));
    if m < key.len() {
        assert(s =~= key.take(m));
        lemma_parse_cut(ps[0].0, m);
    } else if m < key.len() + value.len() {
        let vcut = value.take(m - key.len());
        assert(s =~= key + vcut);
        lemma_parse_serialized(ps[0].0, vcut);
        lemma_serialize_nonempty(ps[0].0);
        assert(s.skip(key.len() as int) =~= vcut);
        lemma_parse_cut(ps[0].1, m - key.len());
    } else {
        let cut = serialize_pairs(tail).take(m - key.len() - value.len());
        assert(s =~= key + (value + cut));
        lemma_parse_serialized(ps[0].0, value + cut);
        lemma_serialize_nonempty(ps[0].0);
        assert(s.skip(key.len() as int) =~= value + cut);
        lemma_parse_serialized(ps[0].1, cut);
        lemma_serialize_nonempty(ps[0].1);
        assert(s.skip(key.len() as int + value.len() as int) =~= cut);
        lemma_parse_pairs_cut(tail, m - key.len() - value.len());
    }
}

// ---------------------------------------------------------------------------
// More bytes after a decided parse change nothing

proof fn lemma_first_crlf_extend(x: Seq<u8>, y: Seq<u8>, from: int)
    requires
        0 <= from,
        first_crlf(x, from) is Some,
    ensures
        first_crlf(x + y, from) == first_crlf(x, from),
    decreases x.len() - from,
{
    let s = x + y;
    if from + 1 < x.len() {
        assert(s[from] == x[from] && s[from + 1] == x[from + 1]);
        if !crlf_at(x, from) {
            lemma_first_crlf_extend(x, y, from + 1);
        }
    }
}

proof fn lemma_read_line_extend(x: Seq<u8>, y: Seq<u8>)
    requires
        spec_read_line(x) is Ok,
    ensures
        spec_read_line(x + y) == spec_read_line(x),
{
    lemma_first_crlf_extend(x, y, 0);
    lemma_first_crlf(x, 0);
    let i = first_crlf(x, 0)->0;
    assert((x + y).take(i) =~= x.take(i));
}

proof fn lemma_read_exact_extend(x: Seq<u8>, y: Seq<u8>, n: int)
    requires
        spec_read_exact(x, n) != Err::<(Seq<u8>, int), FrameError>(FrameError::UnexpectedEof),
        0 <= n,
    ensures
        spec_read_exact(x + y, n) == spec_read_exact(x, n),
{
    let s = x + y;
    assert(s[n] == x[n] && s[n + 1] == x[n + 1]);
    assert(s.take(n) =~= x.take(n));
}

/// Once the bytes at hand decide a parse (a value, or an error other than
/// running out of bytes), more bytes after them do not change it.
pub proof fn lemma_parse_extend(x: Seq<u8>, y: Seq<u8>)
    requires
        spec_parse_value(x) != Err::<(Frame, int), FrameError>(FrameError::UnexpectedEof),
    ensures
        spec_parse_value(x + y) == spec_parse_value(x),
    decreases x.len(), 0int,
{
    let s = x + y;
    assert(s[0] == x[0]);
    assert(s.drop_first() =~= x.drop_first() + y);
    match tag_type(x[0]) {
        None => {},
        Some(RespType::Simple(t)) => {
            lemma_read_line_extend(x.drop_first(), y);
        },
        Some(RespType::Aggregate(t)) => {
            lemma_aggregate_extend(t, x.drop_first(), y);
        },
    }
}

#[verifier::spinoff_prover]
proof fn lemma_aggregate_extend(t: AggregateType, x: Seq<u8>, y: Seq<u8>)
    requires
        spec_parse_aggregate(t, x) != Err::<(Frame, int), FrameError>(FrameError::UnexpectedEof),
    ensures
        spec_parse_aggregate(t, x + y) == spec_parse_aggregate(t, x),
    decreases x.len(), 1int,
{
    lemma_first_crlf(x, 0);
    lemma_read_line_extend(x, y);
    let (line, k) = spec_read_line(x)->Ok_0;
    let rest = x.skip(k);
    assert((x + y).skip(k) =~= rest + y);
    let legacy_null = t == AggregateType::BulkString || t == AggregateType::Array;
    match spec_parse_length(line, legacy_null) {
        Ok(Some(n)) => {
            match t {
                AggregateType::BulkString | AggregateType::BulkError | AggregateType::VerbatimString => {
                    lemma_read_exact_extend(rest, y, n);
                },
                AggregateType::Array | AggregateType::UnorderedSet | AggregateType::Push => {
                    lemma_values_extend(rest, y, n);
                },
                AggregateType::Dictionary => {
                    lemma_pairs_extend(rest, y, n);
                },
                AggregateType::Attribute => {
                    lemma_pairs_extend(rest, y, n);
                    if let Ok((ps, m)) = spec_parse_pairs(rest, n) {
                        if 0 <= m <= rest.len() {
                            assert((rest + y).skip(m) =~= rest.skip(m) + y);
                            lemma_parse_extend(rest.skip(m), y);
                        }
                    }
                },
            }
        },
        _ => {},
    }
}

proof fn lemma_values_extend(x: Seq<u8>, y: Seq<u8>, n: int)
    requires
        spec_parse_values(x, n) != Err::<(Seq<Frame>, int), FrameError>(FrameError::UnexpectedEof),
    ensures
        spec_parse_values(x + y, n) == spec_parse_values(x, n),
    decreases x.len(), 2int,
{
    if n > 0 {
        lemma_parse_extend(x, y);
        if let Ok((f, k)) = spec_parse_value(x) {
            if 0 < k <= x.len() {
                assert((x + y).skip(k) =~= x.skip(k) + y);
                lemma_values_extend(x.skip(k), y, n - 1);
            }
        }
    }
}

proof fn lemma_pairs_extend(x: Seq<u8>, y: Seq<u8>, n: int)
    requires
        spec_parse_pairs(x, n) != Err::<(Seq<(Frame, Frame)>, int), FrameError>(FrameError::UnexpectedEof),
    ensures
        spec_parse_pairs(x + y, n) == spec_parse_pairs(x, n),
    decreases x.len(), 2int,
{
    if n > 0 {
        lemma_parse_extend(x, y);
        if let Ok((key, k1)) = spec_parse_value(x) {
            if 0 < k1 <= x.len() {
                assert((x + y).skip(k1) =~= x.skip(k1) + y);
                lemma_parse_extend(x.skip(k1), y);
                if let Ok((value, k2)) = spec_parse_value(x.skip(k1)) {
                    if 0 < k2 <= x.len() - k1 {
                        assert((x + y).skip(k1 + k2) =~= x.skip(k1 + k2) + y);
                        lemma_pairs_extend(x.skip(k1 + k2), y, n - 1);
                    }
                }
            }
        }
    }
}

// ---------------------------------------------------------------------------
// What a parse gives is well-formed

proof fn lemma_line_no_crlf(s: Seq<u8>)
    requires
        spec_read_line(s) is Ok,
    ensures
        no_crlf(spec_read_line(s)->Ok_0.0),
{
    lemma_first_crlf(s, 0);
    let i = first_crlf(s, 0)->0;
    let line = s.take(i);
    assert forall|j: int| !#[trigger] crlf_at(line, j) by {
        if crlf_at(line, j) {
            assert(line[j] == s[j] && line[j + 1] == s[j + 1]);
            assert(crlf_at(s, j));
        }
    }
}

/// Every value that a parse gives is well-formed.
pub proof fn lemma_parsed_well_formed(s: Seq<u8>)
    requires
        spec_parse_value(s) is Ok,
    ensures
        well_formed(spec_parse_value(s)->Ok_0.0),
    decreases s.len(), 0int,
{
    match tag_type(s[0]) {
        Some(RespType::Simple(t)) => {
            lemma_line_no_crlf(s.drop_first());
            let line = spec_read_line(s.drop_first())->Ok_0.0;
            if t == SimpleType::BigNumber {
                lemma_big_number_no_crlf(line);
            }
        },
        Some(RespType::Aggregate(t)) => lemma_aggregate_well_formed(t, s.drop_first()),
        None => {},
    }
}

#[verifier::spinoff_prover]
proof fn lemma_aggregate_well_formed(t: AggregateType, x: Seq<u8>)
    requires
        spec_parse_aggregate(t, x) is Ok,
    ensures
        well_formed(spec_parse_aggregate(t, x)->Ok_0.0),
    decreases x.len(), 1int,
{
    lemma_first_crlf(x, 0);
    let (line, k) = spec_read_line(x)->Ok_0;
    let rest = x.skip(k);
    let legacy_null = t == AggregateType::BulkString || t == AggregateType::Array;
    match spec_parse_length(line, legacy_null) {
        Ok(Some(n)) => {
            match t {
                AggregateType::VerbatimString => {
                    let b = spec_read_exact(rest, n)->Ok_0.0;
                    assert(b.take(3).len() == 3);
                },
                AggregateType::Array | AggregateType::UnorderedSet | AggregateType::Push => {
                    lemma_values_well_formed(rest, n);
                },
                AggregateType::Dictionary => {
                    lemma_pairs_well_formed(rest, n);
                },
                AggregateType::Attribute => {
                    lemma_pairs_well_formed(rest, n);
                    let m = spec_parse_pairs(rest, n)->Ok_0.1;
                    lemma_parsed_well_formed(rest.skip(m));
                },
                _ => {},
            }
        },
        _ => {},
    }
}

proof fn lemma_values_well_formed(x: Seq<u8>, n: int)
    requires
        spec_parse_values(x, n) is Ok,
    ensures
        all_well_formed(spec_parse_values(x, n)->Ok_0.0),
        n >= 0 ==> spec_parse_values(x, n)->Ok_0.0.len() == n,
        n < 0 ==> spec_parse_values(x, n)->Ok_0.0.len() == 0,
    decreases x.len(), 2int,
{
    if n > 0 {
        let (f, k) = spec_parse_value(x)->Ok_0;
        lemma_parsed_well_formed(x);
        lemma_values_well_formed(x.skip(k), n - 1);
        let fs = spec_parse_values(x.skip(k), n - 1)->Ok_0.0;
        assert((seq![f] + fs).subrange(1, fs.len() as int + 1) =~= fs);
    }
}

proof fn lemma_pairs_well_formed(x: Seq<u8>, n: int)
    requires
        spec_parse_pairs(x, n) is Ok,
    ensures
        pairs_well_formed(spec_parse_pairs(x, n)->Ok_0.0),
        n >= 0 ==> spec_parse_pairs(x, n)->Ok_0.0.len() == n,
        n < 0 ==> spec_parse_pairs(x, n)->Ok_0.0.len() == 0,
    decreases x.len(), 2int,
{
    if n > 0 {
        let (key, k1) = spec_parse_value(x)->Ok_0;
        lemma_parsed_well_formed(x);
        let (value, k2) = spec_parse_value(x.skip(k1))->Ok_0;
        lemma_parsed_well_formed(x.skip(k1));
        lemma_pairs_well_formed(x.skip(k1 + k2), n - 1);
        let ps = spec_parse_pairs(x.skip(k1 + k2), n - 1)->Ok_0.0;
        assert((seq![(key, value)] + ps).subrange(1, ps.len() as int + 1) =~= ps);
    }
}

// ---------------------------------------------------------------------------
// The laws of the wire format

/// Serialization and deserialization are inverse: a well-formed value's wire
/// form deserializes to that value.
pub proof fn law_deserialize_serialized(f: Frame)
    requires
        well_formed(f),
    ensures
        spec_deserialize(spec_serialize(f)) == Ok::<Frame, FrameError>(f),
{
    lemma_parse_serialized(f, Seq::empty());
    assert(spec_serialize(f) + Seq::<u8>::empty() =~= spec_serialize(f));
}

/// A canonical input (the wire form of a well-formed value) deserializes to
/// a value that serializes back to exactly that input.
pub proof fn law_canonical_input_round_trips(input: Seq<u8>, g: Frame)
    requires
        well_formed(g),
        input == spec_serialize(g),
    ensures
        spec_deserialize(input) matches Ok(f) && spec_serialize(f) == input,
{
    law_deserialize_serialized(g);
}

/// Whatever deserializes is well-formed, so its serialization is canonical:
/// it deserializes to the same value again.
pub proof fn law_deserialized_reserializes(input: Seq<u8>)
    requires
        spec_deserialize(input) is Ok,
    ensures
        well_formed(spec_deserialize(input)->Ok_0),
        spec_deserialize(spec_serialize(spec_deserialize(input)->Ok_0)) == spec_deserialize(input),
{
    lemma_parsed_well_formed(input);
    law_deserialize_serialized(spec_deserialize(input)->Ok_0);
}

// ---------------------------------------------------------------------------
// How many bytes a parse takes

/// A parse takes at least its tag byte and no more than it is given.
pub proof fn lemma_parse_consumes(x: Seq<u8>)
    ensures
        spec_parse_value(x) matches Ok((_, k)) ==> 0 < k <= x.len(),
    decreases x.len(), 0int,
{
    if x.len() > 0 {
        match tag_type(x[0]) {
            Some(RespType::Simple(t)) => {
                lemma_first_crlf(x.drop_first(), 0);
            },
            Some(RespType::Aggregate(t)) => {
                lemma_aggregate_consumes(t, x.drop_first());
            },
            None => {},
        }
    }
}

#[verifier::spinoff_prover]
proof fn lemma_aggregate_consumes(t: AggregateType, x: Seq<u8>)
    ensures
        spec_parse_aggregate(t, x) matches Ok((_, k)) ==> 2 <= k <= x.len(),
    decreases x.len(), 1int,
{
    lemma_first_crlf(x, 0);
    if let Ok((line, k)) = spec_read_line(x) {
        let rest = x.skip(k);
        let legacy_null = t == AggregateType::BulkString || t == AggregateType::Array;
        if let Ok(Some(n)) = spec_parse_length(line, legacy_null) {
            match t {
                AggregateType::Array | AggregateType::UnorderedSet | AggregateType::Push => {
                    lemma_values_consume(rest, n);
                },
                AggregateType::Dictionary => {
                    lemma_pairs_consume(rest, n);
                },
                AggregateType::Attribute => {
                    lemma_pairs_consume(rest, n);
                    if let Ok((ps, m)) = spec_parse_pairs(rest, n) {
                        if 0 <= m <= rest.len() {
                            lemma_parse_consumes(rest.skip(m));
                        }
                    }
                },
                _ => {},
            }
        }
    }
}

proof fn lemma_values_consume(x: Seq<u8>, n: int)
    ensures
        spec_parse_values(x, n) matches Ok((_, m)) ==> 0 <= m <= x.len(),
    decreases x.len(), 2int,
{
    if n > 0 {
        if let Ok((f, k)) = spec_parse_value(x) {
            if 0 < k <= x.len() {
                lemma_values_consume(x.skip(k), n - 1);
            }
        }
    }
}

proof fn lemma_pairs_consume(x: Seq<u8>, n: int)
    ensures
        spec_parse_pairs(x, n) matches Ok((_, m)) ==> 0 <= m <= x.len(),
    decreases x.len(), 2int,
{
    if n > 0 {
        if let Ok((key, k1)) = spec_parse_value(x) {
            if 0 < k1 <= x.len() {
                if let Ok((value, k2)) = spec_parse_value(x.skip(k1)) {
                    if 0 < k2 <= x.len() - k1 {
                        lemma_pairs_consume(x.skip(k1 + k2), n - 1);
                    }
                }
            }
        }
    }
}

// ---------------------------------------------------------------------------
// A parse never reports trailing data

pub proof fn lemma_parse_not_trailing(x: Seq<u8>)
    ensures
        spec_parse_value(x) != Err::<(Frame, int), FrameError>(FrameError::TrailingData),
    decreases x.len(), 0int,
{
    if x.len() > 0 {
        if let Some(RespType::Aggregate(t)) = tag_type(x[0]) {
            lemma_aggregate_not_trailing(t, x.drop_first());
        }
    }
}

#[verifier::spinoff_prover]
proof fn lemma_aggregate_not_trailing(t: AggregateType, x: Seq<u8>)
    ensures
        spec_parse_aggregate(t, x) != Err::<(Frame, int), FrameError>(FrameError::TrailingData),
    decreases x.len(), 1int,
{
    lemma_first_crlf(x, 0);
    if let Ok((line, k)) = spec_read_line(x) {
        let rest = x.skip(k);
        let legacy_null = t == AggregateType::BulkString || t == AggregateType::Array;
        if let Ok(Some(n)) = spec_parse_length(line, legacy_null) {
            match t {
                AggregateType::Array | AggregateType::UnorderedSet | AggregateType::Push => {
                    lemma_values_not_trailing(rest, n);
                },
                AggregateType::Dictionary => {
                    lemma_pairs_not_trailing(rest, n);
                },
                AggregateType::Attribute => {
                    lemma_pairs_not_trailing(rest, n);
                    if let Ok((ps, m)) = spec_parse_pairs(rest, n) {
                        if 0 <= m <= rest.len() {
                            lemma_parse_not_trailing(rest.skip(m));
                        }
                    }
                },
                _ => {},
            }
        }
    }
}

proof fn lemma_values_not_trailing(x: Seq<u8>, n: int)
    ensures
        spec_parse_values(x, n) != Err::<(Seq<Frame>, int), FrameError>(FrameError::TrailingData),
    decreases x.len(), 2int,
{
    if n > 0 {
        lemma_parse_not_trailing(x);
        if let Ok((f, k)) = spec_parse_value(x) {
            if 0 < k <= x.len() {
                lemma_values_not_trailing(x.skip(k), n - 1);
            }
        }
    }
}

proof fn lemma_pairs_not_trailing(x: Seq<u8>, n: int)
    ensures
        spec_parse_pairs(x, n) != Err::<(Seq<(Frame, Frame)>, int), FrameError>(FrameError::TrailingData),
    decreases x.len(), 2int,
{
    if n > 0 {
        lemma_parse_not_trailing(x);
        if let Ok((key, k1)) = spec_parse_value(x) {
            if 0 < k1 <= x.len() {
                lemma_parse_not_trailing(x.skip(k1));
                if let Ok((value, k2)) = spec_parse_value(x.skip(k1)) {
                    if 0 < k2 <= x.len() - k1 {
                        lemma_pairs_not_trailing(x.skip(k1 + k2), n - 1);
                    }
                }
            }
        }
    }
}

// ---------------------------------------------------------------------------
// A parse reads only the bytes it takes

proof fn lemma_first_crlf_truncate(x: Seq<u8>, j: int, from: int, i: int)
    requires
        0 <= from <= i,
        first_crlf(x, from) == Some(i),
        i + 2 <= j <= x.len(),
    ensures
        first_crlf(x.take(j), from) == Some(i),
    decreases i - from,
{
    let t = x.take(j);
    assert(t.len() == j);
    assert(t[from] == x[from] && t[from + 1] == x[from + 1]);
    assert(crlf_at(t, from) == crlf_at(x, from));
    if from < i {
        assert(!crlf_at(x, from));
        assert(first_crlf(x, from + 1) == Some(i));
        lemma_first_crlf_truncate(x, j, from + 1, i);
    } else {
        lemma_first_crlf(x, from);
        assert(crlf_at(x, i));
    }
}

proof fn lemma_read_line_truncate(x: Seq<u8>, j: int)
    requires
        spec_read_line(x) matches Ok((_, k)) && k <= j <= x.len(),
    ensures
        spec_read_line(x.take(j)) == spec_read_line(x),
{
    lemma_first_crlf(x, 0);
    let i = first_crlf(x, 0)->0;
    lemma_first_crlf_truncate(x, j, 0, i);
    assert(x.take(j).take(i) =~= x.take(i));
}

proof fn lemma_read_exact_truncate(x: Seq<u8>, n: int, j: int)
    requires
        spec_read_exact(x, n) is Ok,
        0 <= n,
        n + 2 <= j <= x.len(),
    ensures
        spec_read_exact(x.take(j), n) == spec_read_exact(x, n),
{
    let t = x.take(j);
    assert(t[n] == x[n] && t[n + 1] == x[n + 1]);
    assert(t.take(n) =~= x.take(n));
}

/// A parse that takes `k` bytes gives the same on any prefix that keeps them.
pub proof fn lemma_parse_truncate(x: Seq<u8>, j: int)
    requires
        spec_parse_value(x) matches Ok((_, k)) && k <= j <= x.len(),
    ensures
        spec_parse_value(x.take(j)) == spec_parse_value(x),
    decreases x.len(), 0int,
{
    let t = x.take(j);
    lemma_parse_consumes(x);
    assert(t[0] == x[0]);
    assert(t.drop_first() =~= x.drop_first().take(j - 1));
    match tag_type(x[0]) {
        Some(RespType::Simple(st)) => {
            lemma_read_line_truncate(x.drop_first(), j - 1);
        },
        Some(RespType::Aggregate(at)) => {
            lemma_aggregate_truncate(at, x.drop_first(), j - 1);
        },
        None => {},
    }
}

#[verifier::spinoff_prover]
proof fn lemma_aggregate_truncate(t: AggregateType, x: Seq<u8>, j: int)
    requires
        spec_parse_aggregate(t, x) matches Ok((_, k)) && k <= j <= x.len(),
    ensures
        spec_parse_aggregate(t, x.take(j)) == spec_parse_aggregate(t, x),
    decreases x.len(), 1int,
{
    lemma_first_crlf(x, 0);
    let (line, k) = spec_read_line(x)->Ok_0;
    let rest = x.skip(k);
    let legacy_null = t == AggregateType::BulkString || t == AggregateType::Array;
    let xt = x.take(j);
    match spec_parse_length(line, legacy_null) {
        Ok(None) => {
            lemma_read_line_truncate(x, j);
        },
        Ok(Some(n)) => {
            match t {
                AggregateType::BulkString | AggregateType::BulkError | AggregateType::VerbatimString => {
                    lemma_read_line_truncate(x, j);
                    assert(xt.skip(k) =~= rest.take(j - k));
                    lemma_read_exact_truncate(rest, n, j - k);
                },
                AggregateType::Array | AggregateType::UnorderedSet | AggregateType::Push => {
                    lemma_values_consume(rest, n);
                    lemma_read_line_truncate(x, j);
                    assert(xt.skip(k) =~= rest.take(j - k));
                    lemma_values_truncate(rest, n, j - k);
                },
                AggregateType::Dictionary => {
                    lemma_pairs_consume(rest, n);
                    lemma_read_line_truncate(x, j);
                    assert(xt.skip(k) =~= rest.take(j - k));
                    lemma_pairs_truncate(rest, n, j - k);
                },
                AggregateType::Attribute => {
                    lemma_pairs_consume(rest, n);
                    let m = spec_parse_pairs(rest, n)->Ok_0.1;
                    lemma_parse_consumes(rest.skip(m));
                    lemma_read_line_truncate(x, j);
                    let rt = rest.take(j - k);
                    assert(xt.skip(k) =~= rt);
                    lemma_pairs_truncate(rest, n, j - k);
                    assert(rt.skip(m) =~= rest.skip(m).take(j - k - m));
                    lemma_parse_truncate(rest.skip(m), j - k - m);
                },
            }
        },
        Err(_) => {},
    }
}

proof fn lemma_values_truncate(x: Seq<u8>, n: int, j: int)
    requires
        spec_parse_values(x, n) matches Ok((_, m)) && m <= j <= x.len(),
    ensures
        spec_parse_values(x.take(j), n) == spec_parse_values(x, n),
    decreases x.len(), 2int,
{
    if n > 0 {
        let (f, k) = spec_parse_value(x)->Ok_0;
        lemma_values_consume(x.skip(k), n - 1);
        lemma_parse_truncate(x, j);
        assert(x.take(j).skip(k) =~= x.skip(k).take(j - k));
        lemma_values_truncate(x.skip(k), n - 1, j - k);
    }
}

proof fn lemma_pairs_truncate(x: Seq<u8>, n: int, j: int)
    requires
        spec_parse_pairs(x, n) matches Ok((_, m)) && m <= j <= x.len(),
    ensures
        spec_parse_pairs(x.take(j), n) == spec_parse_pairs(x, n),
    decreases x.len(), 2int,
{
    if n > 0 {
        let (key, k1) = spec_parse_value(x)->Ok_0;
        let (value, k2) = spec_parse_value(x.skip(k1))->Ok_0;
        lemma_pairs_consume(x.skip(k1 + k2), n - 1);
        lemma_parse_truncate(x, j);
        assert(x.take(j).skip(k1) =~= x.skip(k1).take(j - k1));
        lemma_parse_truncate(x.skip(k1), j - k1);
        assert(x.take(j).skip(k1 + k2) =~= x.skip(k1 + k2).take(j - k1 - k2));
        lemma_pairs_truncate(x.skip(k1 + k2), n - 1, j - k1 - k2);
    }
}

/// A parse never reports trailing data: only a whole-input deserialization
/// does, when bytes are left after the value.
pub proof fn law_parse_never_reports_trailing_data(s: Seq<u8>)
    ensures
        spec_parse_value(s) != Err::<(Frame, int), FrameError>(FrameError::TrailingData),
{
    lemma_parse_not_trailing(s);
}

/// A parse depends only on the bytes it takes: the value at the front of `s`
/// is also what those bytes alone parse and deserialize to.
pub proof fn law_parse_reads_only_its_bytes(s: Seq<u8>)
    requires
        spec_parse_value(s) is Ok,
    ensures
        ({
            let (f, k) = spec_parse_value(s)->Ok_0;
            &&& spec_parse_value(s.take(k)) == Ok::<(Frame, int), FrameError>((f, k))
            &&& spec_deserialize(s.take(k)) == Ok::<Frame, FrameError>(f)
        }),
{
    lemma_parse_consumes(s);
    let k = spec_parse_value(s)->Ok_0.1;
    lemma_parse_truncate(s, k);
}

} // verus!
