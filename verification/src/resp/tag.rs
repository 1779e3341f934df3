//! The one-byte type tags that start every RESP frame.

use vstd::prelude::*;
use vstd::std_specs::convert::TryFromSpecImpl;
use super::error::RespError;

verus! {

/// The protocol revision that introduced a type.
#[derive(Debug, Clone, Copy, PartialEq, Eq, Structural)]
pub enum RespVersion {
    Resp2,
    Resp3,
}

/// Whether a type is a single line or carries a length-prefixed payload.
#[derive(Debug, Clone, Copy, PartialEq, Eq, Structural)]
pub enum RespCategory {
    Simple,
    Aggregate,
}

/// Types whose payload is a single CRLF-terminated line.
#[derive(Debug, Clone, Copy, PartialEq, Eq, Structural)]
pub enum SimpleType {
    SimpleString,
    Error,
    Integer,
    Null,
    Boolean,
    Double,
    BigNumber,
}

/// Types whose payload is announced by a length or an element count.
#[derive(Debug, Clone, Copy, PartialEq, Eq, Structural)]
pub enum AggregateType {
    BulkString,
    Array,
    BulkError,
    VerbatimString,
    Dictionary,
    Attribute,
    UnorderedSet,
    Push,
}

/// A RESP type, as named by the first byte of a frame.
#[derive(Debug, Clone, Copy, PartialEq, Eq, Structural)]
pub enum RespType {
    Simple(SimpleType),
    Aggregate(AggregateType),
}

/// The type that a tag byte names, if any.
pub open spec fn tag_type(tag: u8) -> Option<RespType> {
    if tag == 43 { Some(RespType::Simple(SimpleType::SimpleString)) }           // '+'
    else if tag == 45 { Some(RespType::Simple(SimpleType::Error)) }             // '-'
    else if tag == 58 { Some(RespType::Simple(SimpleType::Integer)) }           // ':'
    else if tag == 95 { Some(RespType::Simple(SimpleType::Null)) }              // '_'
    else if tag == 35 { Some(RespType::Simple(SimpleType::Boolean)) }           // '#'
    else if tag == 44 { Some(RespType::Simple(SimpleType::Double)) }            // ','
    else if tag == 40 { Some(RespType::Simple(SimpleType::BigNumber)) }         // '('
    else if tag == 36 { Some(RespType::Aggregate(AggregateType::BulkString)) }  // '$'
    else if tag == 42 { Some(RespType::Aggregate(AggregateType::Array)) }       // '*'
    else if tag == 33 { Some(RespType::Aggregate(AggregateType::BulkError)) }   // '!'
    else if tag == 61 { Some(RespType::Aggregate(AggregateType::VerbatimString)) } // '='
    else if tag == 37 { Some(RespType::Aggregate(AggregateType::Dictionary)) }         // '%'
    else if tag == 124 { Some(RespType::Aggregate(AggregateType::Attribute)) }  // '|'
    else if tag == 126 { Some(RespType::Aggregate(AggregateType::UnorderedSet)) }        // '~'
    else if tag == 62 { Some(RespType::Aggregate(AggregateType::Push)) }        // '>'
    else { None }
}

/// The tag byte that introduces a type on the wire.
pub open spec fn type_tag(t: RespType) -> u8 {
    match t {
        RespType::Simple(SimpleType::SimpleString) => 43,
        RespType::Simple(SimpleType::Error) => 45,
        RespType::Simple(SimpleType::Integer) => 58,
        RespType::Simple(SimpleType::Null) => 95,
        RespType::Simple(SimpleType::Boolean) => 35,
        RespType::Simple(SimpleType::Double) => 44,
        RespType::Simple(SimpleType::BigNumber) => 40,
        RespType::Aggregate(AggregateType::BulkString) => 36,
        RespType::Aggregate(AggregateType::Array) => 42,
        RespType::Aggregate(AggregateType::BulkError) => 33,
        RespType::Aggregate(AggregateType::VerbatimString) => 61,
        RespType::Aggregate(AggregateType::Dictionary) => 37,
        RespType::Aggregate(AggregateType::Attribute) => 124,
        RespType::Aggregate(AggregateType::UnorderedSet) => 126,
        RespType::Aggregate(AggregateType::Push) => 62,
    }
}

/// The types of RESP2; every other type arrived with RESP3.
pub open spec fn is_resp2_type(t: RespType) -> bool {
    match t {
        RespType::Simple(SimpleType::SimpleString) => true,
        RespType::Simple(SimpleType::Error) => true,
        RespType::Simple(SimpleType::Integer) => true,
        RespType::Aggregate(AggregateType::BulkString) => true,
        RespType::Aggregate(AggregateType::Array) => true,
        _ => false,
    }
}

impl RespType {
    pub fn category(&self) -> (c: RespCategory)
        ensures
            c == (match self {
                RespType::Simple(_) => RespCategory::Simple,
                RespType::Aggregate(_) => RespCategory::Aggregate,
            }),
    {
        match self {
            RespType::Simple(_) => RespCategory::Simple,
            RespType::Aggregate(_) => RespCategory::Aggregate,
        }
    }

    pub fn min_version(&self) -> (v: RespVersion)
        ensures
            v == (if is_resp2_type(*self) { RespVersion::Resp2 } else { RespVersion::Resp3 }),
    {
        match self {
            RespType::Simple(SimpleType::SimpleString)
            | RespType::Simple(SimpleType::Error)
            | RespType::Simple(SimpleType::Integer)
            | RespType::Aggregate(AggregateType::BulkString)
            | RespType::Aggregate(AggregateType::Array) => RespVersion::Resp2,
            _ => RespVersion::Resp3,
        }
    }
}

/// Every type reads back from the tag byte that introduces it, and every
/// tag byte that names a type is that type's tag.
pub proof fn law_tag_round_trip(t: RespType, tag: u8)
    ensures
        tag_type(type_tag(t)) == Some(t),
        tag_type(tag) matches Some(u) ==> type_tag(u) == tag,
{
}

impl TryFrom<u8> for RespType {
    type Error = RespError;

    fn try_from(value: u8) -> (res: Result<RespType, RespError>) {
        match value {
            43 => Ok(RespType::Simple(SimpleType::SimpleString)),
            45 => Ok(RespType::Simple(SimpleType::Error)),
            58 => Ok(RespType::Simple(SimpleType::Integer)),
            95 => Ok(RespType::Simple(SimpleType::Null)),
            35 => Ok(RespType::Simple(SimpleType::Boolean)),
            44 => Ok(RespType::Simple(SimpleType::Double)),
            40 => Ok(RespType::Simple(SimpleType::BigNumber)),
            36 => Ok(RespType::Aggregate(AggregateType::BulkString)),
            42 => Ok(RespType::Aggregate(AggregateType::Array)),
            33 => Ok(RespType::Aggregate(AggregateType::BulkError)),
            61 => Ok(RespType::Aggregate(AggregateType::VerbatimString)),
            37 => Ok(RespType::Aggregate(AggregateType::Dictionary)),
            124 => Ok(RespType::Aggregate(AggregateType::Attribute)),
            126 => Ok(RespType::Aggregate(AggregateType::UnorderedSet)),
            62 => Ok(RespType::Aggregate(AggregateType::Push)),
            other => Err(RespError::UnknownType(other)),
        }
    }
}

impl TryFromSpecImpl<u8> for RespType {
    open spec fn obeys_try_from_spec() -> bool {
        true
    }

    open spec fn try_from_spec(v: u8) -> Result<RespType, RespError> {
        match tag_type(v) {
            Some(t) => Ok(t),
            None => Err(RespError::UnknownType(v)),
        }
    }
}

} // verus!
