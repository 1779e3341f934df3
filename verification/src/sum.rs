//! The five RESP2 type tags, on their own.

use vstd::prelude::*;
use vstd::std_specs::convert::TryFromSpecImpl;
use crate::resp::tag::{is_resp2_type, tag_type};

verus! {

/// A RESP2 type, as named by the first byte of a frame.
#[derive(Debug, Clone, Copy, PartialEq, Eq, Structural)]
pub enum RespSum {
    SimpleString,
    Error,
    Integer,
    BulkString,
    Array,
}

/// A byte that names no RESP2 type.
#[derive(Debug, PartialEq, Eq, Structural)]
pub enum RespError {
    UnknownType(u8),
}

/// The RESP2 type that a tag byte names, if any.
pub open spec fn sum_of_tag(tag: u8) -> Option<RespSum> {
    if tag == 43 {
        Some(RespSum::SimpleString)  // '+'
    } else if tag == 45 {
        Some(RespSum::Error)  // '-'
    } else if tag == 58 {
        Some(RespSum::Integer)  // ':'
    } else if tag == 36 {
        Some(RespSum::BulkString)  // '$'
    } else if tag == 42 {
        Some(RespSum::Array)  // '*'
    } else {
        None
    }
}

/// The RESP2 tags are exactly the tags of the types that RESP2 already had.
pub proof fn law_resp2_tags(tag: u8)
    ensures
        sum_of_tag(tag) is Some <==> (tag_type(tag) matches Some(t) && is_resp2_type(t)),
{
}

impl TryFrom<u8> for RespSum {
    type Error = RespError;

    fn try_from(value: u8) -> (res: Result<RespSum, RespError>) {
        match value {
            43 => Ok(RespSum::SimpleString),
            45 => Ok(RespSum::Error),
            58 => Ok(RespSum::Integer),
            36 => Ok(RespSum::BulkString),
            42 => Ok(RespSum::Array),
            other => Err(RespError::UnknownType(other)),
        }
    }
}

impl TryFromSpecImpl<u8> for RespSum {
    open spec fn obeys_try_from_spec() -> bool {
        true
    }

    open spec fn try_from_spec(v: u8) -> Result<RespSum, RespError> {
        match sum_of_tag(v) {
            Some(t) => Ok(t),
            None => Err(RespError::UnknownType(v)),
        }
    }
}

} // verus!
