//! Why a byte sequence is not a RESP frame.

use vstd::prelude::*;

verus! {

/// A parse failure. Payloads hold the offending bytes.
#[derive(Debug, PartialEq, Eq)]
pub enum RespError {
    UnknownType(u8),
    UnexpectedEof,
    MissingTerminator,
    TrailingData,
    InvalidInteger(Vec<u8>),
    InvalidLength(Vec<u8>),
    InvalidBoolean(Vec<u8>),
    InvalidDouble(Vec<u8>),
    InvalidBigNumber(Vec<u8>),
    InvalidNull(Vec<u8>),
    InvalidVerbatimString,
}

} // verus!
