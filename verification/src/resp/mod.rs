//! RESP2/RESP3 values: type tags, the value model, parsing and serialization.

pub mod de;
pub mod error;
pub mod grammar;
pub mod laws;
pub mod ser;
pub mod tag;
pub mod text;
pub mod value;

pub use error::RespError;
pub use tag::{AggregateType, RespCategory, RespType, RespVersion, SimpleType};
pub use value::{AggregateValue, RespValue, SimpleValue};
