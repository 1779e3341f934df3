//! A small RESP (REdis Serialization Protocol) server library: the wire
//! format's type tags, a parser and a serializer for RESP values, the
//! command set, the key-value store behind it, and the per-connection
//! framing logic.

pub mod commands;
pub mod resp;
pub mod sum;
pub mod store;
pub mod server;
