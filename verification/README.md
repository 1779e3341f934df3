# cinder

A small Redis-compatible server speaking RESP2/RESP3.

- `src/` is the verified library (Verus):
  - `resp/tag.rs` – the type tag bytes; `sum.rs` – the RESP2 subset of them.
  - `resp/value.rs` – the value type and its mathematical model (`Frame`).
  - `resp/text.rs` – decimal integers, big numbers and the syntax of doubles.
  - `resp/grammar.rs` – the wire format stated as spec functions: what bytes
    parse to and what a value serializes to.
  - `resp/de.rs`, `resp/ser.rs` – the parser and the serializer, proved
    against that statement.
  - `resp/laws.rs` – serialization and parsing are inverse on well-formed
    values, incomplete frames ask for more bytes, extra bytes after a decided
    parse change nothing, and every parsed value is well-formed.
  - `commands.rs` – `PING`, `ECHO`, `SET`, `GET`; `store.rs` – the key-value
    store; `server.rs` – splitting a connection's bytes into requests and
    answering them.
- `app/` is the unverified program around it: the tokio TCP server, and a
  copy of the value type that holds doubles as `f64`.
- `tests/` runs the library on concrete inputs.

Doubles are kept in the library as the decimal text they have on the wire;
only `app/` turns them into `f64`. So the library does not normalize them:
deserializing `,3.140\r\n` or `,+inf\r\n` and serializing again gives the same
bytes back, and two doubles compare equal when their texts are equal.
Normalizing (`3.14`, `inf`) takes reading the text as a float, which is left
to `app/value.rs` (`RespValue` there holds an `f64`, and its `serialize`
writes the shortest form). The server's replies never contain doubles.

The store is a vector of key-value pairs kept free of duplicate keys, so a
lookup is linear in the number of keys. A `HashMap<Vec<u8>, Vec<u8>>` was not
used: vstd's specification of `HashMap` holds only for key types that satisfy
`obeys_key_model`, which vstd grants to integers, `bool` and boxes of them but
not to `Vec<u8>`, and granting it here would take an assumption.
