# ngram

The verified core of a document archive service: the byte encoding of the
requests and responses that clients and server exchange, and the
multi-valued hash map that indexes the archive.

- `src/bigendian.rs` — eight-byte big-endian encoding of `u64`, both ways.
- `src/text.rs` — length-prefixed UTF-8 text, over vstd's model of UTF-8.
- `src/decimal.rs` — decimal notation of unsigned integers.
- `src/message.rs` — `Request` and `Response`, their encoding and decoding
  (`to_bytes`, `from_bytes`), the text that shows a response, and the laws
  that decoding an encoding gives the message back and reads exactly it.
- `src/multimap.rs` — `ConcurrentMultiMap`, a vector of buckets of key-value
  pairs, with the laws of adding and looking up pairs.

Tests are under `tests/`.
