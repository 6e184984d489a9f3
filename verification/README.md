# postbag

A compact binary serialization format with support for schema evolution,
written in Verus: the encoder, the decoder and the block framing that lets a
reader skip what it does not understand are proved against specifications of
the bytes they write and read.

## Layout

- `src/` is the verified library.
  - `varint`, `zigzag`, `format`, `id`, `header`: the encodings of single
    values, identifiers and the header, each with the law that what is
    written is read back.
  - `block`: how a block is split into chunks, as a specification of the
    stream each level of nesting delivers.
  - `skip_write`, `skip_read`: writing and reading nested blocks; a reader
    can skip what is left of a block, or read it whole.
  - `ser`, `de`: the serializer and deserializer, value by value, stated over
    those streams; `round_trip` joins them.
  - `cfg`, `info`, `skip`, `recoverable`, `fixint`, `varfloat`, `compact`:
    configuration and the helper types and predicates of the format.
- `app/` drives the library from serde's traits and moves bytes to and from
  `std::io`; nothing there is verified.
- `tests/` runs the library on concrete bytes.
