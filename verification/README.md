# edifact_rs

Reading, writing and validating EDIFACT (ISO 9735) interchanges, verified
with Verus.

## Layout

- `src/` — the library; its functions are verified against their
  `requires`/`ensures`, except the trusted items below.
  - `syntax.rs` service string advice (`UNA`) and byte-level scanning;
  - `parser.rs` the slice reader (`FromBytesIter`) and the reader stream
    (`OwnedSegmentStream`), with their limits;
  - `stream.rs` the chunked reader (`ChunkedReader::feed`): fed the input a
    chunk at a time, it holds at most one segment and yields what the slice
    reader yields on the whole input;
  - `model.rs` segments, elements, components and spans;
  - `charset.rs` character repertoires: sniffing, decoding, encoding and
    chunk-by-chunk transcoding (`decode_step`);
  - `writer.rs`, `event.rs`, `ser.rs` writing segments, the event layer and
    typed serialization;
  - `de.rs`, `typed.rs` segment lookup, qualifier patterns, message windows
    and typed deserialization;
  - `envelope.rs`, `group.rs`, `contrl.rs` interchange envelopes, segment
    groups and CONTRL acknowledgements;
  - `directory_validator.rs`, `report.rs`, `error.rs` directory layouts,
    validation reports and errors.
- `tests/` — tests run against the compiled library.
- `app/` — the unverified edge: `std::io` readers and writers (the reader
  functions drive `ChunkedReader` one read at a time), `serde` and
  `thiserror`/`miette` forms of the library's types, and the `Display`
  adapters.

Laws that span functions are public proof functions named `law_*`.

## Trusted items

What the proofs rest on without proving it: the seventeen functions marked
`#[verifier::external_body]`, each a thin wrapper around one call into std or
`smallvec` whose contract is believed, not proved (`char::from_u32`,
`str::from_utf8`, `String::from_utf8` twice, `String::push`,
`String::push_str`, `&str ==`, the `Debug` forms of `str` and `char`,
`io::Error`'s `Display` and `kind` comparison, `str::parse`, and the
`SmallVec` calls behind `Components`); the `Components` struct itself, which
hides its `SmallVec`; the declaration of `std::io::Error`; and the three
names for results that only those wrappers describe (`component_items`,
`debug_str_text`, `debug_char_text`).
