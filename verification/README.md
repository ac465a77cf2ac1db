# fleece

A reader and writer for Fleece, a compact binary encoding of JSON-like values, whose
logic carries machine-checked contracts and proofs.

- `src/value`: reading Fleece data: values, Arrays, Dicts, pointers, varints, and the
  validation of untrusted bytes.
- `src/encoder`: the Encoder, which writes values, Arrays and Dicts (Dict keys sorted,
  pointers narrow or wide as the distances demand).
- `src/roundtrip.rs`: proofs that what the Encoder writes reads back as written.
- `src/mutable`: mutable Arrays and Dicts copied out of Fleece data or built up.
- `src/shared_keys.rs`: shared keys, short Dict keys numbered in a table.
- `src/alloced.rs`, `src/scope.rs`: values held together with their buffer.
- `src/ser.rs`, `src/de.rs`, `src/error.rs`: the error types of serialisation.
- `app/`: what needs I/O, global state, floating point or serde: the serde adapters, the
  registry of scopes, float conversions.
- `tests/`: tests of the library.
