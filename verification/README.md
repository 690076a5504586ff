# webm_ebml

Reading and writing EBML, the container format of Matroska and WebM files,
verified with Verus.

- `src/bits.rs`: binary digits and big-endian bytes, the models the rest is
  specified over.
- `src/vint.rs`: variable-length integers (element identifiers and sizes).
- `src/numbers.rs`: numbers read from element data, decimal identifiers.
- `src/schema.rs`: the element schema (a JSON text read with the `json`
  crate) and its model.
- `src/ebml.rs`: elements and documents: reading, writing, lookups, maps.
- `src/roundtrip.rs`: elements that agree with the schema read back from
  their own bytes.
- `src/frame.rs`: the VP8 boolean decoder and bit views of bytes.
- `app/`: the program around the library: file I/O and floats.
