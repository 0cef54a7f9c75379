# dasl

Content identifiers (CIDs) and DRISL, the deterministic subset of CBOR, with their behaviour
stated in contracts and proved with Verus.

- `src/base32.rs`: lower-case base32 without padding; encoding and canonical decoding, and
  the proofs that each undoes the other.
- `src/cid.rs`: the CID type, its raw, binary and text forms, and digests through `sha2` and
  `blake3`.
- `src/drisl/cbor.rs`: the CBOR items DRISL writes and the byte order of map entries, with the
  proof that text keys sort length first.
- `src/drisl/ser.rs`: the writer driven by serialization, and the builder of values.
- `src/drisl/value.rs`: the value model, with key-ordered maps.
- `app/`: serde serializers, `Display`/`FromStr` and error types that route to the library.
