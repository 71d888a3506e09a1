# cbor_ffi

Building, serializing, parsing and inspecting CBOR documents (RFC 8949),
with a handle-based C ABI on top.

- `src/` is the library, verified with Verus:
  - `value.rs`: the item type `CborValue`, whose byte and text payloads are
    borrowed or owned, and its mathematical model `Cbor`;
  - `format.rs`: the encoding as spec functions (`serialization`,
    `parse_document`), for the plain and the deterministic mode;
  - `serialize.rs`, `parse.rs`: the executable encoder and decoder, proved
    equal to those spec functions;
  - `nodes.rs`, `tree.rs`: the flat node-array form of a document;
  - `document.rs`: the public parse and serialize entry points, depth capped
    at `MAX_DEPTH_LIMIT`;
  - `access.rs`: the operations behind the C ABI (constructors, accessors,
    map lookup);
  - `laws.rs`: round trips, canonical form, depth caps and lookup laws;
  - `canonical.rs`: deterministic encoding ignores the order of map entries, at any depth;
  - `depth.rs`: a larger depth allowance changes nothing a smaller one accepted;
  - `text.rs`: UTF-8 validation through `std::str::from_utf8`.
- `app/` is the C ABI itself (`tav_cbor_*`), unverified: raw pointers,
  handle ownership and panic guards around calls into the library.
- `tests/` exercises the library on concrete documents.
