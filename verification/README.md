# rawkit

A decentralized graph database for agent memory: nodes of properties
resolved by HAM (a state-based conflict resolution), peer synchronisation
of writes, identities derived from wallet signatures, Ed25519 signatures,
X25519 + ChaCha20-Poly1305 encryption, signed access certificates, and an
HNSW graph for vector search.

## Layout

- `src/` — the library, written and proved with Verus.
  - `value`, `node`, `ham`, `storage`, `graph`: values, nodes, conflict
    resolution, storage backends and the graph database.
  - `message`, `peer`, `transport`: the wire protocol and the peer manager.
  - `identity`, `sign`, `encrypt`, `certificate`, `hex`: identities,
    signatures, encryption, certificates and hexadecimal text.
  - `hnsw`: the layered proximity graph of an HNSW index, with distances
    supplied by the caller.
  - `primitives`, `ids`: the calls into the cryptography, randomness and
    UUID crates, each with the contract the library relies on.
  - `assoc`, `text`, `render`: association lists, character sequences and
    decimal rendering used by the rest.
- `tests/` — tests of the library, run against the real outside crates.
- `app/` — the command-line program and what stays outside the library:
  JSON forms of the types, SQLite storage, change callbacks, floating-point
  vector search and embeddings, and browser bindings.
