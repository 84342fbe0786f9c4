# resid

The knowledge-graph IR of the Resid language and its package tooling, as a
Verus-verified library.

- `src/types.rs`, `src/graph.rs`: the type system, literal values and the
  knowledge graph (an expression DAG in a slot map) with reachability,
  topological order and subgraph copies.
- `src/convert.rs`: conversion of a parsed translation unit into a graph;
  which names a unit looks up, and when conversion reports them undefined.
- `src/capture.rs`: the identifiers an expression mentions, in order (what
  a spawned block captures).
- `src/reduce.rs`: compile-time reduction in repeated passes (constant
  folding, control flow on known conditions, inlining of pure calls).
- `src/retro.rs`: back-translation of a reduced graph into a translation
  unit, and the whole `graph_reduce` pipeline.
- `src/archive.rs`, `src/cose.rs`, `src/provenance.rs`, `src/crypto.rs`:
  package archives, hex, COSE signing and encryption, provenance trailers;
  hashing, signatures and AEAD come from `sha2`, `ed25519-dalek` and
  `chacha20poly1305` behind small trusted wrappers.
- `src/manifest.rs`, `src/registry.rs`, `src/lock.rs`: manifest rules and
  the capability policy, registry naming, HTTP request and response
  handling, the signed index and `resid.lock`.

`app/` is the `resid-build` command line: file and network work and
manifest parsing with `serde`/`toml` (resolving a package, packing,
signing, verifying and publishing). Native code generation needs the Resid
front end and LLVM and is not part of it.
