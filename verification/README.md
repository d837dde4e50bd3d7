# metis

A relation-first math engine core: a directed graph of nodes and morphisms,
islands as knowledge domains, and the lowering of island-language declarations
into an island store. The library is written in Verus; every function in `src/`
carries a contract proved by the verifier.

## Layout

- `src/types.rs`, `src/keys.rs` — handles, edge kinds, errors, fingerprint keys.
- `src/graph.rs` — the relation graph: label and structural hash-consing,
  judgment edges, directed and undirected (`Equal`) path search, with the EQ laws.
- `src/admission.rs`, `src/relation.rs`, `src/derivation.rs`, `src/transform.rs`,
  `src/conflict.rs`, `src/eval.rs`, `src/connection.rs` — candidates, replay that
  mints admitted relations, transformation schemas, incompatibility queries,
  numeric attachments and world connections.
- `src/rules.rs`, `src/island.rs` — rule tables and the island store with its
  staging workspace.
- `src/verify.rs`, `src/zfc.rs` — proof search and checking; the finite ZFC fragment.
- `src/lower.rs` — lowering a parsed module into an island store.
- `src/jit.rs`, `src/lang.rs`, `src/payload.rs`, `src/fnv.rs` — compile units,
  the source stub, payload records and the FNV-1a fold used for evidence tags.
- `tests/` — scenario tests.
- `app/` — the command-line smoke binary: parsing with `oak-metis`, the
  `athena-gc` heap binding, and serializable copies of the handle types.
