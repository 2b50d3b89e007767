# omnigraph

A typed property-graph substrate for agent knowledge representation, written
in Verus: an `Ontology` declares node types and edge types (each with a
single-inheritance hierarchy, edge types with domain and range constraints),
and a `Graph` stores nodes and edges checked against it.

## Layout

- `src/` — the verified library.
  - `names.rs`: the order of names (UTF-8 bytes, as `String`'s `Ord`) and
    the comparison that decides it.
  - `table.rs`: `NameTable`, a map from names to values kept in name order.
  - `ontology.rs`: type definitions, subtype queries and validation, with
    their specifications (parent chains, cycles, dangling references).
  - `graph.rs`: nodes, edges and provenance; the confidence range check.
  - `store.rs`: the graph, its abstract state `GraphView`, its invariant and
    its operations.
  - `error.rs`: the errors and their abstract counterparts.
  - `json.rs`: JSON values carried by nodes, edges and property definitions.
  - `laws.rs`: properties relating the operations.
- `tests/` — tests of the library.
- `app/` — serde and `Display` copies of the library's types, and a small
  demonstration.

An edge's confidence is held by its IEEE-754 binary64 encoding
(`f64::to_bits`); `app/` converts to and from `f64`.
