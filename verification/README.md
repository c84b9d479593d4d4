# karet_seam

A structural index of a source tree, verified with Verus.

Each package is read into a tree of entities — modules, types, contracts,
implementations, members — addressed by a stable path such as
`pkg::model::{impl Widget}::render`, with facets under five lenses (api,
substitution, variation, boundary, hazard) and per-lens counts rolled up the tree.
A small query language selects nodes; a configuration decides which `cfg`-gated
nodes are in.

Layout:

- `src/` — the library, proved against its contracts: paths and their interning,
  the index and its operations (insert, relocate, merge, replay, rollups), the
  language mappings (Rust, Python, Kotlin, Swift, TypeScript/JavaScript), extraction
  over a parsed tree (which entities a tree yields, with their kinds, names and
  nesting, stated as a walk over the tree), module resolution and directory walks over
  listings, package assembly as replay, regrouping and rollups in a fixed replay
  order, re-indexing one edited file, discovery, configuration and queries.
- `tests/` — the tests, run against the compiled library.
- `app/` — the edges: reading files and directories, the thread pool that walks a
  package, and error types for callers.
