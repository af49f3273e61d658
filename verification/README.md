# grid_forge

Procedural generation of two-dimensional tile grids, verified with Verus.

- `src/map`, `src/tile`: grid maps, positions, tiles identified by their type, builders turning identifiers back
  into tiles.
- `src/gen/collapse`: collapsible generation. Analyzers read adjacency rules and frequency hints out of sample
  maps (identity, border and overlapping-pattern analyzers), and the resolvers collapse the tiles at given
  positions in the order of a position queue, propagating the removed options to the neighbours. The singular
  resolver also offers the generation step by step (`start_generation`, then `collapse_at` in an order of the
  caller's choice); the overlapping resolver collapses tiles into patterns of a collection.
- `src/gen/wfc`: wave-function collapse with its own analyzer and resolver; the caller picks each position by
  entropy.
- `src/gen/ms`, `src/gen/walker.rs`: the border-merging analyzer and a random walker drawing maps.
- `app/`: what stays outside verification: the entropy queues and the generations ordered by them (floating
  point), images, debug printing.
- `tests/`: tests of the library, run against the compiled crate.

All of `src/` is verified by Verus: the public functions carry contracts stating what they return or change, and
every function but the three trusted wrappers around `rand`, with or without a contract of its own, is proved free
of panics and overflow. The calls into `rand` are the crate's only trusted
items, each stated beside its wrapper; `std`'s hasher is used through the specifications that vstd gives it.

## Storage

The grid map keeps its cells in a `Vec<Option<Data>>` indexed row by row, and identifiers are mapped through
`IdMap`, a vector of pairs kept in increasing order of identifier. A map's cells, a `HashMap`'s entries and a
`HashSet`'s members would otherwise live in outside or std collections whose contents the contracts could only
name generically (the cells hold any tile data), or whose iteration order is left open; the contracts here rely on
both the contents and the order (the order of options in a weighted choice, of identifiers in an error, of
positions in a listing), so the library holds them in plain vectors with their invariants proved.
