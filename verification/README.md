# fst set operations and node registries, verified

A Verus library with two parts:

* Set operations over streams of `(key, value)` pairs whose byte-string keys
  strictly increase: union, intersection, difference and symmetric
  difference, each itself a stream that emits a key with the list of its
  occurrences (`IndexedValue`: stream index and value).
* Node registries that deduplicate nodes while an automaton is built: a
  bounded hash table of most-recently-used buckets kept in a `bumpalo`
  arena, and an unbounded one that never forgets a node.

Layout of `src/`:

* `keys.rs`: lexicographic order on byte strings, its laws, and a verified
  three-way comparison.
* `merge.rs`: the mathematical model of what each set operation emits.
* `ops.rs`: the builder and the four operation streams, verified against
  that model.
* `laws.rs`: the key-by-key statement of each operation (order of keys,
  which keys appear, occurrences listed), proved from the model.
* `node.rs`: uncompiled nodes and their transitions.
* `bump.rs`: the arena and arena-backed vector, with the contracts the
  registry relies on.
* `registry.rs`, `registry_minimal.rs`: the two registries, with the laws
  that hold over any sequence of lookups: a hit names the address last
  recorded for its node, each bucket keeps its most recently used distinct
  nodes, and the unbounded registry never forgets a node.

`tests/` runs the library on concrete inputs.
