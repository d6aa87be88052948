# flatcontainer

Flat containers for Rust, verified with Verus: regions absorb nested data into dense
allocations and hand back opaque indices; a `FlatStack` keeps indices into a region.

Every region is described by a mathematical model: `Region::valid` says which indices
designate items, `Region::value_at` what they hold. The `Push` contract states that a push
returns an index that reads back the pushed value and keeps every earlier index and value,
so regions are append-only by proof rather than by convention.

Layout:

- `src/lib.rs`: the `Region`, `Push`, `ReserveItems` traits and `FlatStack`.
- `src/bitmap.rs`, `src/rank_select.rs`: bit vectors with rank and select.
- `src/order.rs`: keys that order and identify values.
- `src/impls/`: regions (mirror, option, result, tuples, slices, strings, columns,
  fixed columns, negation, deduplication, compression codecs, Huffman-coded containers)
  and index containers.
- `tests/`: tests run against the compiled library.
- `app/`: printing of diagnostics.
