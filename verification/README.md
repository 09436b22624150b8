# rust_common_lib

Replicated values (CRDTs), their binary formats, and the caches that an
execution layer keeps over a store, written in Verus: every function carries a
contract and is proved against it.

Layout of `src/`:

- `crdt/types`: the value types (`Bytes`, `I64`, `U64`, `U256`, `U64Set`,
  `PathMeta`) with a committed value and a pending delta; `Word256` is the
  256-bit number they use.
- `crdt/state`: deltas, the `Value` and `Numeric` sums, errors, and
  `TrackedValue`, a value with its access counts.
- `crdt/codecs/internal`: the compact little-endian format of each type and
  of batches of values; `crdt/codecs/rlp`: the RLP storage form.
- `collections`: `DeltaSet` (an indexed key set that remembers its last
  commit) and `ShardMap` (a map split into shards, updated in parallel).
- `store` and `execution`: the store traits, a bounded read cache, the block
  cache and the per-execution cache.

Calls into `im`, `quick_cache`, `rayon`, `alloy-primitives` and `alloy-rlp`
go through small trusted functions whose contracts state what those crates
document; everything around them is verified.
