# moka

An in-memory cache for a single thread, written in Rust and verified with Verus.

The cache holds values by key, up to a number of entries or a total weight. When it is full, a
new entry is let in only if its key has been asked for more often lately than the keys of the
least recently used entries that would have to leave for it, taken together. Entries may expire
some time after they were inserted, or some time after they were last used.

## Layout

- `src/unsync/cache.rs`: the cache. `get`, `insert`, `invalidate` and the others say in their
  contracts what becomes of what the cache holds.
- `src/unsync/builder.rs`: the builder, by which the settings of a cache are made.
- `src/unsync/model.rs`: what a cache holds, as a mathematical value, and what each operation
  makes of it.
- `src/unsync/laws.rs`, `history.rs`, `expiry.rs`, `weights.rs`: laws that follow, of single
  operations, of any course of operations, of expiry and of the accounted weight.
- `src/unsync/order.rs`, `links.rs`, `deques.rs`, `entry.rs`: the lists in which the entries are
  kept in order, and how the hash table and the lists belong together.
- `src/unsync/store.rs`, `victims.rs`: what is taken on trust of `HashMap` and `SmallVec`.
- `src/common/`: the linked list, the frequency estimator with its table, and clocks.

## What is trusted

Keys must hash and compare as the key model of vstd demands (`obeys_key_model`), and the
`BuildHasher` must build valid hashers. What is taken on trust of the standard library and of
`smallvec` stands in `store.rs`, `victims.rs` and `time.rs`, and for `RandomState::new` in
`cache.rs`, with a comment on each item. The contracts say where the hash of a key and the
time come from, but not what they are; `get_hashed`, `insert_hashed` and `evict` take them as arguments and have
exact contracts.
