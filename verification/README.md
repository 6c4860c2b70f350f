# mini_rust_radix_tree

A prefix cache over token sequences, written and proved in Verus. It keeps, for
each cached run of tokens, the indices of their entries in a KV cache, in a
radix tree whose edges are compressed and cut at page boundaries.

- `match_prefix` finds the longest cached run of whole pages at the start of an
  input, marks it as used, and divides a node where the run ends inside one.
- `lookup_prefix`, `lookup_indices` and `lookup_indices_into` find the same and
  change nothing.
- `insert_prefix` caches the whole pages of an input. What is cached already
  keeps the indices it has.
- `lock_handle` and `unlock_handle` protect a run, with all that is above it,
  against eviction.
- `evict` takes unlocked leaves, the least recently used first.

`RadixPrefixCache` is for one thread, `ConcurrentRadixPrefixCache` puts a
`std::sync::RwLock` around it. Methods whose names begin with `try_`, and the
methods of the concurrent cache, refuse what is not possible; the others require
that it is. The concurrent cache also refuses everything once a thread has
panicked while it was changing the cache.

## Layout

- `src/model.rs`: what a cache is, mathematically, and what each operation does
  to it. All contracts speak of this model.
- `src/cache.rs`, `src/concurrent.rs`: the two caches.
- `src/tree.rs`, `walk.rs`, `locks.rs`, `evict.rs`, `integrity.rs`, `dump.rs`:
  the tree and its algorithms, over `node.rs`, `children.rs`, `span.rs`,
  `queue.rs`, `lex.rs` and `text.rs`.
- `src/trie.rs`, `lookup.rs`, `matching.rs`, `changes.rs`, `draining.rs`,
  `sums.rs`, `align.rs`: what the proofs need to know of the model.
- `src/laws/`: what holds of the cache as a whole. What was inserted is found,
  with its indices; nothing cached is lost but by eviction or reset; a lock given
  back leaves no trace; locked runs survive eviction; as long as only locks that
  were taken are given back, all that is counted as evictable can be evicted.
  `laws/turns.rs` says what that means for several callers who take turns, in
  whatever order they get them.
- `app/`: a program that times the operations.

## What is taken on trust

Verus does not see inside `std`. `span.rs` trusts that `Arc::clone` points to the
same tokens. `concurrent.rs` trusts that a guard is one of the lock that it was
taken from, that it gives access to one cache for as long as it is held, that it
is given up as it is when it is dropped, and that a lock is made with the cache
that it is given. So the contracts of the concurrent cache say what each turn
does with the cache that it finds, and what it leaves. They do not say what it
finds: other threads may have changed the cache since.
