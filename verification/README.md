# concurrent_hash_map

A hash map for one writer and many readers, written in Verus. A power of two of
buckets holds sentinel-headed lists in split order (ordered by the reversed bits
of the hash codes); nodes that leave a list go to a hazard pointer manager.

- `src/map.rs`: `ConcurrentHashMap` and the contracts of its operations.
- `src/layout.rs`: how the buckets lie in node memory, and what each change keeps.
- `src/bits.rs`: bit reversal, split order keys, table sizes.
- `src/reader.rs`, `src/protocol.rs`: a reader step by step, and the proof that no
  interleaving with the writer lets it touch a freed node.
- `src/trail.rs`: what a search of the map does, turn by turn. It is the walk of
  `src/reader.rs`, and for every turn that speaks of a hazard slot the manager is called.
- `src/shared.rs`: the same with keys and values. What a reader finds is what its key
  had at some moment of its search, and the writer works among readers as if alone.
- `src/listing.rs`, `src/pursuit.rs`: the lists stay in split order and within reach.
  A reader misses a key that is stored all the while only if the node at which it
  stands is taken out and cut off.
- `src/hash_key.rs`, `src/hazard.rs`: what is asked of keys and of memory managers.
- `src/arena.rs`, `src/node.rs`: nodes and the memory they live in.
- `src/laws.rs`: what holds across calls.
- `tests/`: ordinary Rust tests.
- `app/`: a handle by which threads share a map.

Who holds `&mut` to a map is its writer; who holds `&` is a reader. The table
assumes nothing of the hash codes but that one map always gives a key the same
code.
