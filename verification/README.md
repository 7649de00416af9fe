# storage_engine

Building blocks of a small storage engine, verified with Verus.

- `src/btree3.rs`: a page-sized B+ tree from `u32` to `char` whose leaves take
  new pairs unsorted and are sorted when they split or when the tree is fixed.
- `src/storage_engine/btree2.rs`: a generic B+ tree keyed by integers.
- `src/storage_engine/page.rs`: a slotted page of byte records.
- `src/storage_engine/cache.rs`, `cache2.rs`: 2Q caches over `hashlink`'s
  `LinkedHashMap` (`linked_map.rs` holds the trusted contracts of its methods).
- `src/storage_engine/doubly_linked.rs`: a doubly linked list in a slot vector.
- `src/storage_engine/LSM.rs`: the memtable of a log-structured merge tree.
- `src/ordered.rs`, `src/text.rs`: keys, the sorted-pairs model, decimal text.

`app/` holds what touches files, the console or serde: pagers and the file
directory, tables, the engines, and the serialized memtable.
