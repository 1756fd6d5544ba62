# lsm_embedded

A small log-structured merge storage engine for constrained targets, written
in Verus: the executable code carries `requires`/`ensures` contracts and the
proofs that it meets them.

## Layout

- `src/memtable.rs` — the write buffer: fixed-size keys, values in an arena,
  a hash index (`hashbrown`) from key to entry. Contracts over the sequence of
  (key, value) pairs in insertion order.
- `src/packing.rs` — how entries are encoded and packed into blocks, and the
  proof that a table built from a memtable answers lookups as the memtable does.
- `src/sstable.rs` — checksummed blocks (`crc32fast`), the 64-byte metadata
  record, tables written to and read back from a storage, with the proof that
  a written table reads back unchanged.
- `src/storage.rs`, `src/wasm.rs` — the byte-addressed storage interface,
  modelled as a byte per address, and its in-memory and vector-backed
  implementations.
- `src/cache.rs` — block cache with least-recently-used replacement.
- `src/bloom.rs` — 64-bit bloom filters, with the proof that they have no
  false negatives.
- `src/compaction.rs` — levels of tables, flushing and compaction: a level is
  merged into one table that keeps every key of every table, and each step
  states the storage writes it makes and when they are owed to succeed.
- `src/encoding.rs` — little-endian integer encoding.
- `app/` — what stays outside the verified library: error display, the
  floating-point cache hit rate, and the WebAssembly binding.
- `tests/` — the test suite.
