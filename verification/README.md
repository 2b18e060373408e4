# mini-lsm-starter

The storage layer of a small LSM-tree key-value engine, written in Verus. The
functions under `src/` carry `requires`/`ensures` contracts that Verus proves;
the calls into the `bytes` and `farmhash` crates go through a few small
`external_body` wrappers in `src/codec.rs` and `src/table/builder.rs`, whose
contracts are trusted.

## Layout

- `src/key.rs` — keys as byte strings in lexicographic order; three-way comparison.
- `src/codec.rs` — little-endian integers through the `bytes` crate, and `Bytes` buffers.
- `src/block.rs`, `src/block/` — blocks: the `key_len | key | value_len | value` record format, the
  builder, encoding and decoding, and a seeking iterator.
- `src/iterators.rs`, `src/iterators/` — the storage iterator interface, the
  n-way merge (smallest key first, ties to the lowest index) and the two-way merge.
- `src/table.rs`, `src/table/` — sorted tables: block metadata, the footer, the
  table builder and the layout a table file is read back with.
- `src/lsm_iterator.rs` — the scan's iterators: tombstones hidden, the upper
  bound enforced, and an error ending the iteration for good.
- `src/lsm_storage.rs` — engine options, the layered engine state, and the read
  path: range overlap, point lookups, and the scan built from memtable and table
  iterators.
- `app/` — file I/O and the block cache around the library.
- `tests/` — tests on concrete values.

## Main properties proved

- Decoding an encoded block gives back its entries, for every block whose
  records all start within `u16` offset range (always so for a target block size
  of at most 64 KiB); a block never outgrows its target size once it holds two
  entries.
- Block metadata and the table footer read back what was written; each block
  range of a built table decodes to the entries added, in order.
- The merge iterators yield keys in strictly increasing order, each key once,
  with the value of the newest source, and every key of every source.
- A scan yields, in key order, exactly the newest live entry of every key up to
  its upper bound (memtables shadow tables, newer sources shadow older ones); a
  point lookup's first merged entry is the newest entry for the key.
- The range-overlap test never skips a table that holds a key of the range, and
  the block that `find_block_idx` picks covers the key whenever some block does.
