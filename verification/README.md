# zendb_storage

Storage for keys, values and histories, with its behaviour proved by Verus.

- `engine/`: the stores. `btree` is a B+ tree in pages of 4096 bytes with overflow chains and a list
  of free pages. `keydir` is a log with a hash index, `orderlog` and `order_log` are logs with an
  index in key order. `skiplist` is a bounded or unbounded list in memory, `hashtable` a table of
  bucket chains in pages. `wal` is a write-ahead log, `topic` a log of records in segments.
- `backend/`: what the stores have in common, and `state`, the store that is chosen by its settings.
- `topic/`: a log of records in segments with readers, consumers and their offsets.
- `table/`, `frontend/`: tables of rows with a topic of their changes.
- `sync/`: the messages between replicas.
- `utils/`: byte strings and their order, little-endian numbers, frames, shares.

Every store is a value in memory with an `image`, the bytes that keep it, and an `open` that takes
those bytes. The contracts speak of maps from byte strings to byte strings and of sequences of
records. `app/` keeps the images in files and puts types, threads and floating point around them.

What is believed without proof: `hashbrown`'s map (`engine/index.rs`), four calls of `bincode`
(`utils/serdes.rs`) and `Vec::capacity` (`utils/vecs.rs`).
