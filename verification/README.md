# GoatDB

The storage layer of an LSM-style key-value database, in Rust verified with Verus: what
the functions of `src/` do is stated in contracts and proved. Taken on trust are the calls
into other crates and into parts of std, each behind a small function that says what is
claimed of it; the time of day is left open.

## Layout

- `src/format`: varints, fixed-width numbers, versioned keys, the order of keys.
- `src/storage/sstable`: blocks, tables, filters, compression, readers, scans and the caches
  in front of them.
- `src/storage/sstable_builder.rs`, `sstable_reader.rs`: tables of the first layout.
- `src/storage/wal`: records, logs, replay after a crash, writers in the caller's thread and
  in the background.
- `src/storage/compaction`: splitting a compaction into ranges.
- `src/utils`: options, paths, the file that describes a database, a sharded LRU cache.
- `src/commands.rs`: the commands of the client.
- `tests`: tests of the library.
- `app`: the client, and what touches files, threads, channels and the environment.

## What is proved

Contracts are stated over plain mathematical models: byte sequences, lists of entries, the
books of a log writer. Modules whose names end in `laws` relate several functions: a table
gives back what was written into it, a log that is written in the background holds what was
accepted, in order and once, a log is replayed up to the last complete write, a cache holds what
was put in last.

Hashes and checksums (`twox-hash`, `crc32fast`) and shared buffers (`bytes`) are called, not
rebuilt; what is taken for granted of them is written above the few functions that call them.
