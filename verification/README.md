# rkvs

A key-value store with three operations: get, put and delete. The logic is
written in Verus, and its contracts are proved.

- `src/storage_engine/memtable`: the table of the latest writes, its write-ahead
  log, and recovery from the log.
- `src/storage_engine/sstable`: the sorted string table: segments, levels, merges
  and compaction.
- `src/storage_engine.rs`: the engine, and the laws that hold of it as a whole. A
  read gives back the last write, and flushes, compactions and restarts change no
  value. A restart reads the log from its beginning; it does not open the segments
  again.
- `src/tcp`: the wire protocol, the life of a connection, and the connections that
  are open.
- `app`: sockets, threads and files around the library.

## Trust

What is not proved is the behaviour of a few functions of other crates:
`String::from_utf8`, `Arc::clone` and `Arc::strong_count` of std, the CRC-32 of
`crc`, and two functions of `uuid`. Each stands behind a small function that says
what is taken for granted.
