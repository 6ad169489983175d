# ThrushDB

A memory-mapped vector database. Vectors are quantized to 1024 bits. Three
routing tables lead a vector to chunks, eight inner hashes to places in a chunk,
and a search ranks by Hamming distance what lies there. A chunk whose places are
taken gets overflow files. A write-ahead log and an append-only metadata log
carry the database over a crash.

* `src/` is the library. Verus verifies all of it.
  * `u1024`, `lsh`: vectors, their distance and their hashes.
  * `record`, `segment`, `db`: records in a mapped file, a file of slots, a chunk
    with its overflow files. `db_laws`: what holds across operations on a chunk.
  * `ranking`, `cluster`: the order of results, and the cluster of chunks.
    `cluster_laws`: what holds across operations on a cluster.
  * `wal`, `recovery`: the write-ahead log and its replay.
  * `metadata`: the metadata log and its index.
  * `names`, `le`, `api`: file names, little-endian integers, what the server
    answers.
* `app/` is the server: it opens and maps files, writes the logs and speaks HTTP.
* `tests/` runs the library on anonymous mappings.

A cluster opens again over the files that were flushed, overflow files included,
and does again what the write-ahead log holds. A record that a crash cut short at
the end of either log is left out.

The library never touches a disk. Where an operation needs a file in the middle,
as an insertion into a full chunk does, it says which one, and goes on when it is
handed the mapping.
