# s3stream

A stream storage engine on object storage, verified with Verus. Records are appended to
write-ahead logs, kept readable in a log cache, uploaded as objects, compacted, and read
back through a block cache.

- `src/` is the library: wire formats, caches, the append and upload pipeline, recovery,
  compaction planning, throttling, metadata, the range index, and stream state. Every
  function states what it returns; what holds across functions is stated by the public
  `law_*` proofs.
- `tests/` runs the library on concrete values.
- `app/` is the asynchronous shell: tasks, timers, locks, and the traits of the services
  that the engine talks to (object storage, the format of data objects, the log).

Time, randomness, the environment and every reply of a service are arguments of the
library's functions. What it believes without proof of `bytes`, `crc32fast`, `lru` and the
standard library is stated in `src/buffer.rs`, `src/codec/crc.rs`,
`src/cache/blockcache/recency.rs` and `src/throttle.rs`.
