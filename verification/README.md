# kv

The verified core of a small key-value server.

- `src/storage/memory.rs`: `MemTable`, named tables of keys and values held
  in `dashmap` maps, with contracts over a map of maps and laws on what reads
  give back after writes and removals.
- `src/network/frame.rs`: the frame format (a big-endian header whose top
  bit marks a gzip-compressed body), with an encoder and a decoder proved to
  give a payload back.
- `src/network/stream.rs`: the write and read buffers of a framed stream.
- `src/network/buffer.rs`: the `bytes::BytesMut` operations the codec uses.
- `app/lib.rs`: the async adaptors (futures `Stream`/`Sink` over tokio
  streams, prost messages) that drive the library.
