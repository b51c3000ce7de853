# openlake

Owned-buffer byte streams for a storage data plane, and the layout report of a
cluster, as a library verified with Verus.

- `src/buffer.rs`: chunks (`bytes::Bytes`) and what the `bytes` crate does to
  them. The contracts in this file are believed, not proved.
- `src/error.rs`: errors of the data plane.
- `src/stream.rs`: the reader and writer traits and their in-memory
  implementations.
- `src/events.rs`: what a stream hands out, whatever its chunk boundaries.
- `src/window.rs`: a contiguous byte window of a stream.
- `src/pump.rs`: moving an exact number of bytes from a source to a sink.
- `src/raw.rs`: the same from a source that fills the buffer that it is handed.
- `src/fill.rs`: filling a buffer from a stream.
- `src/laws.rs`: what holds of streams and transfers taken together.
- `src/nodes.rs`, `src/liveness.rs`, `src/topology.rs`: the declared nodes, what
  the probes found, and the report.
- `src/text.rs`: decimal numbers and padded columns.

`app/` waits for sockets and files; what to do with what comes, and whether to
read on, it asks the library.
