# puffin

An instrumentation profiler for Rust: each thread records its profile scopes into
a byte stream, a global profiler gathers the streams of all threads into frames,
and views keep the recent and the slowest frames, merge scopes across frames and
count statistics per scope.

The logic is a Verus library whose functions are proved against their contracts:

- `src/data.rs`: the stream format of nested scopes, its writer and its reader,
  with laws that a written scope reads back.
- `src/thread_profiler.rs`, `src/global_profiler.rs`: collecting the streams of a
  thread, and of all threads into frames, with the scope details they announce.
- `src/scope_details.rs`, `src/utils.rs`, `src/text.rs`, `src/assoc.rs`: scope
  details, their collection, and the shortening of function names and file paths.
- `src/frame_data.rs`, `src/frame_format.rs`, `src/data_header.rs`: frames, their
  packed (lz4 or zstd) and unpacked storage, and the framing of `.puffin` streams.
- `src/merge.rs`: merging the scopes of one thread over many frames.
- `src/frame_view.rs`, `src/profile_view.rs`: the recent and slowest frames, and
  statistics of frames.
- `src/stats.rs`, `src/grid_spacing.rs`, `src/filter.rs`, `src/thread_order.rs`:
  statistics per scope and their sorting, and the viewer's grid spacing setting,
  scope filter and order of threads.
- `src/protocol.rs`, `src/clients.rs`: the framing of messages streamed to a viewer
  over TCP, and when a server tells that clients came or went.
- `src/le.rs`: little-endian encoding of integers.

`app/` holds what is not verified: the global and thread-local singletons, the
profiling macros, the clock, frames behind locks with their serialization, the
file writer, and the TCP client. `tests/` holds the tests.
