# skein

The verified core of a peer-to-peer collaborative video editor.

- `src/` is the library, checked by Verus: the edit log and its replay into a
  timeline (`edl`, laws in `edl_laws`), three-way merge and last-writer-wins
  resolution (`merge`), the diff of chunk listings (`diff`), the versioned
  chunk index (`store`), MP4 header parsing and segmenting (`video`), wire
  framing and message parsing (`wire`), operation bookkeeping for sync
  (`sync`), the decisions behind the command line (`session`), and size
  formatting (`units`).
- `tests/` runs the library on concrete values.
- `app/` is the program around it: the command line, the peer transports,
  the blob stores, the on-disk tree database, and the benchmark.
