# rinha

A k-NN fraud-scoring service (14-dimension transaction vectors, the 5 nearest
labelled references vote) split into a verified library and a thin program.

- `src/` — the library, verified with Verus: the timestamp parser and calendar
  arithmetic, the reference-dataset file format (reading and writing), the
  "k smallest" accumulator and the nearest-neighbour vote, the HTTP request
  parser and the pre-built answers, the per-connection decisions, the MCC risk
  table and the load balancer's round robin. Calls into `memchr` and `bytes`
  go through a few trusted wrappers (`memscan.rs`, `wire.rs`).
- `app/` — one binary with three commands (`api`, `lb`, `preprocess`): sockets
  and the monoio runtime, file mapping, JSON payloads (serde) and the
  floating-point normalization and quantization.
- `tests/` — tests of the library.
