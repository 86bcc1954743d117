# astra

A verified library for lossless market-data capture: fixed-point decimals,
instrument identifiers, capture records and their chunked store, order-book
state and its reconstruction from captured venue frames, offline audits of a
capture and comparisons against venue reference snapshots.

- `src/` is the library, written and proved with Verus. Each module states
  its behaviour over mathematical models (`Seq`, `Map`, `int`) and proves
  its laws as public proof functions (`lemma_*`).
- `app/` is the `astra-record` command line: argument handling, files,
  the websocket loop and serialisation, around the library.
- `tests/` runs the library on concrete values.

Outside crates are reached through a few trusted items, each documented at
its declaration: `serde_json` (JSON documents), `sha2` (digests), `zstd`
(chunk compression) and `uuid` (capture identifiers).
