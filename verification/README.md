# usagedb

An embedded, append-only usage database for billing workloads.

- Every event has a stable id: an event that is sent again is taken in once, and one
  with the same id and another payload is a conflict.
- Events reach the log before they are acknowledged, and immutable columnar segments
  after that.
- Hours that are over are rolled up; a query reads rollups where they are complete
  and the events elsewhere.
- A closed month keeps its total; later corrections are reported beside it.

`src/` is the library: what is accepted, how it is laid out, rolled up, merged,
pruned and queried. Every function there is verified with
[Verus](https://github.com/verus-lang/verus) against the contract it carries. What
the database promises as a whole stands in proof functions whose names begin with
`law_`.

`app/` is the program around it: files, the HTTP server and the command line.

`tests/` runs the library on concrete values.

## What is trusted

Calls into other crates stand in small functions marked
`#[verifier::external_body]`, each with a comment that says what is claimed of the
call: `bincode` (`storage/wire.rs`), `zstd` and `lz4_flex` (`storage/compression.rs`),
`blake3` (`bytes.rs`), `serde_json` (`model/dimensions.rs`), `chrono` (`calendar.rs`),
`sqlparser` (`query/syntax.rs`), `arrow` and `parquet` (`export/file.rs`), and a few
functions of the standard library (`text.rs`, `clock.rs`, `admin.rs`).
