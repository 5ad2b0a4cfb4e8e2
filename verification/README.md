# daft_flotilla

The decisions of a distributed query engine, verified: which bytes of a Parquet file are fetched,
where tasks are placed and when they are repeated, how nodes drain and retire, how shuffle output
is written, addressed, checked, lost and reconstructed, and how a worker runs its pipelines.

- `src/` is the library. Every function states in its contract what it returns or changes, and
  Verus proves it. What the library takes from other crates (checksums, byte buffers, the scan of
  a row selection, random numbers) stands behind small functions whose doc comments say what is
  taken on trust.
- `app/` is the engine around it: files, streams, tasks, the cluster and the settings. It reads,
  waits and sends, and leaves the decisions to the library.
- `tests/` runs the library, with the other crates.

Times are milliseconds since some start, amounts of CPUs and GPUs are thousandths, and workers go
by numbers.
