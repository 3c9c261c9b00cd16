# media_probe

The rules by which media files are probed with ffprobe, verified with Verus.

A probe has ffprobe tell what a file holds, reads the JSON that it writes into metadata, checks the
metadata, finds the keyframes, and keeps the result in a cache until the file changes.

- `src/` decides all of that, and every function in it is verified against its contract. It spawns
  no process and reads no file: what those give is handed to it. Durations and timestamps are
  IEEE 754 binary64 numbers, held by their bits and handled with integer arithmetic. Which number a
  text stands for is asked of a function that the caller passes in.
- `app/` is the asynchronous crate around it: it runs the processes, reads modification times,
  shares the cache between tasks, and carries the types that can be serialised.
- `tests/` runs the library on concrete files, documents and numbers.

What is taken on trust is the behaviour of a few functions of `serde_json` (parsing a document and
reading a value) and of the standard library (paths, lower case, lossy UTF-8). Each is declared in
`src/json.rs`, `src/paths.rs` or `src/text.rs`, with what is claimed of it.
