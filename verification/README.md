# qshr

Helpers for shell-style scripting in Rust — listing and walking directories,
reading and writing files line by line, copying and moving trees, globbing,
temporary files and watching a directory for changes — whose decision logic
is verified with Verus.

- `src/` is the verified library: line splitting and joining (`lines`),
  entries and their filters (`entry`), glob patterns and expansion
  (`globbing`, on the `glob` crate), watch events, their queueing and glob
  filtering (`watch`), debouncing (`debounce`), the plans behind removing,
  copying and moving files and walking trees (`ops`), temporary file names
  (`temp`), and the `std::path` operations the rest relies on (`paths`).
- `app/` does the input and output around it with `std::fs`, `notify` and
  `tokio`: every filesystem call, the watcher and its channel, the clock.
- `tests/` runs the library on concrete values.
