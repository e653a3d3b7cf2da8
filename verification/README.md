# oxideav-source

Byte sources addressed by URIs: `file:` and bare paths, `mem:`, `data:`,
`slice:` and `concat:`, a policy for which files may be opened, and the state
of a prefetching stream.

* `src/` is the library. Every function in it has a contract, and Verus proves
  it, but for a handful of calls into std whose contracts are believed: the
  texts that `{:?}` gives a string and a character, `String::from_utf8` and
  `String::push` in `text`, and the clone of an `Arc` in `mem`.
  `open::stream_of` says what a URI opens; `lockstep` says what holds between
  the reader and the worker of a prefetching stream, however their steps
  interleave.
* `app/` puts the library on files, threads, process-wide tables and the
  framework's registry.
* `tests/` runs the library.
