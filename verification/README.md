# cat198x

A manager for retro gaming ROM collections, with a verified core.

- `src/` is the library. It parses release names and selects one release per game,
  works out what a collection lacks, plans how files get to where they belong, and
  decides every step of carrying a plan out. Each function states what it returns;
  Verus proves it.
- `app/` is the program round the library: the command line, the SQLite catalogue,
  the file operations and the threads that run them.
- `tests/` runs the library, with the archive and digest crates that it calls.

What the library believes without proof is marked `external_body` or
`assume_specification`: the calls into `zip`, `sevenz_rust2`, `sha1` and `chrono`
(`archive.rs`, `digest.rs`, `clock.rs`), and `String::push` (`text.rs`).
