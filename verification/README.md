# tar

Reading, writing, streaming and unpacking of tar archives, with contracts that Verus proves.

- `src/` is the library. Headers, paths, pax records, the walk over an archive, the builder, the
  streamer and the rules of unpacking are functions on bytes and plain values. What holds of
  several of them together stands in the functions whose names start with `law_`.
- `src/parser.rs`, `src/number.rs` and `src/tempdir.rs` hold the few functions whose contracts
  are not proved: calls of `tar-core`, of `rand` and of the standard library.
- `tests/` runs the library, together with the crates that it calls.
- `app/` is the ordinary Rust around the library: files, directories, links, attributes,
  asynchronous writing and the command line.
