# mt-engine-core

A deterministic, single-threaded order matching engine whose logic is
verified with Verus.

- `src/sbe/`: the wire schema (enumerations, the flag set, the byte layout of
  every message) with encode/decode read-back lemmas.
- `src/codec.rs`, `src/command.rs`: building command messages and reading
  them as commands.
- `src/book/`: the abstract order book (`LevelModel`, `book_wf`), the backend
  interface every storage implements against it, a three-level bitset, a
  dense backend over a fixed price range and a sparse backend over ordered
  maps.
- `src/engine/`: the engine (matching, amendments, cancellations, expiry,
  stop and take-profit orders), its event listener interface and an SBE
  listener, and the facts about the book that matching relies on.
- `src/outcome.rs`: what a command produces, and typed reads of the
  messages in a report.
- `src/snapshot.rs`: the engine state as plain values, and when a snapshot
  is due.
- `app/`: snapshot files (rkyv archives, a forked writer, memory-mapped
  loading) and diagnostics.
- `tests/`: scenario tests of the library.
