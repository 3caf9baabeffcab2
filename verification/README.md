# hangman2

Hangman against a referee who never commits to a word: after each guess the referee
may give any answer that some word of the dictionary still allows, and gives the one
that costs the player most. This library computes the value of such games and serves
them, and is verified with Verus.

- `src/game`: letters, words and the rules of the game. `value` is the number of misses
  that best play leads to.
- `src/solver`: three solvers (naive, memoized, and over a graph of patterns), the
  canonical form of a position, transposition tables, and tables on disk.
- `src/server`: sessions, the referee's answers, hints and the job queue.
- `src/precompute`, `src/merge.rs`: filling tables and bringing them together.
- `src/survey`, `src/probe`, `src/trace.rs`, `src/bench.rs`: measuring the game tree and
  looking into tables.
- `app`: the command line program around the library, with its files, LMDB tables and
  HTTP server.

Tables in memory are keyed by hashes of canonical forms, and the forms are kept beside
the keys and compared, so the solvers are exact. Entries read from a table on disk are
believed; `src/solver/trust.rs` says what is asked of them.
