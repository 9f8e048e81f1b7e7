# mancala

A Kalah engine and position solver whose library is verified with Verus.

Given a position, the solver tells for the side to move the exact result under
perfect play, an evaluation of every legal move and the principal variation. Where a
position is too large for the node budget it falls back to a depth-limited search and
says so.

## Layout

- `src/` is the library. Every function in it is verified.
  - `model.rs` and `value.rs` state the game: the rules over sequences of seed counts,
    and what a position is worth.
  - `board.rs`, `notation.rs`: positions.
  - `solver.rs`, with `searcher.rs`, `search.rs`, `root.rs` and `analysis.rs`: the
    alpha-beta search and what it reports; `run.rs` says how a search goes, `effort.rs`
    and `standard.rs` what it cannot do without. `tt.rs`, `hash.rs` and `keys.rs` are its
    tables.
  - `endgame.rs`, `tablebase.rs`, `counting.rs`: endgame tables.
  - `book.rs`: the proven opening book.
  - `playtest.rs`: matches between engines.
  - `report.rs`, `options.rs`, `cli.rs`, `web.rs`: what the front ends say, read and
    decide.
  - `text.rs`, `bytes.rs`, `clock.rs`: texts, byte strings and the clock. The clock is
    the only thing that is trusted rather than verified.
- `tests/` runs the library on concrete positions.
- `app/` is the `mancala-solver` program and the browser entry points: arguments, files,
  threads and floating-point statistics.

## What is proved

- A move conserves seeds and brings the game closer to its end.
- An exact analysis gives the value of perfect play, and the move and the line it
  reports are best ones; an analysis that is not exact gives the value of the search to
  its depth.
- The future of a position does not depend on the stores, so one table entry serves
  every store filling and both mirrors.
- The tablebase numbers its layouts without gaps, holds the true future of each, and is
  read back from a file as it was written. The same holds of the opening book.
- The variation of a search to a depth is no longer than the depth, and a search within
  a node budget goes at least as deep as the budget is sure to allow.
- The nodes of an analysis are bounded from above and from below, so that some budgets
  are sure to solve a position and some are sure not to: a hundred nodes do not solve
  the standard game.
- The transposition table stays within its size, and storing an entry takes none away
  but from a crowded place.
- Notation that is formatted parses back to the same board.
- A search that does not watch the clock is a function of what it starts from: which
  nodes it visits, whether its budget lasts, the move it finds and where its line ends.
  What one exact analysis took is enough for the next.
- Matches of engines that do not watch the clock are reproducible and unbiased, and may
  be played in parts.
