# NebChess

A UCI chess engine whose rules, search and evaluation are a library
verified with Verus.

## Layout

- `src/` — the verified library:
  - `board/` — squares, bitboards, attack sets, moves, Zobrist keys, the
    position with `make`/`unmake`, FEN, move generation, SAN, perft.
  - `eval/` — the hand-crafted evaluation (parameters, trace, pawn hash),
    the term manifest, and the NNUE network and accumulators.
  - `search/` — iterative deepening, alpha-beta with pruning and
    reductions, quiescence, move ordering, SEE, the transposition table and
    time allocation.
  - `book.rs` — PolyGlot keys, entries and the weighted book pick.
  - `pgn.rs` — PGN games, movetext tokens, header filters, the replay of
    openings into book statistics, and the sorted entries of a new book.
  - `epd.rs` — EPD test-suite lines: position, best moves and name.
  - `uci.rs` — the UCI commands as values (`go`, `setoption`, `position`).
  - `tb.rs` — which positions the Syzygy tables may be asked about, and how
    their answers are read.
  - `datagen.rs`, `tune.rs`, `text.rs` — self-play openings, the tuner's
    work partition, text helpers.
- `app/` — the program: the UCI loop and the tools (`perft`, `bookgen`,
  `solve`, `datagen`, `tune`, `bench`), the Syzygy adapter for `pyrrhic-rs`,
  and the tuner's floating-point arithmetic.
- `tests/` — the test suites.

## Data files

The program reads, when set:

- `NEBCHESS_PARAMS` — the evaluation table, one `mg eg` pair per line in
  manifest order (the `tune` tool prints this format);
- `NEBCHESS_POLYGLOT_RANDOM` — the 781 PolyGlot random numbers (hexadecimal),
  needed for opening books;
- `NEBCHESS_NET` — a network file for `bench`.
