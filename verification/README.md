# chess

A small UCI chess engine and its self-play trainer, written as a Verus library whose
rules, parsers and search carry machine-checked contracts.

Layout:

- `src/engine/` — the board (`board`), positions and making moves (`game_state`),
  reading FEN (`fen`), pseudo-legal move generation (`movegen`), and attacks, check and
  legal moves (`legal`). The movement rules are spec functions (`pseudo_legal`,
  `legal_move`); the generators are proved to produce exactly the moves they allow.
- `src/search/` — material evaluation (`eval`), move ordering (`move_ordering`),
  Zobrist keys and the transposition table (`tt`), and the alpha-beta searcher
  (`searcher`), whose score and move are those of the full search to the depth it
  reached (all of it without a time limit), with the proof that it finds a move
  (`mate_bound`).
- `src/uci/` — the UCI command handler: one line in, the lines to print out, with the
  proof that a search of the start position names a legal move.
- `src/cli.rs` — the engine's command-line options.
- `src/trainer.rs` and `src/trainer/` — the trainer's logic: its random generator,
  random openings, FEN writing (with the proof that it reads back), reading engine
  replies, the per-ply decision of a game, and the trainer's command line.
- `src/text.rs` — the text helpers the parsers share (white-space splitting, integer
  reading, decimal writing), each specified over `Seq<char>`.
- `app/` — the program around the library: standard input and output, the child
  engine processes of the trainer, and the floating-point score and Elo estimate.
- `tests/` — regression tests (move generation, perft, search) and tests of the
  library's contracts.
