# gambit

A chess engine library: bitboard positions with Zobrist hashing, legal move
generation, a hand-tuned static evaluation, an alpha-beta search with
iterative deepening, quiescence and a transposition table, a small opening
book, and the computing half of the UCI protocol.

The library under `src/` is written in Verus and proved against its
contracts:

- `bits`, `attacks` — bitboards as square sets; knight, king, pawn and
  sliding attacks.
- `types`, `board`, `fen` — moves, positions, FEN reading, making a move with
  an incrementally updated hash. The update is proved to give the hash
  computed from scratch when the position's hash was right and the move
  fits the position (its piece stands on the from square, and a captured
  en-passant pawn or a castling rook is where the move expects it).
- `movegen` — pseudo-legal and legal moves, check detection, UCI move text.
- `fit` — in a sound position (occupancy agrees with the pieces, no square
  holds two pieces, an en-passant square is empty with the passing pawn
  behind it, castling rights have their king and rook at home) every legal
  move fits the position, so its incremental hash update is exact; the
  position it makes is sound again; and its UCI text reads back as the same
  move.
- `eval` — material and piece-square tables tapered by game phase, pawn
  structure, mobility, king safety, MVV-LVA and static exchange evaluation.
- `tt`, `search` — the transposition table and the search. The search runs
  in a `SearchEnv`, which supplies the clock, the floating-point
  late-move-reduction formula and a sink for progress reports.
- `book`, `engine`, `uci` — the opening book, the engine the browser front
  end drives, and the `position`/`go` commands.

`app/` holds what stays outside the proofs: the UCI command loop on standard
input and output, the browser bindings, and the environments that read the
clock and compute the reduction formula with floating point.
