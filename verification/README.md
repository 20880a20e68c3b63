# gomoku

Freestyle Gomoku on a 15x15 board — five or more in a row wins — with a
verified rules engine and the logic of a terminal front end.

## Layout

- `src/` — the library, checked by Verus.
  - `rules`, `bitboard`, `win`: the rules as sets of cells, the stride-16
    bitboard and the shift-and-mask five detector.
  - `moveset`, `board`, `zobrist`: moves, move sets, the bitboard `Board`
    with play/undo and its incrementally kept key.
  - `reference`: a naive one-cell-per-square board that walks lines, its
    line-walking tactics and a depth-bounded adjudicator, all tied to the
    same model as the bitboard engine.
  - `tactics`, `tss`: immediate wins, forced blocks, double threats, and a
    bounded threat-space prover with a line verifier.
  - `symmetry`, `encode`, `swap2`: the eight board symmetries, the network
    input planes, and the typestate Swap2 opening.
  - `game_board`, `opening`, `input`, `config`, `puzzle`, `render`,
    `session`, `text`: the front end's boards, Swap2 state machine, command
    and argument parsing, puzzle-file rules, frame rendering and the
    command dispatcher.
  - `mcts`: the integer-only types of the search tree's interface and the
    decision of what expanding a leaf must do.
- `tests/` — integration tests against the compiled library.
- `app/` — the terminal program: argument handling, file and terminal I/O,
  JSON decoding of puzzle files, and the floating-point MCTS pieces.
