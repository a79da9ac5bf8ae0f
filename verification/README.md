# ut3_oxide

Ultimate tic-tac-toe (UT3) with a bit-packed board and an alpha-beta AI,
written as a Verus library whose behaviour is stated in contracts and proved.

- `src/board/` — the board: packed rows and their model (`BoardState`),
  cell and metadata access, moves, the rules (`rules.rs`), the valid-move
  and status iterators, what the text drawing reads (`display.rs`), the
  move history and the undoable board, and the consistency of boards that
  play produces (`wellformed.rs`).
- `src/ai.rs` — the static evaluation and the minimax search with
  alpha-beta pruning; moves are scored in parallel with `rayon`.
- `src/command.rs` — what a line typed at the prompt asks for.
- `src/game.rs` — the turns of a game: a typed command against a player or
  the AI, the AI's reply and hint, and a match between two AIs with its
  tally.
- `app/` — the terminal program: arguments, prompts, drawing, timing and
  the loops that read input and print around the library's turns.
- `tests/` — scenarios and concrete instances of the proved laws.
