# Cube sticker editor core

A verified library for entering a 3x3x3 cube sticker by sticker and keeping the
board honest while doing so.

- `model`, `pieces`: colours, the 54-sticker board, corner and edge pieces.
- `fit`, `legal`, `validate`: which pieces a board shows, when a full board is a
  reachable cube (colour counts, permutation, twist, flip, parity), and the
  messages that say why not.
- `matching`, `feasible`: necessary conditions for a partial board to be completable
  (colour quotas, real pieces, a matching of positions to fitting pieces).
- `propagate`: the stickers that the known ones force; the result is proved sound
  (every legal cube agreeing with the input agrees with it), closed (no rule still
  applies) and least (every closed board above the input that agrees with some
  legal cube holds it).
- `completion`: the completions of a board with at most four gaps.
- `moves`, `repair`: single corrections (twist, flip, swaps) and the targeted fix
  of a board that cannot be completed.
- `editor`: the editing session (paint, erase, clear, reset, repair). After each
  deduction a stuck board is mended (one change, else the targeted fix) and a board
  with a unique legal completion is completed; `solve_gate` says when the board may
  go to the solver.
- `facelets`: the 54-letter text form.
- `cube_core`: the eighteen face turns as integer rotations of piece positions,
  with each move undone by its inverse and the move orders proved.
- `turn_legal`: every face turn keeps a cube legal, so every scramble is legal.
- `playback`: pause, single steps and undo while a solution is played; undo then
  play (or step) makes the same turn again.
- `fuzz`: scrambles, and input sessions that enter a real cube through the editor;
  a legal cube entered in any order that visits every sticker ends as itself.

`app/main.rs` is a small command-line front end: `--state` / `RUBIK_STATE` load and
check a state, `RUBIK_INPUT_FUZZ=<n>` runs input sessions over `n` scrambles,
`RUBIK_VALIDATE_TEST=1` runs the self-test of the checks.
