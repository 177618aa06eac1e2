# pathlab

A pathfinding visualiser for mazes on a 4-connected grid: A*, BFS and DFS
driven step by step, Yen's k-shortest paths in one shot, a wall editor with
undo, and P1 (ASCII) PBM files.

The library in `src/` is verified with Verus; every public function states
its result in its `ensures` clause.

- `mazes/` — cells and grids, the built-in presets, the PBM reader and
  writer (with the round-trip law `lemma_pbm_roundtrip`).
- `solver/` — walks on the grid (`walks`), the heuristics and their laws
  (symmetric, admissible, consistent), breadth-first k-shortest paths
  (`k_paths`), and the step-by-step `Solver` (`search`): each call of
  `step` is specified exactly, and the laws `lemma_found_path_is_walk`,
  `lemma_found_path_is_shortest`, `lemma_no_path_is_sound` and
  `lemma_expansions_bounded` say what a finished run means.
- `app/` — the editor state machine `MazeApp` (edits, undo, the per-frame
  `tick_solver` driven by a millisecond clock), the undo history, the
  order in which paths are drawn and the form of the loop-dwell label.
- `platform/` — the inbox through which a picked file reaches the app.

`app/` (beside `src/`) is the egui front end: drawing, widgets, file dialogs
and the clock. It only renders and forwards input; the decisions are the
library's.
