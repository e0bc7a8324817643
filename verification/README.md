# Breach Protocol, verified

A Breach Protocol puzzle game: pick tokens from a code matrix into a buffer so
that daemon sequences appear in it. The first pick comes from the top row,
after each pick the allowed line alternates between the picked cell's column
and its row, and a cell is used once. A daemon uploads when its tokens appear
contiguously in the buffer; several can upload in one run, overlapping ones too.

The library in `src/` is written in Verus and proved against its contracts:

- `engine`: the game state, legal picks, uploads, scoring and the reasons a
  run ends, with a mathematical model (`EngineView`) that the contracts use.
- `laws`: properties of whole runs of picks (the pick rules, when daemons
  upload, that a finished run accepts nothing).
- `game_tree`: the tree of runs below a state, what it holds (best score, the
  fewest picks to it and to uploading every daemon, counts of runs, the sum of
  their final scores, the widest branching, whether a pick loses score), and
  why states with the same memo key share it.
- `solver`: the exhaustive search with its memo, node cap and path caps; its
  report is proved to hold what the game tree holds when the cap is not hit.
- `generator`: puzzle generation around the `rand` crate, with the planted
  solution proved to solve the puzzle it was planted in, and the decision
  that the generation loop takes after each try.
- `settings`, `hud`: the setup screen's settings, and what the game screen
  shows of a run and its clock.
- `text`: decimal text of numbers.

`app/` holds the macroquad window, drawing, the floating-point difficulty
rating and the generation loop that consults it.
