# sudoku-hint-engine

A Sudoku hint engine written in Verus. The library (`src/`) keeps one
candidate mask per cell, finds Naked Single and Hidden Single hints, applies
them step by step, decides by backtracking whether a board still has a
solution, and diagnoses a player's moves (impossible moves, locally minimal
contradictory subsets, suspect moves, moves made too early). Every function
carries a contract that Verus proves.

- `grid`: board geometry (cells, units, peers) and what a solution is.
- `mask`: the reading of a `u16` as a set of candidate digits.
- `sudoku`: the board, reading a puzzle text, placing and removing digits.
- `solution`: solvability and the facts the search relies on.
- `strategy`, `strategies`: hints and the two techniques.
- `engine`, `diagnosis`: the engine and the move diagnostics.
- `advice`: reading a player's board against the puzzle.
- `text`: the texts shown to the player.

`app/` is the command-line front end (file reading and printing).
