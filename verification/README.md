# csp_engine

A verified constraint-satisfaction library.

- `src/` — the library, proved with Verus:
  - `names`: name-keyed assignments and domain tables;
  - `constraint`: constraints as data (all-different, not-equal, no-diagonal,
    word sums) and what it means for an assignment to satisfy them;
  - `csp`: problems, arc consistency, forward checking and its undoing;
  - `solve`: chronological backtracking, minimum-remaining-values search with
    forward checking, and a parallel search over the first variable's values;
  - `cryptarithm`, `dsl`: puzzles read from text and models built step by
    step (n-queens, sudoku, map colouring, `ISA + ROA = TELO`);
  - `color`, `isa`: a plain map-colouring backtracker and a plain enumeration
    of `ISA + ROA = TELO`;
  - `text`: the character-level helpers the parsers use.
- `tests/` — tests run against the compiled library.
- `app/` — the demonstration program: printing, timing and argument handling.
