# mazegen

A terminal maze generator and solver whose generating and solving logic is verified with
Verus.

- `src/` — the verified library:
  - `types.rs`: the grid, its walls and the overlay that solvers draw on.
  - `builders/`: the maze generators. Each one takes steps that preserve its invariant and
    keep every wall facing out of the grid unchanged. A `lemma_done_is_perfect` states what
    the finished maze is: a spanning tree with one passage fewer than cells, and a walk
    between any two cells.
  - `solvers/`: depth-first search, breadth-first search and flood fill, step by step. For
    each, a `lemma_*_run_marks_a_solution_path` states what a finished run has marked: no
    cell, or exactly the cells of a path from the goal to the start through open walls;
    `lemma_*_run_marks_a_path_when_the_goal_is_reachable` states that it is a path whenever
    a walk joins the start to the goal.
  - `wall_count.rs`: relates the open wall flags to the passages between cells.
  - `forest.rs`: walks, joined cells and the growing-tree invariants.
  - `rng.rs`: the xorshift generator, Fisher–Yates shuffles and clock seeds.
  - `viewers/`: the pixel and character renderings.
  - `session.rs`, `config.rs` and `util.rs`: the key handling, the step runs, and
    argument and name parsing.
- `app/` — the terminal program: arguments, raw mode, timing and drawing.
- `tests/` — the tests, run against the compiled library.
