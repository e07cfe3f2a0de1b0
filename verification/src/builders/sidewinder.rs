use vstd::prelude::*;

use crate::wall_count::{lemma_open_flag_count, open_flag_count};

use super::BuildStrategy;
use super::binary_tree::row_major_count;
use crate::rng::{clock_subsec_nanos, xorshift, xorshift_next};
use crate::forest::{joined, lemma_joined_grow, lemma_joined_step, lemma_joined_symmetric, lemma_joined_transitive, walk};
use crate::types::{Dir, Maze, Vec2i, cell_of, step_toward};

verus! {

/// The name of the wall east of cell `i` of the top row.
pub open spec fn top_east_key(i: int) -> int {
    2 * i
}

/// Every cell of the rows above row `y`, and of row `y` left of column `run_start`, is
/// joined to the top-left cell; the cells of the current run, from `run_start` up to `x`,
/// are joined to its first cell; in the top row the run starts at column 0.
#[verifier::opaque]
pub open spec fn runs_joined(m: Maze, y: int, x: int, run_start: int) -> bool {
    &&& forall|p: Vec2i|
        #[trigger] m.contains(p) && (p.y < y || (p.y == y && p.x < run_start)) ==> joined(
            m,
            cell_of(0, 0),
            p,
        )
    &&& forall|i: int|
        run_start <= i <= x && i < m.w ==> #[trigger] joined(m, cell_of(run_start, y), cell_of(i, y))
    &&& y == 0 ==> run_start == 0
}

/// At the start nothing is processed.
proof fn lemma_runs_start(m: Maze)
    ensures
        runs_joined(m, 0, 0, 0),
{
    reveal(runs_joined);
    assert(walk(m, cell_of(0, 0), cell_of(0, 0), 0));
}

/// Carving east from column `x` extends the run to `x + 1`.
proof fn lemma_runs_east(m0: Maze, m1: Maze, y: int, x: int, run_start: int)
    requires
        m0.dims_ok(),
        m1.dims_ok(),
        m1.w == m0.w,
        m1.h == m0.h,
        0 <= run_start <= x,
        x + 1 < m0.w,
        0 <= y < m0.h,
        runs_joined(m0, y, x, run_start),
        m1.open_edges() == m0.open_edges().insert(m0.edge_key(cell_of(x, y), Dir::E)),
    ensures
        runs_joined(m1, y, x + 1, run_start),
{
    reveal(runs_joined);
    assert(m0.open_edges().subset_of(m1.open_edges()));
    assert(step_toward(cell_of(x, y), Dir::E) == cell_of(x + 1, y));
    lemma_joined_step(m1, cell_of(x, y), Dir::E);
    assert forall|p: Vec2i|
        #[trigger] m1.contains(p) && (p.y < y || (p.y == y && p.x < run_start)) implies joined(
        m1,
        cell_of(0, 0),
        p,
    ) by {
        assert(m0.contains(p));
        lemma_joined_grow(m0, m1, cell_of(0, 0), p);
    }
    assert forall|i: int|
        run_start <= i <= x + 1 && i < m1.w implies #[trigger] joined(
        m1,
        cell_of(run_start, y),
        cell_of(i, y),
    ) by {
        if i <= x {
            lemma_joined_grow(m0, m1, cell_of(run_start, y), cell_of(i, y));
        } else {
            assert(joined(m0, cell_of(run_start, y), cell_of(x, y)));
            lemma_joined_grow(m0, m1, cell_of(run_start, y), cell_of(x, y));
            lemma_joined_transitive(m1, cell_of(run_start, y), cell_of(x, y), cell_of(i, y));
        }
    }
}

/// Carving north from a cell of the run closes it: every cell up to `x` is joined to the
/// top-left cell through the row above.
proof fn lemma_runs_close(m0: Maze, m1: Maze, y: int, x: int, run_start: int, pick: int)
    requires
        m0.dims_ok(),
        m1.dims_ok(),
        m1.w == m0.w,
        m1.h == m0.h,
        0 <= run_start <= pick <= x,
        x < m0.w,
        1 <= y < m0.h,
        runs_joined(m0, y, x, run_start),
        m1.open_edges() == m0.open_edges().insert(m0.edge_key(cell_of(pick, y), Dir::N)),
    ensures
        runs_joined(m1, y, x + 1, x + 1),
{
    reveal(runs_joined);
    let o = cell_of(0, 0);
    let c = cell_of(pick, y);
    let above = cell_of(pick, y - 1);
    let first = cell_of(run_start, y);
    assert(m0.open_edges().subset_of(m1.open_edges()));
    assert(step_toward(c, Dir::N) == above);
    lemma_joined_step(m1, c, Dir::N);
    assert(m0.contains(above));
    assert(joined(m0, o, above));
    lemma_joined_grow(m0, m1, o, above);
    lemma_joined_transitive(m1, o, above, c);
    assert(joined(m0, first, c));
    lemma_joined_grow(m0, m1, first, c);
    lemma_joined_symmetric(m1, first, c);
    lemma_joined_transitive(m1, o, c, first);
    assert forall|p: Vec2i|
        #[trigger] m1.contains(p) && (p.y < y || (p.y == y && p.x < x + 1)) implies joined(
        m1,
        o,
        p,
    ) by {
        assert(m0.contains(p));
        if p.y < y || p.x < run_start {
            assert(joined(m0, o, p));
            lemma_joined_grow(m0, m1, o, p);
        } else {
            assert(p == cell_of(p.x as int, y));
            assert(joined(m0, first, cell_of(p.x as int, y)));
            lemma_joined_grow(m0, m1, first, p);
            lemma_joined_transitive(m1, o, first, p);
        }
    }
    assert forall|i: int|
        x + 1 <= i <= x + 1 && i < m1.w implies #[trigger] joined(
        m1,
        cell_of(x + 1, y),
        cell_of(i, y),
    ) by {
        assert(walk(m1, cell_of(x + 1, y), cell_of(i, y), 0));
    }
}

/// A row whose every cell is joined to the top-left cell leads to the next row.
proof fn lemma_runs_row_end(m: Maze, y: int)
    requires
        0 <= y,
        runs_joined(m, y, m.w as int, m.w as int),
    ensures
        runs_joined(m, y + 1, 0, 0),
{
    reveal(runs_joined);
    assert(walk(m, cell_of(0, y + 1), cell_of(0, y + 1), 0));
}

/// The top row, one run from its first cell to its last, is joined to the top-left cell.
proof fn lemma_runs_first_row(m: Maze)
    requires
        m.w >= 1,
        runs_joined(m, 0, m.w - 1, 0),
    ensures
        runs_joined(m, 1, 0, 0),
{
    reveal(runs_joined);
    assert forall|p: Vec2i| #[trigger] m.contains(p) && (p.y < 1 || (p.y == 1 && p.x < 0)) implies joined(
        m,
        cell_of(0, 0),
        p,
    ) by {
        assert(p == cell_of(p.x as int, 0));
        assert(joined(m, cell_of(0, 0), cell_of(p.x as int, 0)));
    }
    assert(walk(m, cell_of(0, 1), cell_of(0, 1), 0));
}

/// Row by row: each cell either extends the current run east, or closes it by carving
/// north from a random cell of the run. The top row is one open corridor.
pub struct Sidewinder {
    x: usize,
    y: usize,
    run_start: usize,
    seed: u32,
    w: usize,
    h: usize,
    done: bool,
}

impl Sidewinder {
    /// The index of the next cell to process.
    pub closed spec fn position(&self) -> int {
        self.y * self.w + self.x
    }

    pub closed spec fn seed_state(&self) -> u32 {
        self.seed
    }

    /// The column of the next cell.
    pub closed spec fn column(&self) -> int {
        self.x as int
    }

    /// The row of the next cell.
    pub closed spec fn row(&self) -> int {
        self.y as int
    }

    /// The column where the current run began.
    pub closed spec fn run_begin(&self) -> int {
        self.run_start as int
    }

    /// The width of the grid.
    pub closed spec fn grid_width(&self) -> int {
        self.w as int
    }

    /// The height of the grid.
    pub closed spec fn grid_height(&self) -> int {
        self.h as int
    }

    pub open spec fn fresh(&self, maze: &Maze) -> bool {
        &&& self.column() == 0
        &&& self.row() == 0
        &&& self.run_begin() == 0
        &&& self.grid_width() == maze.w
        &&& self.grid_height() == maze.h
        &&& !self.is_done()
    }

    /// Seeds the builder from the clock.
    pub fn new(maze: &Maze) -> (r: Self)
        requires
            maze.wf(),
            maze.w >= 1,
            maze.h >= 1,
        ensures
            r.fresh(maze),
            maze.open_edges() == Set::<int>::empty() ==> r.inv(maze),
    {
        let seed = clock_subsec_nanos();
        Self::new_with_seed(maze, seed)
    }

    pub fn new_with_seed(maze: &Maze, seed: u32) -> (r: Self)
        requires
            maze.wf(),
            maze.w >= 1,
            maze.h >= 1,
        ensures
            r.fresh(maze),
            r.seed_state() == seed,
            maze.open_edges() == Set::<int>::empty() ==> r.inv(maze),
    {
        let r = Self { x: 0, y: 0, run_start: 0, seed, w: maze.w, h: maze.h, done: false };
        proof {
            lemma_runs_start(*maze);
            assert(r.y * r.w + r.x == 0) by (nonlinear_arith)
                requires
                    r.y == 0,
                    r.x == 0,
            ;
        }
        r
    }
}

impl Sidewinder {
    /// What one step does to the generator and the maze: `self` and `m0` before it,
    /// `after` and `m1` after it, `updated` the cells it returns.
    pub open spec fn step_post(self, after: Self, m0: Maze, m1: Maze, updated: Seq<Vec2i>) -> bool {
        &&& (self.is_done() ==> updated.len() == 0 && m1.grid@ =~= m0.grid@)
        &&& (!self.is_done() ==> {
                let x = self.column();
                let y = self.row();
                let can_east = x + 1 < self.grid_width();
                let can_north = y > 0;
                let coin = can_east && can_north;
                let s1 = if coin { xorshift_next(self.seed_state()) } else { self.seed_state() };
                let close_run = !can_east || (can_north && s1 & 1 == 0);
                let s2 = xorshift_next(s1);
                let pick = cell_of(self.run_begin() + (s2 as int) % (x - self.run_begin() + 1), y);
                &&& after.position() == self.position() + 1
                &&& after.grid_width() == self.grid_width()
                &&& after.grid_height() == self.grid_height()
                &&& after.is_done() == (self.position() + 1 == self.grid_width()
                    * self.grid_height())
                &&& updated.len() >= 1
                &&& updated[0] == cell_of(x, y)
                &&& m0.index_of(updated[0]) == self.position()
                &&& (close_run && can_north) ==> {
                    &&& after.seed_state() == s2
                    &&& updated.len() == 3
                    &&& updated[1] == pick
                    &&& updated[2] == step_toward(pick, Dir::N)
                    &&& m1.open_edges() =~= m0.open_edges().insert(m0.edge_key(pick, Dir::N))
                }
                &&& (!(close_run && can_north) && can_east) ==> {
                    &&& after.seed_state() == s1
                    &&& updated.len() == 2
                    &&& updated[1] == step_toward(updated[0], Dir::E)
                    &&& m1.open_edges() =~= m0.open_edges().insert(m0.edge_key(updated[0], Dir::E))
                }
                &&& (!can_north && !can_east) ==> {
                    &&& after.seed_state() == s1
                    &&& updated.len() == 1
                    &&& m1.grid@ =~= m0.grid@
                }
            })
    }
}

impl BuildStrategy for Sidewinder {
    /// The cells before the current one have carved one passage each (the top-right cell
    /// none); an east-west passage is charged to a cell before the current one, a
    /// north-south one to a cell before the current run; the builder is done exactly when
    /// all `w * h` cells have been processed.
    closed spec fn inv(&self, maze: &Maze) -> bool {
        &&& maze.wf()
        &&& self.w == maze.w
        &&& self.h == maze.h
        &&& self.w >= 1
        &&& self.h >= 1
        &&& if self.done {
            self.x == 0 && self.y == self.h && self.run_start == 0
        } else {
            self.run_start <= self.x < self.w && self.y < self.h
        }
        &&& forall|k: int| #[trigger]
            maze.open_edges().contains(k) ==> maze.edge_owner(k) < self.y * self.w + self.x && (k
                % 2 == 1 ==> maze.edge_owner(k) < self.y * self.w + self.run_start)
        &&& maze.open_edges().len() == row_major_count(self.w as int, self.y * self.w + self.x)
        &&& forall|i: int|
            0 <= i && i + 1 < self.w && (self.y > 0 || i < self.x) ==> maze.open_edges().contains(
                #[trigger] top_east_key(i),
            )
        &&& runs_joined(*maze, self.y as int, self.x as int, self.run_start as int)
    }

    closed spec fn is_done(&self) -> bool {
        self.done
    }

    fn name(&self) -> (s: &'static str)
        ensures
            s@ == "Sidewinder"@,
    {
        "Sidewinder"
    }

    fn done(&self) -> (b: bool) {
        self.done
    }

    /// Closes the run (always at the east edge, otherwise when north is open and the low bit
    /// of the next state is 0) by carving north from a random cell of it, or else carves
    /// east; returns the current cell followed by the two cells of the new passage (the
    /// eastern neighbour alone for an east passage).
    fn step(&mut self, maze: &mut Maze) -> (updated: Vec<Vec2i>)
        ensures
            old(self).step_post(*final(self), *old(maze), *final(maze), updated@),
    {
        if self.done {
            return Vec::new();
        }
        let cell = Vec2i { x: self.x as i32, y: self.y as i32 };
        proof {
            maze.lemma_contains_coords_ok(cell);
            maze.lemma_open_edges_finite();
        }
        let can_east = self.x + 1 < self.w;
        let can_north = self.y > 0;
        let close_run = !can_east || (can_north && xorshift(&mut self.seed) & 1 == 0);
        let ghost m0 = *maze;
        let ghost pos = self.y * self.w + self.x;
        let ghost run_pos = self.y * self.w + self.run_start;
        proof {
            if self.y == 0 {
                assert(pos == self.x) by (nonlinear_arith)
                    requires
                        pos == self.y * self.w + self.x,
                        self.y == 0,
                ;
            } else {
                assert(pos >= self.w) by (nonlinear_arith)
                    requires
                        pos == self.y * self.w + self.x,
                        self.y >= 1,
                        self.x >= 0,
                ;
            }
        }
        let mut updated = vec![cell];
        if close_run && can_north {
            let run_len = self.x - self.run_start + 1;
            let pick_x = self.run_start + (xorshift(&mut self.seed) as usize) % run_len;
            let pick = Vec2i { x: pick_x as i32, y: self.y as i32 };
            proof {
                maze.lemma_contains_coords_ok(pick);
                m0.lemma_owner_north_east(pick, Dir::N);
                m0.lemma_edge_key(pick, Dir::N);
                assert(run_pos <= m0.index_of(pick) <= pos);
                assert(!m0.open_edges().contains(m0.edge_key(pick, Dir::N)));
            }
            maze.carve(pick, Dir::N);
            proof {
                assert(pick == cell_of(pick_x as int, self.y as int));
                lemma_runs_close(
                    m0,
                    *maze,
                    self.y as int,
                    self.x as int,
                    self.run_start as int,
                    pick_x as int,
                );
            }
            updated.push(pick);
            updated.push(maze.neighbor(pick, Dir::N));
            self.run_start = self.x + 1;
        } else if can_east {
            proof {
                m0.lemma_owner_north_east(cell, Dir::E);
                m0.lemma_edge_key(cell, Dir::E);
                assert(!m0.open_edges().contains(m0.edge_key(cell, Dir::E)));
                if self.y == 0 {
                    assert(m0.edge_key(cell, Dir::E) == top_east_key(self.x as int));
                }
            }
            maze.carve(cell, Dir::E);
            proof {
                assert(cell == cell_of(self.x as int, self.y as int));
                lemma_runs_east(m0, *maze, self.y as int, self.x as int, self.run_start as int);
            }
            updated.push(maze.neighbor(cell, Dir::E));
        }
        self.x = self.x + 1;
        if self.x >= self.w {
            proof {
                assert((self.y + 1) * self.w + 0 == pos + 1) by (nonlinear_arith)
                    requires
                        pos == self.y * self.w + (self.w - 1),
                ;
            }
            proof {
                if self.y == 0 {
                    assert(self.run_start == 0) by {
                        reveal(runs_joined);
                    }
                    lemma_runs_first_row(*maze);
                } else {
                    lemma_runs_row_end(*maze, self.y as int);
                }
            }
            self.x = 0;
            self.run_start = 0;
            self.y = self.y + 1;
            if self.y >= self.h {
                self.done = true;
            }
        }
        proof {
            let ox = old(self).x as int;
            let oy = old(self).y as int;
            let w = self.w as int;
            let h = self.h as int;
            assert(self.done == (ox + 1 == w && oy + 1 == h));
            assert((ox + 1 == w && oy + 1 == h) == (pos + 1 == w * h)) by (nonlinear_arith)
                requires
                    pos == oy * w + ox,
                    0 <= ox < w,
                    0 <= oy < h,
            ;
        }
        updated
    }
}

impl Sidewinder {
    /// Once every cell has been processed, the top row is one open corridor: no wall stands
    /// between two of its cells.
    pub proof fn lemma_done_top_row_open(&self, maze: &Maze)
        requires
            self.inv(maze),
            self.is_done(),
        ensures
            forall|x: int|
                0 <= x && x + 1 < maze.w ==> !#[trigger] maze.wall_of(Vec2i { x: x as i32, y: 0 }, Dir::E),
    {
        assert forall|x: int| 0 <= x && x + 1 < maze.w implies !#[trigger] maze.wall_of(
            Vec2i { x: x as i32, y: 0 },
            Dir::E,
        ) by {
            let k = top_east_key(x);
            assert(maze.open_edges().contains(k));
            assert(k / 2 == x && k % 2 == 0);
            assert(maze.index_of(Vec2i { x: x as i32, y: 0 }) == x) by (nonlinear_arith)
                requires
                    maze.index_of(Vec2i { x: x as i32, y: 0 }) == 0 * maze.w + (x as i32),
                    0 <= x < maze.w,
                    maze.w <= i32::MAX,
            ;
        }
    }

    /// Once every cell has been processed the maze is a spanning tree: exactly `w * h - 1`
    /// passages, and a walk joins any two cells.
    pub proof fn lemma_done_is_perfect(&self, maze: &Maze)
        requires
            self.inv(maze),
            self.is_done(),
        ensures
            maze.open_edges().len() == maze.cell_count() - 1,
            maze.outer_walls_closed() ==> open_flag_count(*maze) == 2 * (maze.cell_count() - 1),
            forall|p: Vec2i, q: Vec2i|
                maze.contains(p) && maze.contains(q) ==> #[trigger] joined(*maze, p, q),
    {
        assert forall|p: Vec2i, q: Vec2i| maze.contains(p) && maze.contains(q) implies #[trigger] joined(
            *maze,
            p,
            q,
        ) by {
            reveal(runs_joined);
            assert(joined(*maze, cell_of(0, 0), p));
            assert(joined(*maze, cell_of(0, 0), q));
            lemma_joined_symmetric(*maze, cell_of(0, 0), p);
            lemma_joined_transitive(*maze, p, cell_of(0, 0), q);
        }
        assert(self.y * self.w + self.x == maze.cell_count()) by (nonlinear_arith)
            requires
                self.x == 0,
                self.y == self.h,
                self.w == maze.w,
                self.h == maze.h,
        ;
        assert(maze.cell_count() >= self.w) by (nonlinear_arith)
            requires
                maze.cell_count() == self.w * self.h,
                self.h >= 1,
                self.w >= 1,
        ;
        if maze.outer_walls_closed() {
            lemma_open_flag_count(*maze);
        }
    }
}

} // verus!
