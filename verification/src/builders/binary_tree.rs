use vstd::prelude::*;

use crate::wall_count::{lemma_open_flag_count, open_flag_count};

use super::BuildStrategy;
use crate::rng::{clock_subsec_nanos, xorshift, xorshift_next};
use crate::forest::{joined, lemma_joined_grow, lemma_joined_step, lemma_joined_symmetric, lemma_joined_transitive, walk};
use crate::types::{Dir, Maze, Vec2i, cell_of, step_toward};

verus! {

/// For each cell in row-major order, carves north or east at random (only one of them
/// where the other leaves the grid). Strong north-east bias, but extremely fast.
pub struct BinaryTree {
    x: usize,
    y: usize,
    seed: u32,
    w: usize,
    h: usize,
    done: bool,
}

/// The number of passages once the first `pos` cells have carved: one each, except the
/// top-right cell, which has neither a northern nor an eastern neighbour.
pub open spec fn row_major_count(w: int, pos: int) -> int {
    if pos >= w {
        pos - 1
    } else {
        pos
    }
}

/// The cells processed before column `x` of row `y` are each joined to the top-right
/// cell, or lie in row `y` and are joined to the cell at column `x`.
#[verifier::opaque]
pub open spec fn processed_joined(m: Maze, y: int, x: int) -> bool {
    forall|p: Vec2i|
        #[trigger] m.contains(p) && (p.y < y || (p.y == y && p.x < x)) ==> joined(
            m,
            cell_of(m.w - 1, 0),
            p,
        ) || (p.y == y && joined(m, p, cell_of(x, y)))
}

/// Every cell processed up to column `x` of row `y` is joined to the top-right cell.
pub open spec fn all_rooted(m: Maze, y: int, x: int) -> bool {
    forall|p: Vec2i|
        #[trigger] m.contains(p) && (p.y < y || (p.y == y && p.x < x)) ==> joined(
            m,
            cell_of(m.w - 1, 0),
            p,
        )
}

/// With everything rooted, the next cell to process may be any later one.
proof fn lemma_rooted_processed(m: Maze, y: int, x: int, y2: int, x2: int)
    requires
        all_rooted(m, y, x),
        y2 < y || (y2 == y && x2 <= x) || (y2 == y + 1 && x2 == 0 && x == m.w),
    ensures
        processed_joined(m, y2, x2),
{
    reveal(processed_joined);
}

/// Carving north from column `x` roots it and the cells east-joined to it.
proof fn lemma_processed_north(m0: Maze, m1: Maze, y: int, x: int)
    requires
        m0.dims_ok(),
        m1.dims_ok(),
        m1.w == m0.w,
        m1.h == m0.h,
        0 <= x < m0.w,
        1 <= y < m0.h,
        processed_joined(m0, y, x),
        m1.open_edges() == m0.open_edges().insert(m0.edge_key(cell_of(x, y), Dir::N)),
    ensures
        all_rooted(m1, y, x + 1),
{
    reveal(processed_joined);
    let r = cell_of(m0.w - 1, 0);
    let c = cell_of(x, y);
    let above = cell_of(x, y - 1);
    assert(m0.open_edges().subset_of(m1.open_edges()));
    assert(step_toward(c, Dir::N) == above);
    lemma_joined_step(m1, c, Dir::N);
    assert(m0.contains(above));
    assert(joined(m0, r, above));
    lemma_joined_grow(m0, m1, r, above);
    lemma_joined_transitive(m1, r, above, c);
    assert forall|p: Vec2i|
        #[trigger] m1.contains(p) && (p.y < y || (p.y == y && p.x < x + 1)) implies joined(
        m1,
        r,
        p,
    ) by {
        assert(m0.contains(p));
        if p == c {
        } else if joined(m0, r, p) {
            lemma_joined_grow(m0, m1, r, p);
        } else {
            assert(joined(m0, p, c));
            lemma_joined_grow(m0, m1, p, c);
            lemma_joined_symmetric(m1, p, c);
            lemma_joined_transitive(m1, r, c, p);
        }
    }
}

/// Carving east from column `x` passes its joins on to column `x + 1`.
proof fn lemma_processed_east(m0: Maze, m1: Maze, y: int, x: int)
    requires
        m0.dims_ok(),
        m1.dims_ok(),
        m1.w == m0.w,
        m1.h == m0.h,
        0 <= x,
        x + 1 < m0.w,
        0 <= y < m0.h,
        processed_joined(m0, y, x),
        m1.open_edges() == m0.open_edges().insert(m0.edge_key(cell_of(x, y), Dir::E)),
    ensures
        processed_joined(m1, y, x + 1),
{
    reveal(processed_joined);
    let r = cell_of(m0.w - 1, 0);
    let c = cell_of(x, y);
    let next = cell_of(x + 1, y);
    assert(m0.open_edges().subset_of(m1.open_edges()));
    assert(step_toward(c, Dir::E) == next);
    lemma_joined_step(m1, c, Dir::E);
    assert forall|p: Vec2i|
        #[trigger] m1.contains(p) && (p.y < y || (p.y == y && p.x < x + 1)) implies joined(
        m1,
        r,
        p,
    ) || (p.y == y && joined(m1, p, next)) by {
        assert(m0.contains(p));
        if p == c {
        } else if joined(m0, r, p) {
            lemma_joined_grow(m0, m1, r, p);
        } else {
            assert(joined(m0, p, c));
            lemma_joined_grow(m0, m1, p, c);
            lemma_joined_transitive(m1, p, c, next);
        }
    }
}

/// The top row, all joined to its last cell, is rooted.
proof fn lemma_processed_corner(m: Maze)
    requires
        m.dims_ok(),
        m.w >= 1,
        m.h >= 1,
        processed_joined(m, 0, m.w - 1),
    ensures
        all_rooted(m, 0, m.w as int),
{
    reveal(processed_joined);
    let r = cell_of(m.w - 1, 0);
    assert forall|p: Vec2i| #[trigger] m.contains(p) && (p.y < 0 || (p.y == 0 && p.x < m.w)) implies joined(
        m,
        r,
        p,
    ) by {
        if p == r {
            assert(walk(m, r, p, 0));
        } else if !joined(m, r, p) {
            assert(joined(m, p, r));
            lemma_joined_symmetric(m, p, r);
        }
    }
}

impl BinaryTree {
    /// The index of the next cell to process.
    pub closed spec fn position(&self) -> int {
        self.y * self.w + self.x
    }

    pub closed spec fn seed_state(&self) -> u32 {
        self.seed
    }

    /// The column of the next cell.
    pub closed spec fn column(&self) -> int {
        self.x as int
    }

    /// The row of the next cell.
    pub closed spec fn row(&self) -> int {
        self.y as int
    }

    /// The width of the grid.
    pub closed spec fn grid_width(&self) -> int {
        self.w as int
    }

    /// The height of the grid.
    pub closed spec fn grid_height(&self) -> int {
        self.h as int
    }

    pub open spec fn fresh(&self, maze: &Maze) -> bool {
        &&& self.column() == 0
        &&& self.row() == 0
        &&& self.grid_width() == maze.w
        &&& self.grid_height() == maze.h
        &&& !self.is_done()
    }

    /// Seeds the builder from the clock.
    pub fn new(maze: &Maze) -> (r: Self)
        requires
            maze.wf(),
            maze.w >= 1,
            maze.h >= 1,
        ensures
            r.fresh(maze),
            maze.open_edges() == Set::<int>::empty() ==> r.inv(maze),
    {
        let seed = clock_subsec_nanos();
        Self::new_with_seed(maze, seed)
    }

    pub fn new_with_seed(maze: &Maze, seed: u32) -> (r: Self)
        requires
            maze.wf(),
            maze.w >= 1,
            maze.h >= 1,
        ensures
            r.fresh(maze),
            r.seed_state() == seed,
            maze.open_edges() == Set::<int>::empty() ==> r.inv(maze),
    {
        let r = Self { x: 0, y: 0, seed, w: maze.w, h: maze.h, done: false };
        proof {
            reveal(processed_joined);
            assert(r.y * r.w + r.x == 0) by (nonlinear_arith)
                requires
                    r.y == 0,
                    r.x == 0,
            ;
        }
        r
    }
}

impl BinaryTree {
    /// What one step does to the generator and the maze: `self` and `m0` before it,
    /// `after` and `m1` after it, `updated` the cells it returns.
    pub open spec fn step_post(self, after: Self, m0: Maze, m1: Maze, updated: Seq<Vec2i>) -> bool {
        &&& (self.is_done() ==> updated.len() == 0 && m1.grid@ =~= m0.grid@)
        &&& (!self.is_done() ==> {
                let x = self.column();
                let y = self.row();
                let can_north = y > 0;
                let can_east = x + 1 < self.grid_width();
                let both = can_north && can_east;
                let d = if both {
                    if xorshift_next(self.seed_state()) & 1 == 0 { Dir::N } else { Dir::E }
                } else if can_north {
                    Dir::N
                } else {
                    Dir::E
                };
                &&& after.position() == self.position() + 1
                &&& after.grid_width() == self.grid_width()
                &&& after.grid_height() == self.grid_height()
                &&& after.is_done() == (self.position() + 1 == self.grid_width()
                    * self.grid_height())
                &&& after.seed_state() == (if both {
                    xorshift_next(self.seed_state())
                } else {
                    self.seed_state()
                })
                &&& updated.len() >= 1
                &&& updated[0] == cell_of(x, y)
                &&& m0.index_of(updated[0]) == self.position()
                &&& (can_north || can_east) ==> {
                    &&& updated.len() == 2
                    &&& updated[1] == step_toward(updated[0], d)
                    &&& m1.open_edges() =~= m0.open_edges().insert(m0.edge_key(updated[0], d))
                }
                &&& !(can_north || can_east) ==> updated.len() == 1 && m1.grid@ =~= m0.grid@
            })
    }
}

impl BuildStrategy for BinaryTree {
    /// The cells before the current one have carved one passage each (the top-right cell
    /// none), every open wall is charged to such a cell, and the builder is done exactly
    /// when all `w * h` cells have been processed.
    closed spec fn inv(&self, maze: &Maze) -> bool {
        &&& maze.wf()
        &&& self.w == maze.w
        &&& self.h == maze.h
        &&& self.w >= 1
        &&& self.h >= 1
        &&& if self.done {
            self.x == 0 && self.y == self.h
        } else {
            self.x < self.w && self.y < self.h
        }
        &&& forall|k: int| #[trigger]
            maze.open_edges().contains(k) ==> maze.edge_owner(k) < self.y * self.w + self.x
        &&& maze.open_edges().len() == row_major_count(self.w as int, self.y * self.w + self.x)
        &&& processed_joined(*maze, self.y as int, self.x as int)
    }

    closed spec fn is_done(&self) -> bool {
        self.done
    }

    fn name(&self) -> (s: &'static str)
        ensures
            s@ == "Binary Tree"@,
    {
        "Binary Tree"
    }

    fn done(&self) -> (b: bool) {
        self.done
    }

    /// Carves north or east from the current cell (chosen by the low bit of the next
    /// state when both are possible) and moves on; returns the cell and the neighbour
    /// carved into, or the cell alone at the top-right corner.
    fn step(&mut self, maze: &mut Maze) -> (updated: Vec<Vec2i>)
        ensures
            old(self).step_post(*final(self), *old(maze), *final(maze), updated@),

    {
        if self.done {
            return Vec::new();
        }
        let cell = Vec2i { x: self.x as i32, y: self.y as i32 };
        proof {
            maze.lemma_contains_coords_ok(cell);
            maze.lemma_open_edges_finite();
        }
        let can_north = self.y > 0;
        let can_east = self.x + 1 < self.w;
        let ghost m0 = *maze;
        let ghost pos = self.y * self.w + self.x;
        let dir: Option<Dir> = if can_north && can_east {
            if xorshift(&mut self.seed) & 1 == 0 {
                Some(Dir::N)
            } else {
                Some(Dir::E)
            }
        } else if can_north {
            Some(Dir::N)
        } else if can_east {
            Some(Dir::E)
        } else {
            None
        };
        let carved = match dir {
            Some(d) => {
                proof {
                    m0.lemma_owner_north_east(cell, d);
                    m0.lemma_edge_key(cell, d);
                }
                maze.carve(cell, d);
                Some(maze.neighbor(cell, d))
            },
            None => None,
        };
        proof {
            assert(self.x == 0 && self.y == 0 <==> pos == 0) by (nonlinear_arith)
                requires
                    pos == self.y * self.w + self.x,
                    self.x < self.w,
                    self.y >= 0,
            ;
            if self.y == 0 {
                assert(pos == self.x) by (nonlinear_arith)
                    requires
                        pos == self.y * self.w + self.x,
                        self.y == 0,
                ;
            } else {
                assert(pos >= self.w) by (nonlinear_arith)
                    requires
                        pos == self.y * self.w + self.x,
                        self.y >= 1,
                        self.x >= 0,
                ;
            }
        }
        self.x = self.x + 1;
        if self.x >= self.w {
            proof {
                assert((self.y + 1) * self.w + 0 == pos + 1) by (nonlinear_arith)
                    requires
                        pos == self.y * self.w + (self.w - 1),
            ;
            }
            self.x = 0;
            self.y = self.y + 1;
            if self.y >= self.h {
                self.done = true;
            }
        }
        proof {
            if let Some(d) = dir {
                assert(!m0.open_edges().contains(m0.edge_key(cell, d)));
            }
            let ox = old(self).x as int;
            let oy = old(self).y as int;
            let w = self.w as int;
            let h = self.h as int;
            assert(self.done == (ox + 1 == w && oy + 1 == h));
            assert((ox + 1 == w && oy + 1 == h) == (pos + 1 == w * h)) by (nonlinear_arith)
                requires
                    pos == oy * w + ox,
                    0 <= ox < w,
                    0 <= oy < h,
            ;
            assert(cell == cell_of(ox, oy));
            match dir {
                Some(Dir::N) => {
                    lemma_processed_north(m0, *maze, oy, ox);
                    lemma_rooted_processed(*maze, oy, ox + 1, self.y as int, self.x as int);
                },
                Some(Dir::E) => {
                    lemma_processed_east(m0, *maze, oy, ox);
                },
                Some(_) => {},
                None => {
                    lemma_processed_corner(*maze);
                    lemma_rooted_processed(*maze, 0, maze.w as int, self.y as int, self.x as int);
                },
            }
        }
        match carved {
            Some(neighbor) => vec![cell, neighbor],
            None => vec![cell],
        }
    }
}

impl BinaryTree {
    /// Once every cell has been processed the maze is a spanning tree: exactly `w * h - 1`
    /// passages, and a walk joins any two cells.
    pub proof fn lemma_done_is_perfect(&self, maze: &Maze)
        requires
            self.inv(maze),
            self.is_done(),
        ensures
            maze.open_edges().len() == maze.cell_count() - 1,
            maze.outer_walls_closed() ==> open_flag_count(*maze) == 2 * (maze.cell_count() - 1),
            forall|p: Vec2i, q: Vec2i|
                maze.contains(p) && maze.contains(q) ==> #[trigger] joined(*maze, p, q),
    {
        let r = cell_of(maze.w - 1, 0);
        assert forall|p: Vec2i, q: Vec2i| maze.contains(p) && maze.contains(q) implies #[trigger] joined(
            *maze,
            p,
            q,
        ) by {
            reveal(processed_joined);
            assert(joined(*maze, r, p));
            assert(joined(*maze, r, q));
            lemma_joined_symmetric(*maze, r, p);
            lemma_joined_transitive(*maze, p, r, q);
        }
        assert(self.y * self.w + self.x == maze.cell_count()) by (nonlinear_arith)
            requires
                self.x == 0,
                self.y == self.h,
                self.w == maze.w,
                self.h == maze.h,
        ;
        assert(maze.cell_count() >= self.w) by (nonlinear_arith)
            requires
                maze.cell_count() == self.w * self.h,
                self.h >= 1,
                self.w >= 1,
        ;
        if maze.outer_walls_closed() {
            lemma_open_flag_count(*maze);
        }
    }
}

} // verus!
