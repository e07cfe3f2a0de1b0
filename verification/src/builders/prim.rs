use vstd::prelude::*;

use crate::wall_count::{lemma_open_flag_count, open_flag_count};

use super::{BuildStrategy, leads_to_unvisited};
use crate::forest::{
    grown_tree, lemma_grown_tree_complete, lemma_grown_tree_extend, lemma_grown_tree_start,
    lemma_marked_all, lemma_saturated_covers, saturated, joined,
};
use crate::rng::{clock_subsec_nanos, xorshift, xorshift_next};
use crate::types::{Dir, Maze, Vec2i, dir_at, dir_index, step_toward};

verus! {

/// Randomized Prim: keeps the walls between the maze and the cells outside it, and each
/// step opens a random one of them that still leads outside.
pub struct PrimGen {
    in_maze: Vec<bool>,
    frontier: Vec<(Vec2i, Dir)>,
    seed: u32,
    done: bool,
}

/// What a step finds in the list `f` with the generator in state `s`: it draws the next
/// state and takes out the wall at that position modulo the length (the last wall takes its
/// place); a wall that leads out of the grid or to a cell already in the maze is dropped and
/// the step draws again. Gives the list after the walls taken out, the wall opened and the
/// cell it leads to (if any), and the state after the draws.
pub open spec fn prim_scan(m: Maze, v: Seq<bool>, f: Seq<(Vec2i, Dir)>, s: u32) -> (
    Seq<(Vec2i, Dir)>,
    Option<(Vec2i, Dir, Vec2i)>,
    u32,
)
    decreases f.len(),
{
    if f.len() == 0 {
        (f, None, s)
    } else {
        let s1 = xorshift_next(s);
        let i = (s1 as int) % (f.len() as int);
        let from = f[i].0;
        let d = f[i].1;
        let rest = f.update(i, f.last()).drop_last();
        let to = step_toward(from, d);
        if !m.contains(to) || v[m.index_of(to)] {
            prim_scan(m, v, rest, s1)
        } else {
            (rest, Some((from, d, to)), s1)
        }
    }
}

/// `added` lists the walls from `cell` to the cells outside the maze `v`, one per direction,
/// in the order N, E, S, W.
pub open spec fn walls_out_of(m: Maze, v: Seq<bool>, cell: Vec2i, added: Seq<(Vec2i, Dir)>) -> bool {
    &&& forall|i: int|
        0 <= i < added.len() ==> (#[trigger] added[i]).0 == cell && leads_to_unvisited(m, v, cell, added[i].1)
    &&& forall|i: int, j: int|
        0 <= i < j < added.len() ==> dir_index((#[trigger] added[i]).1) < dir_index((#[trigger] added[j]).1)
    &&& forall|d: Dir|
        #![trigger leads_to_unvisited(m, v, cell, d)]
        leads_to_unvisited(m, v, cell, d) ==> added.contains((cell, d))
}

/// Every wall from a cell of the maze to a cell outside it is listed in `f`.
pub open spec fn frontier_covers(m: Maze, v: Seq<bool>, f: Seq<(Vec2i, Dir)>) -> bool {
    forall|p: Vec2i, d: Dir|
        #![trigger leads_to_unvisited(m, v, p, d)]
        m.contains(p) && v[m.index_of(p)] && leads_to_unvisited(m, v, p, d) ==> f.contains((p, d))
}

/// Every listed wall starts at a cell of the maze and leads to a cell of the grid.
pub open spec fn frontier_sound(m: Maze, v: Seq<bool>, f: Seq<(Vec2i, Dir)>) -> bool {
    forall|i: int|
        0 <= i < f.len() ==> m.contains((#[trigger] f[i]).0) && v[m.index_of(f[i].0)]
            && m.contains(step_toward(f[i].0, f[i].1))
}

impl PrimGen {
    pub closed spec fn in_maze_cells(&self) -> Seq<bool> {
        self.in_maze@
    }

    pub closed spec fn frontier_walls(&self) -> Seq<(Vec2i, Dir)> {
        self.frontier@
    }

    pub closed spec fn seed_state(&self) -> u32 {
        self.seed
    }

    /// A builder whose maze holds only the top-left cell, with the walls out of it listed.
    pub open spec fn fresh(&self, maze: &Maze) -> bool {
        &&& self.in_maze_cells().len() == maze.cell_count()
        &&& forall|i: int| 0 <= i < self.in_maze_cells().len() ==> self.in_maze_cells()[i] == (i == 0)
        &&& forall|i: int| 0 <= i < self.frontier_walls().len() ==> (#[trigger] self.frontier_walls()[i]).0 == (Vec2i { x: 0, y: 0 })
        &&& !self.is_done()
    }

    /// Seeds the builder from the clock.
    pub fn new(maze: &Maze) -> (r: Self)
        requires
            maze.wf(),
            maze.w >= 1,
            maze.h >= 1,
        ensures
            r.fresh(maze),
            maze.open_edges() == Set::<int>::empty() ==> r.inv(maze),
    {
        Self::new_with_seed(maze, Self::time_seed())
    }

    /// The nanoseconds within the current second of the clock.
    pub fn time_seed() -> (r: u32)
        ensures
            r < 1_000_000_000,
    {
        clock_subsec_nanos()
    }

    pub fn new_with_seed(maze: &Maze, seed: u32) -> (r: Self)
        requires
            maze.wf(),
            maze.w >= 1,
            maze.h >= 1,
        ensures
            r.fresh(maze),
            r.seed_state() == seed,
            maze.open_edges() == Set::<int>::empty() ==> r.inv(maze),
    {
        let mut in_maze = vec![false; maze.w * maze.h];
        assert(forall|i: int| 0 <= i < in_maze@.len() ==> !in_maze@[i]);
        let mut s = Self { in_maze, frontier: Vec::new(), seed, done: false };
        let start = Vec2i { x: 0, y: 0 };
        proof {
            maze.lemma_contains_coords_ok(start);
            maze.lemma_origin_index();
            assert forall|p: Vec2i, d: Dir|
                #![trigger leads_to_unvisited(*maze, s.in_maze@, p, d)]
                maze.contains(p) && s.in_maze@[maze.index_of(p)] && leads_to_unvisited(*maze, s.in_maze@, p, d)
                implies s.frontier@.contains((p, d)) by {
                maze.lemma_contains_coords_ok(p);
            }
        }
        s.add_to_maze(maze, start);
        proof {
            assert forall|i: int| 0 <= i < s.in_maze@.len() implies s.in_maze@[i] == (i == 0) by {}
            if maze.open_edges() == Set::<int>::empty() {
                lemma_grown_tree_start(*maze, s.in_maze@, 0);
            }
        }
        s
    }

    /// Puts `cell` into the maze and lists, in the order N, E, S, W, the walls from it to
    /// neighbours outside the maze.
    pub fn add_to_maze(&mut self, maze: &Maze, cell: Vec2i)
        requires
            maze.dims_ok(),
            maze.contains(cell),
            old(self).in_maze_cells().len() == maze.cell_count(),
            !old(self).in_maze_cells()[maze.index_of(cell)],
            frontier_sound(*maze, old(self).in_maze_cells(), old(self).frontier_walls()),
            forall|p: Vec2i, d: Dir|
                #![trigger leads_to_unvisited(*maze, old(self).in_maze_cells(), p, d)]
                maze.contains(p) && old(self).in_maze_cells()[maze.index_of(p)] && leads_to_unvisited(
                    *maze,
                    old(self).in_maze_cells(),
                    p,
                    d,
                ) && step_toward(p, d) != cell ==> old(self).frontier_walls().contains((p, d)),
        ensures
            final(self).in_maze_cells() == old(self).in_maze_cells().update(maze.index_of(cell), true),
            final(self).seed_state() == old(self).seed_state(),
            final(self).is_done() == old(self).is_done(),
            final(self).frontier_walls().subrange(0, old(self).frontier_walls().len() as int)
                == old(self).frontier_walls(),
            final(self).frontier_walls().len() >= old(self).frontier_walls().len(),
            forall|i: int|
                old(self).frontier_walls().len() <= i < final(self).frontier_walls().len() ==> (#[trigger] final(self).frontier_walls()[i]).0 == cell && leads_to_unvisited(
                    *maze,
                    final(self).in_maze_cells(),
                    cell,
                    final(self).frontier_walls()[i].1,
                ),
            forall|i: int, j: int|
                old(self).frontier_walls().len() <= i < j < final(self).frontier_walls().len() ==> dir_index(
                    (#[trigger] final(self).frontier_walls()[i]).1,
                ) < dir_index((#[trigger] final(self).frontier_walls()[j]).1),
            forall|d: Dir|
                #![trigger leads_to_unvisited(*maze, final(self).in_maze_cells(), cell, d)]
                leads_to_unvisited(*maze, final(self).in_maze_cells(), cell, d) ==> final(self).frontier_walls().subrange(old(self).frontier_walls().len() as int, final(self).frontier_walls().len() as int).contains(
                    (cell, d),
                ),
            frontier_sound(*maze, final(self).in_maze_cells(), final(self).frontier_walls()),
            frontier_covers(*maze, final(self).in_maze_cells(), final(self).frontier_walls()),
    {
        proof {
            maze.lemma_contains_coords_ok(cell);
        }
        let ci = maze.idx(cell);
        self.in_maze.set(ci, true);
        let ghost f0 = old(self).frontier@;
        let ghost v = self.in_maze@;
        let mut k: usize = 0;
        while k < 4
            invariant
                k <= 4,
                maze.dims_ok(),
                maze.contains(cell),
                coords_ok_cell(cell),
                self.in_maze@ == v,
                v == old(self).in_maze@.update(maze.index_of(cell), true),
                v.len() == maze.cell_count(),
                self.seed == old(self).seed,
                self.done == old(self).done,
                self.frontier@.len() >= f0.len(),
                self.frontier@.subrange(0, f0.len() as int) == f0,
                forall|i: int|
                    f0.len() <= i < self.frontier@.len() ==> (#[trigger] self.frontier@[i]).0 == cell
                        && leads_to_unvisited(*maze, v, cell, self.frontier@[i].1)
                        && dir_index(self.frontier@[i].1) < k,
                forall|i: int, j: int|
                    f0.len() <= i < j < self.frontier@.len() ==> dir_index(
                        (#[trigger] self.frontier@[i]).1,
                    ) < dir_index((#[trigger] self.frontier@[j]).1),
                forall|d: Dir|
                    #![trigger leads_to_unvisited(*maze, v, cell, d)]
                    dir_index(d) < k && leads_to_unvisited(*maze, v, cell, d) ==> self.frontier@.subrange(
                        f0.len() as int,
                        self.frontier@.len() as int,
                    ).contains((cell, d)),
            decreases 4 - k,
        {
            let dir = dir_at(k);
            let neighbor = maze.neighbor(cell, dir);
            if maze.in_bounds(neighbor) && !self.in_maze[maze.idx(neighbor)] {
                let ghost f1 = self.frontier@;
                self.frontier.push((cell, dir));
                proof {
                    assert(self.frontier@.subrange(0, f0.len() as int) =~= f1.subrange(0, f0.len() as int));
                    assert forall|d: Dir|
                        #![trigger leads_to_unvisited(*maze, v, cell, d)]
                        dir_index(d) < k + 1 && leads_to_unvisited(*maze, v, cell, d) implies self.frontier@.subrange(
                            f0.len() as int,
                            self.frontier@.len() as int,
                        ).contains((cell, d)) by {
                        if dir_index(d) < k {
                            let t = f1.subrange(f0.len() as int, f1.len() as int);
                            let j = choose|j: int| 0 <= j < t.len() && t[j] == (cell, d);
                            assert(self.frontier@.subrange(f0.len() as int, self.frontier@.len() as int)[j] == (cell, d));
                        } else {
                            assert(d == dir);
                            assert(self.frontier@.subrange(f0.len() as int, self.frontier@.len() as int)[f1.len() - f0.len()] == (cell, d));
                        }
                    }
                }
            } else {
                proof {
                    assert forall|d: Dir|
                        #![trigger leads_to_unvisited(*maze, v, cell, d)]
                        dir_index(d) < k + 1 && leads_to_unvisited(*maze, v, cell, d) implies self.frontier@.subrange(
                            f0.len() as int,
                            self.frontier@.len() as int,
                        ).contains((cell, d)) by {
                        if dir_index(d) == k {
                            assert(d == dir);
                        }
                    }
                }
            }
            k = k + 1;
        }
        proof {
            let f = self.frontier@;
            assert forall|i: int| 0 <= i < f.len() implies maze.contains((#[trigger] f[i]).0) && v[maze.index_of(f[i].0)]
                && maze.contains(step_toward(f[i].0, f[i].1)) by {
                if i < f0.len() {
                    assert(f[i] == f0[i]);
                    maze.lemma_contains_coords_ok(f0[i].0);
                }
            }
            assert forall|p: Vec2i, d: Dir|
                #![trigger leads_to_unvisited(*maze, v, p, d)]
                maze.contains(p) && v[maze.index_of(p)] && leads_to_unvisited(*maze, v, p, d)
                implies f.contains((p, d)) by {
                maze.lemma_contains_coords_ok(p);
                if p == cell {
                    let t = f.subrange(f0.len() as int, f.len() as int);
                    assert(t.contains((cell, d)));
                    let j = choose|j: int| 0 <= j < t.len() && t[j] == (cell, d);
                    assert(f[f0.len() + j] == (p, d));
                } else {
                    if maze.index_of(p) == maze.index_of(cell) {
                        maze.lemma_index_of_injective(p, cell);
                    }
                    let q = step_toward(p, d);
                    maze.lemma_contains_coords_ok(q);
                    if maze.index_of(q) == maze.index_of(cell) {
                        maze.lemma_index_of_injective(q, cell);
                    }
                    assert(leads_to_unvisited(*maze, old(self).in_maze@, p, d));
                    assert(f0.contains((p, d)));
                    let j = choose|j: int| 0 <= j < f0.len() && f0[j] == (p, d);
                    assert(f[j] == f0[j]);
                }
            }
        }
    }

    /// A random position in the list of walls.
    pub fn rand_frontier_idx(&mut self) -> (r: usize)
        requires
            old(self).frontier_walls().len() > 0,
        ensures
            final(self).seed_state() == xorshift_next(old(self).seed_state()),
            r == final(self).seed_state() as int % old(self).frontier_walls().len() as int,
            r < old(self).frontier_walls().len(),
            final(self).in_maze_cells() == old(self).in_maze_cells(),
            final(self).frontier_walls() == old(self).frontier_walls(),
            final(self).is_done() == old(self).is_done(),
    {
        (xorshift(&mut self.seed) as usize) % self.frontier.len()
    }
}

pub open spec fn coords_ok_cell(p: Vec2i) -> bool {
    crate::types::coords_ok(p)
}

/// Whether the list is sound and complete depends on the grid's size only, not on its walls.
pub proof fn lemma_frontier_same_dims(m: Maze, m2: Maze, v: Seq<bool>, f: Seq<(Vec2i, Dir)>)
    requires
        m.w == m2.w,
        m.h == m2.h,
        frontier_sound(m, v, f),
        frontier_covers(m, v, f),
    ensures
        frontier_sound(m2, v, f),
        frontier_covers(m2, v, f),
{
    assert forall|p: Vec2i, d: Dir|
        #![trigger leads_to_unvisited(m2, v, p, d)]
        m2.contains(p) && v[m2.index_of(p)] && leads_to_unvisited(m2, v, p, d) implies f.contains((p, d)) by {
        assert(leads_to_unvisited(m, v, p, d));
    }
}

impl PrimGen {
    /// What one step does to the generator and the maze: `self` and `m0` before it,
    /// `after` and `m1` after it, `updated` the cells it returns.
    pub open spec fn step_post(self, after: Self, m0: Maze, m1: Maze, updated: Seq<Vec2i>) -> bool {
        &&& ({
                let (rest, pick, s_end) = prim_scan(m0, self.in_maze_cells(), self.frontier_walls(), self.seed_state());
                &&& after.seed_state() == s_end
                &&& match pick {
                    None => updated.len() == 0 && after.frontier_walls().len() == 0,
                    Some((from, d, to)) => {
                        &&& updated =~= seq![from, to]
                        &&& to == step_toward(from, d)
                        &&& m1.open_edges() =~= m0.open_edges().insert(m0.edge_key(from, d))
                        &&& after.frontier_walls().len() >= rest.len()
                        &&& after.frontier_walls().subrange(0, rest.len() as int) =~= rest
                        &&& walls_out_of(
                            m0,
                            after.in_maze_cells(),
                            to,
                            after.frontier_walls().subrange(rest.len() as int, after.frontier_walls().len() as int),
                        )
                    },
                }
            })
        &&& (updated.len() == 0 || updated.len() == 2)
        &&& (updated.len() == 0 ==> m1.grid@ =~= m0.grid@ && after.is_done())
        &&& (updated.len() == 2 ==> {
                &&& !self.in_maze_cells()[m0.index_of(updated[1])]
                &&& after.in_maze_cells() =~= self.in_maze_cells().update(
                    m0.index_of(updated[1]),
                    true,
                )
                &&& exists|d|
                    updated[1] == step_toward(updated[0], d) && m1.open_edges()
                        =~= m0.open_edges().insert(m0.edge_key(updated[0], d))
            })
    }
}

impl BuildStrategy for PrimGen {
    /// The passages form a tree over the cells of the maze, the list holds every wall from
    /// the maze to a cell outside it, and the builder is done only once the list is empty.
    closed spec fn inv(&self, maze: &Maze) -> bool {
        &&& maze.wf()
        &&& maze.cell_count() >= 1
        &&& self.in_maze@.len() == maze.cell_count()
        &&& self.in_maze@[0]
        &&& grown_tree(*maze, self.in_maze@)
        &&& frontier_sound(*maze, self.in_maze@, self.frontier@)
        &&& frontier_covers(*maze, self.in_maze@, self.frontier@)
        &&& self.done ==> self.frontier@.len() == 0
    }

    closed spec fn is_done(&self) -> bool {
        self.done
    }

    fn name(&self) -> (s: &'static str)
        ensures
            s@ == "Prim's"@,
    {
        "Prim's"
    }

    fn done(&self) -> (b: bool) {
        self.done
    }

    /// Removes random walls from the list until one leads outside the maze, opens it, adds
    /// the cell behind it and returns the two cells; returns nothing once the list is empty.
    fn step(&mut self, maze: &mut Maze) -> (updated: Vec<Vec2i>)
        ensures
            old(self).step_post(*final(self), *old(maze), *final(maze), updated@),

    {
        loop
            invariant
                self.inv(maze),
                maze.grid@ == old(maze).grid@,
                maze.w == old(maze).w,
                maze.h == old(maze).h,
                self.in_maze@ == old(self).in_maze@,
                self.done == old(self).done,
                prim_scan(*maze, self.in_maze@, self.frontier@, self.seed) == prim_scan(
                    *old(maze),
                    old(self).in_maze@,
                    old(self).frontier@,
                    old(self).seed,
                ),
            decreases self.frontier@.len(),
        {
            if self.frontier.len() == 0 {
                self.done = true;
                return Vec::new();
            }
            let ghost scan = prim_scan(*maze, self.in_maze@, self.frontier@, self.seed);
            let idx = self.rand_frontier_idx();
            let ghost f0 = self.frontier@;
            let (from, dir) = self.frontier.swap_remove(idx);
            assert(f0[idx as int] == (from, dir));
            assert(self.frontier@ =~= f0.update(idx as int, f0.last()).drop_last());
            proof {
                maze.lemma_contains_coords_ok(from);
            }
            let to = maze.neighbor(from, dir);
            let ghost v0 = self.in_maze@;
            let ghost covers_after_removal = forall|p: Vec2i, d: Dir|
                #![trigger leads_to_unvisited(*maze, v0, p, d)]
                maze.contains(p) && v0[maze.index_of(p)] && leads_to_unvisited(*maze, v0, p, d)
                    && (p, d) != (from, dir) ==> self.frontier@.contains((p, d));
            assert(covers_after_removal) by {
                assert forall|p: Vec2i, d: Dir|
                    #![trigger leads_to_unvisited(*maze, v0, p, d)]
                    maze.contains(p) && v0[maze.index_of(p)] && leads_to_unvisited(*maze, v0, p, d)
                        && (p, d) != (from, dir) implies self.frontier@.contains((p, d)) by {
                    let j = choose|j: int| 0 <= j < f0.len() && f0[j] == (p, d);
                    if j == f0.len() - 1 {
                        assert(self.frontier@[idx as int] == (p, d));
                    } else {
                        assert(self.frontier@[j] == (p, d));
                    }
                }
            }
            assert(frontier_sound(*maze, v0, self.frontier@)) by {
                assert forall|i: int| 0 <= i < self.frontier@.len() implies maze.contains((#[trigger] self.frontier@[i]).0)
                    && v0[maze.index_of(self.frontier@[i].0)] && maze.contains(step_toward(self.frontier@[i].0, self.frontier@[i].1)) by {
                    if i == idx {
                        assert(self.frontier@[i] == f0[f0.len() - 1]);
                    } else {
                        assert(self.frontier@[i] == f0[i]);
                    }
                }
            }
            if !maze.in_bounds(to) || self.in_maze[maze.idx(to)] {
                assert(frontier_covers(*maze, v0, self.frontier@));
                continue;
            }
            proof {
                maze.lemma_contains_coords_ok(to);
            }
            let ghost rest = self.frontier@;
            self.add_to_maze(maze, to);
            let ghost m0 = *maze;
            maze.carve(from, dir);
            proof {
                lemma_grown_tree_extend(m0, v0, *maze, from, dir);
                lemma_frontier_same_dims(m0, *maze, self.in_maze@, self.frontier@);
                let added = self.frontier@.subrange(rest.len() as int, self.frontier@.len() as int);
                assert forall|i: int| 0 <= i < added.len() implies (#[trigger] added[i]).0 == to
                    && leads_to_unvisited(m0, self.in_maze@, to, added[i].1) by {
                    assert(added[i] == self.frontier@[rest.len() + i]);
                }
                assert forall|i: int, j: int| 0 <= i < j < added.len() implies dir_index(
                    (#[trigger] added[i]).1,
                ) < dir_index((#[trigger] added[j]).1) by {
                    assert(added[i] == self.frontier@[rest.len() + i]);
                    assert(added[j] == self.frontier@[rest.len() + j]);
                }
                assert(walls_out_of(m0, self.in_maze@, to, added));
                assert(walls_out_of(*old(maze), self.in_maze@, to, added)) by {
                    let om = *old(maze);
                    assert forall|i: int| 0 <= i < added.len() implies (#[trigger] added[i]).0 == to
                        && leads_to_unvisited(om, self.in_maze@, to, added[i].1) by {
                        assert(leads_to_unvisited(m0, self.in_maze@, to, added[i].1));
                    }
                    assert forall|d: Dir| #[trigger] leads_to_unvisited(om, self.in_maze@, to, d) implies added.contains(
                        (to, d),
                    ) by {
                        assert(leads_to_unvisited(m0, self.in_maze@, to, d));
                    }
                }
                assert(scan == (rest, Some((from, dir, to)), self.seed));
                assert(self.frontier@.subrange(0, rest.len() as int) =~= rest);
            }
            return vec![from, to];
        }
    }
}

impl PrimGen {
    /// Once the builder is done every cell is in the maze and the maze is a spanning tree:
    /// it has exactly `w * h - 1` passages, and a walk joins any two cells.
    pub proof fn lemma_done_is_perfect(&self, maze: &Maze)
        requires
            self.inv(maze),
            self.is_done(),
        ensures
            maze.open_edges().len() == maze.cell_count() - 1,
            maze.outer_walls_closed() ==> open_flag_count(*maze) == 2 * (maze.cell_count() - 1),
            forall|p: Vec2i, q: Vec2i|
                maze.contains(p) && maze.contains(q) ==> #[trigger] joined(*maze, p, q),
            forall|i: int| 0 <= i < maze.cell_count() ==> #[trigger] self.in_maze_cells()[i],
    {
        assert forall|p: Vec2i| maze.contains(p) && self.in_maze@[maze.index_of(p)] implies #[trigger] saturated(*maze, self.in_maze@, p) by {
            assert forall|d: Dir| #[trigger] maze.contains(step_toward(p, d)) implies self.in_maze@[maze.index_of(step_toward(p, d))] by {
                if leads_to_unvisited(*maze, self.in_maze@, p, d) {
                    assert(self.frontier@.contains((p, d)));
                }
            }
        }
        lemma_saturated_covers(*maze, self.in_maze@);
        lemma_marked_all(self.in_maze@);
        lemma_grown_tree_complete(*maze, self.in_maze@);
        if maze.outer_walls_closed() {
            lemma_open_flag_count(*maze);
        }
    }
}

} // verus!
