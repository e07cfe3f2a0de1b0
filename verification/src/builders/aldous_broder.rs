use vstd::prelude::*;

use crate::wall_count::{lemma_open_flag_count, open_flag_count};

use super::{BuildStrategy, neighbor_pick, random_neighbor, seed_after_pick};
use crate::forest::{
    grown_tree, lemma_grown_tree_complete, lemma_grown_tree_extend, lemma_grown_tree_start,
    lemma_marked_insert, marked, joined,
};
use crate::rng::clock_subsec_nanos;
use crate::types::{Maze, Vec2i, step_toward};

verus! {

/// Random walk over the whole grid that carves into every cell the first time it
/// is entered; produces a uniform spanning tree.
pub struct AldousBroder {
    current: Vec2i,
    visited: Vec<bool>,
    remaining: usize,
    seed: u32,
    done: bool,
}

impl AldousBroder {
    pub closed spec fn current_cell(&self) -> Vec2i {
        self.current
    }

    pub closed spec fn visited_cells(&self) -> Seq<bool> {
        self.visited@
    }

    pub closed spec fn seed_state(&self) -> u32 {
        self.seed
    }

    /// A walk that has only just started at the top-left cell of `maze`.
    /// How many cells the walk has not entered yet.
    pub closed spec fn remaining_cells(&self) -> int {
        self.remaining as int
    }

    pub open spec fn fresh(&self, maze: &Maze) -> bool {
        &&& self.current_cell() == Vec2i { x: 0, y: 0 }
        &&& self.visited_cells().len() == maze.cell_count()
        &&& forall|i: int| 0 <= i < self.visited_cells().len() ==> self.visited_cells()[i] == (i == 0)
        &&& self.remaining_cells() == maze.cell_count() - 1
        &&& !self.is_done()
    }

    /// Seeds the walk from the clock.
    pub fn new(maze: &Maze) -> (r: Self)
        requires
            maze.wf(),
            maze.w >= 1,
            maze.h >= 1,
        ensures
            r.fresh(maze),
            maze.open_edges() == Set::<int>::empty() ==> r.inv(maze),
    {
        let seed = clock_subsec_nanos();
        Self::new_with_seed(maze, seed)
    }

    pub fn new_with_seed(maze: &Maze, seed: u32) -> (r: Self)
        requires
            maze.wf(),
            maze.w >= 1,
            maze.h >= 1,
        ensures
            r.fresh(maze),
            r.seed_state() == seed,
            maze.open_edges() == Set::<int>::empty() ==> r.inv(maze),
    {
        let start = Vec2i { x: 0, y: 0 };
        proof {
            maze.lemma_contains_coords_ok(start);
            maze.lemma_origin_index();
        }
        let mut visited = vec![false; maze.w * maze.h];
        assert(forall|i: int| 0 <= i < visited@.len() ==> !visited@[i]);
        let si = maze.idx(start);
        assert(si == 0);
        visited.set(si, true);
        let r = Self { current: start, visited, remaining: maze.w * maze.h - 1, seed, done: false };
        proof {
            assert forall|i: int| 0 <= i < r.visited@.len() implies r.visited@[i] == (i == 0) by {}
            if maze.open_edges() == Set::<int>::empty() {
                lemma_grown_tree_start(*maze, r.visited@, 0);
            }
        }
        r
    }
}

impl AldousBroder {
    /// What one step does to the generator and the maze: `self` and `m0` before it,
    /// `after` and `m1` after it, `updated` the cells it returns.
    pub open spec fn step_post(self, after: Self, m0: Maze, m1: Maze, updated: Seq<Vec2i>) -> bool {
        &&& (updated.len() == 0 ==> m1.grid@ =~= m0.grid@)
        &&& (updated.len() == 0 || updated.len() == 2)
        &&& (self.is_done() ==> updated.len() == 0 && after == self && m1
                == m0)
        &&& (!self.is_done() ==> after.seed_state() == seed_after_pick(
                m0,
                self.current_cell(),
                self.seed_state(),
            ))
        &&& (!self.is_done() ==> match neighbor_pick(
                m0,
                self.current_cell(),
                self.seed_state(),
            ) {
                None => {
                    &&& updated.len() == 0
                    &&& m1 == m0
                    &&& after.current_cell() == self.current_cell()
                    &&& after.visited_cells() =~= self.visited_cells()
                },
                Some((d, n)) => {
                    &&& after.current_cell() == n
                    &&& if self.visited_cells()[m0.index_of(n)] {
                        &&& updated.len() == 0
                        &&& m1 == m0
                        &&& after.visited_cells() =~= self.visited_cells()
                    } else {
                        &&& updated =~= seq![self.current_cell(), n]
                        &&& m1.open_edges() =~= m0.open_edges().insert(
                            m0.edge_key(self.current_cell(), d),
                        )
                        &&& after.visited_cells() =~= self.visited_cells().update(
                            m0.index_of(n),
                            true,
                        )
                    }
                },
            })
        &&& (updated.len() == 2 ==> {
                &&& updated[0] == self.current_cell()
                &&& updated[1] == after.current_cell()
                &&& !self.visited_cells()[m0.index_of(updated[1])]
                &&& exists|d|
                    updated[1] == step_toward(updated[0], d) && m1.open_edges()
                        =~= m0.open_edges().insert(m0.edge_key(updated[0], d))
            })
    }
}

impl BuildStrategy for AldousBroder {
    /// The walk stands on a visited cell, the carved passages form a tree over the visited
    /// cells, `remaining` counts the unvisited ones, and the walk stops only when that is 0.
    closed spec fn inv(&self, maze: &Maze) -> bool {
        &&& maze.wf()
        &&& self.visited@.len() == maze.cell_count()
        &&& maze.contains(self.current)
        &&& self.visited@[maze.index_of(self.current)]
        &&& grown_tree(*maze, self.visited@)
        &&& self.remaining == maze.cell_count() - marked(self.visited@).len()
        &&& self.done ==> self.remaining == 0
    }

    closed spec fn is_done(&self) -> bool {
        self.done
    }

    fn name(&self) -> (s: &'static str)
        ensures
            s@ == "Aldous-Broder"@,
    {
        "Aldous-Broder"
    }

    fn done(&self) -> (b: bool) {
        self.done
    }

    /// Moves to a random neighbour (the one `random_neighbor` picks); if it was unvisited,
    /// carves the wall behind, marks it visited and returns the two cells.
    fn step(&mut self, maze: &mut Maze) -> (updated: Vec<Vec2i>)
        ensures
            old(self).step_post(*final(self), *old(maze), *final(maze), updated@),

    {
        if self.done {
            return Vec::new();
        }
        let ghost m0 = *maze;
        let ghost v0 = self.visited@;
        let Some((dir, neighbor)) = random_neighbor(maze, self.current, &mut self.seed) else {
            return Vec::new();
        };
        let ni = maze.idx(neighbor);
        if !self.visited[ni] {
            proof {
                lemma_marked_insert(v0, ni as int);
            }
            self.visited.set(ni, true);
            maze.carve(self.current, dir);
            proof {
                lemma_grown_tree_extend(m0, v0, *maze, self.current, dir);
            }
            self.remaining = self.remaining - 1;
            if self.remaining == 0 {
                self.done = true;
            }
            let prev = self.current;
            self.current = neighbor;
            return vec![prev, neighbor];
        }
        self.current = neighbor;
        Vec::new()
    }
}

impl AldousBroder {
    /// Once the walk is done every cell is visited and the maze is a spanning tree:
    /// it has exactly `w * h - 1` passages, and a walk joins any two cells.
    pub proof fn lemma_done_is_perfect(&self, maze: &Maze)
        requires
            self.inv(maze),
            self.is_done(),
        ensures
            maze.open_edges().len() == maze.cell_count() - 1,
            maze.outer_walls_closed() ==> open_flag_count(*maze) == 2 * (maze.cell_count() - 1),
            forall|p: Vec2i, q: Vec2i|
                maze.contains(p) && maze.contains(q) ==> #[trigger] joined(*maze, p, q),
            forall|i: int| 0 <= i < maze.cell_count() ==> #[trigger] self.visited_cells()[i],
    {
        lemma_grown_tree_complete(*maze, self.visited@);
        assert forall|i: int| 0 <= i < maze.cell_count() implies #[trigger] self.visited_cells()[i] by {
            crate::forest::lemma_marked_full(self.visited@, i);
        }
        if maze.outer_walls_closed() {
            lemma_open_flag_count(*maze);
        }
    }
}

} // verus!
