use vstd::prelude::*;

use crate::wall_count::{lemma_open_flag_count, open_flag_count};

use super::{BuildStrategy, first_unvisited_neighbor, lemma_no_unvisited_saturated, unvisited_pick};
use crate::forest::{
    grown_tree, lemma_grown_tree_complete, lemma_grown_tree_extend, lemma_grown_tree_start,
    lemma_linked_extend, lemma_marked_all, lemma_marked_insert, lemma_saturated_covers,
    lemma_settled_mark, lemma_settled_same_dims, has_opening, linked, marked, saturated,
    settled_except, joined,
};
use crate::rng::{clock_subsec_nanos, shuffle_dirs, shuffled_dirs, xorshift_iter};
use crate::types::{Dir, Maze, Vec2i, step_toward};

verus! {

/// What a step finds on the stack `st` with the generator in state `s`: the top cell
/// shuffles the four directions (three draws) and carves towards the first that leads to an
/// unvisited cell; a cell with none is popped and the search goes on below. Gives the stack
/// height at the carve, the direction and cell carved into (if any), and the state after.
pub open spec fn backtrack_scan(m: Maze, v: Seq<bool>, st: Seq<Vec2i>, s: u32) -> (int, Option<(Dir, Vec2i)>, u32)
    decreases st.len(),
{
    if st.len() == 0 {
        (0, None, s)
    } else {
        match unvisited_pick(m, v, st.last(), shuffled_dirs(s)) {
            Some(p) => (st.len() as int, Some(p), xorshift_iter(s, 3)),
            None => backtrack_scan(m, v, st.drop_last(), xorshift_iter(s, 3)),
        }
    }
}

/// Depth-first search with a random order of directions at every cell; carves long,
/// winding corridors.
pub struct RecursiveBacktracker {
    stack: Vec<Vec2i>,
    visited: Vec<bool>,
    seed: u32,
    done: bool,
}

impl RecursiveBacktracker {
    pub closed spec fn stack_cells(&self) -> Seq<Vec2i> {
        self.stack@
    }

    pub closed spec fn visited_cells(&self) -> Seq<bool> {
        self.visited@
    }

    pub closed spec fn seed_state(&self) -> u32 {
        self.seed
    }

    /// A search that holds only the top-left cell of `maze`.
    pub open spec fn fresh(&self, maze: &Maze) -> bool {
        &&& self.stack_cells() == seq![Vec2i { x: 0, y: 0 }]
        &&& self.visited_cells().len() == maze.cell_count()
        &&& forall|i: int| 0 <= i < self.visited_cells().len() ==> self.visited_cells()[i] == (i == 0)
        &&& !self.is_done()
    }

    /// Seeds the search from the clock.
    pub fn new(maze: &Maze) -> (r: Self)
        requires
            maze.wf(),
            maze.w >= 1,
            maze.h >= 1,
        ensures
            r.fresh(maze),
            maze.open_edges() == Set::<int>::empty() ==> r.inv(maze),
    {
        let seed = clock_subsec_nanos();
        Self::new_with_seed(maze, seed)
    }

    pub fn new_with_seed(maze: &Maze, seed: u32) -> (r: Self)
        requires
            maze.wf(),
            maze.w >= 1,
            maze.h >= 1,
        ensures
            r.fresh(maze),
            r.seed_state() == seed,
            maze.open_edges() == Set::<int>::empty() ==> r.inv(maze),
    {
        let start = Vec2i { x: 0, y: 0 };
        proof {
            maze.lemma_contains_coords_ok(start);
            maze.lemma_origin_index();
        }
        let mut visited = vec![false; maze.w * maze.h];
        assert(forall|i: int| 0 <= i < visited@.len() ==> !visited@[i]);
        let si = maze.idx(start);
        visited.set(si, true);
        let r = Self { stack: vec![start], visited, seed, done: false };
        proof {
            assert forall|i: int| 0 <= i < r.visited@.len() implies r.visited@[i] == (i == 0) by {}
            assert(r.stack@ =~= seq![start]);
            if maze.open_edges() == Set::<int>::empty() {
                lemma_grown_tree_start(*maze, r.visited@, 0);
            }
            assert(marked(r.visited@) =~= set![0int]);
            assert forall|p: Vec2i|
                #![trigger saturated(*maze, r.visited@, p)]
                maze.contains(p) && r.visited@[maze.index_of(p)] && !r.stack@.contains(p) implies saturated(*maze, r.visited@, p) by {
                maze.lemma_contains_coords_ok(p);
                assert(maze.index_of(p) == 0);
                maze.lemma_index_of_injective(p, start);
                assert(r.stack@[0] == p);
            }
        }
        r
    }
}

impl RecursiveBacktracker {
    /// What one step does to the generator and the maze: `self` and `m0` before it,
    /// `after` and `m1` after it, `updated` the cells it returns.
    pub open spec fn step_post(self, after: Self, m0: Maze, m1: Maze, updated: Seq<Vec2i>) -> bool {
        &&& ({
                let st = self.stack_cells();
                let (k, pick, s_end) = backtrack_scan(m0, self.visited_cells(), st, self.seed_state());
                &&& after.seed_state() == s_end
                &&& match pick {
                    None => updated.len() == 0 && after.stack_cells().len() == 0,
                    Some((d, n)) => {
                        &&& updated =~= seq![st[k - 1], n]
                        &&& n == step_toward(st[k - 1], d)
                        &&& m1.open_edges() =~= m0.open_edges().insert(m0.edge_key(st[k - 1], d))
                        &&& after.stack_cells() =~= st.take(k).push(n)
                        &&& after.visited_cells() =~= self.visited_cells().update(m0.index_of(n), true)
                    },
                }
            })
        &&& (updated.len() == 0 || updated.len() == 2)
        &&& (updated.len() == 0 ==> m1.grid@ =~= m0.grid@ && after.is_done())
        &&& (updated.len() == 2 ==> {
                &&& !self.visited_cells()[m0.index_of(updated[1])]
                &&& !after.is_done()
                &&& after.stack_cells().last() == updated[1]
                &&& exists|d|
                    updated[1] == step_toward(updated[0], d) && m1.open_edges()
                        =~= m0.open_edges().insert(m0.edge_key(updated[0], d))
            })
    }
}

impl BuildStrategy for RecursiveBacktracker {
    /// The stack holds visited cells, the passages form a tree over the visited cells,
    /// every visited cell off the stack has no unvisited neighbour, and the search is done
    /// only once the stack is empty.
    closed spec fn inv(&self, maze: &Maze) -> bool {
        &&& maze.wf()
        &&& maze.cell_count() >= 1
        &&& self.visited@.len() == maze.cell_count()
        &&& self.visited@[0]
        &&& grown_tree(*maze, self.visited@)
        &&& forall|i: int|
            0 <= i < self.stack@.len() ==> maze.contains(#[trigger] self.stack@[i])
                && self.visited@[maze.index_of(self.stack@[i])]
        &&& settled_except(*maze, self.visited@, self.stack@)
        &&& linked(*maze, self.visited@)
        &&& self.done ==> self.stack@.len() == 0
    }

    closed spec fn is_done(&self) -> bool {
        self.done
    }

    fn name(&self) -> (s: &'static str)
        ensures
            s@ == "Recursive Backtracker"@,
    {
        "Recursive Backtracker"
    }

    fn done(&self) -> (b: bool) {
        self.done
    }

    /// Backtracks past dead ends, then carves from the top of the stack to a random
    /// unvisited neighbour and returns the two cells; returns nothing once the stack runs out.
    fn step(&mut self, maze: &mut Maze) -> (updated: Vec<Vec2i>)
        ensures
            old(self).step_post(*final(self), *old(maze), *final(maze), updated@),

    {
        loop
            invariant
                self.inv(maze),
                maze.grid@ == old(maze).grid@,
                maze.w == old(maze).w,
                maze.h == old(maze).h,
                self.visited@ == old(self).visited@,
                self.stack@.len() <= old(self).stack@.len(),
                self.stack@ == old(self).stack@.take(self.stack@.len() as int),
                backtrack_scan(*maze, self.visited@, self.stack@, self.seed) == backtrack_scan(
                    *old(maze),
                    old(self).visited@,
                    old(self).stack@,
                    old(self).seed,
                ),
            decreases self.stack@.len(),
        {
            if self.stack.len() == 0 {
                self.done = true;
                return Vec::new();
            }
            let cell = self.stack[self.stack.len() - 1];
            assert(self.stack@.contains(cell));
            let dirs = shuffle_dirs(&mut self.seed);
            match first_unvisited_neighbor(maze, &self.visited, cell, &dirs) {
                Some((dir, neighbor)) => {
                    let ghost m0 = *maze;
                    let ghost v0 = self.visited@;
                    let ghost s0 = self.stack@;
                    let ni = maze.idx(neighbor);
                    self.visited.set(ni, true);
                    maze.carve(cell, dir);
                    self.stack.push(neighbor);
                    proof {
                        lemma_grown_tree_extend(m0, v0, *maze, cell, dir);
                        lemma_marked_insert(v0, ni as int);
                        lemma_linked_extend(m0, v0, *maze, cell, dir);
                        assert forall|p: Vec2i| #[trigger] s0.contains(p) implies self.stack@.contains(p) by {
                            let j = choose|j: int| 0 <= j < s0.len() && s0[j] == p;
                            assert(self.stack@[j] == p);
                        }
                        assert forall|p: Vec2i| m0.contains(p) && m0.index_of(p) == ni implies #[trigger] self.stack@.contains(p) by {
                            m0.lemma_index_of_injective(p, neighbor);
                            assert(self.stack@[s0.len() as int] == neighbor);
                        }
                        lemma_settled_mark(m0, v0, s0, ni as int, self.stack@);
                        lemma_settled_same_dims(m0, *maze, self.visited@, self.stack@);
                        assert forall|i: int|
                            0 <= i < self.stack@.len() implies maze.contains(#[trigger] self.stack@[i])
                                && self.visited@[maze.index_of(self.stack@[i])] by {
                            if i < s0.len() {
                                assert(self.stack@[i] == s0[i]);
                                m0.lemma_contains_coords_ok(s0[i]);
                            }
                        }
                    }
                    proof {
                        assert(self.stack@ =~= old(self).stack@.take(s0.len() as int).push(neighbor));
                    }
                    return vec![cell, neighbor];
                },
                None => {
                    let ghost s0 = self.stack@;
                    proof {
                        lemma_no_unvisited_saturated(*maze, self.visited@, cell, dirs@);
                    }
                    self.stack.pop();
                    proof {
                        assert(self.stack@ =~= s0.drop_last());
                        assert(self.stack@ =~= old(self).stack@.take(self.stack@.len() as int));
                        assert forall|p: Vec2i|
                            #![trigger saturated(*maze, self.visited@, p)]
                            maze.contains(p) && self.visited@[maze.index_of(p)] && !self.stack@.contains(p) implies saturated(*maze, self.visited@, p) by {
                            if p != cell && s0.contains(p) {
                                let j = choose|j: int| 0 <= j < s0.len() && s0[j] == p;
                                assert(self.stack@[j] == p);
                            }
                        }
                    }
                },
            }
        }
    }
}

impl RecursiveBacktracker {
    pub proof fn lemma_inv_maze_wf(&self, maze: &Maze)
        requires
            self.inv(maze),
        ensures
            maze.wf(),
    {
    }

    /// Once the search is done every cell is visited and the maze is a spanning tree:
    /// it has exactly `w * h - 1` passages, and a walk joins any two cells.
    pub proof fn lemma_done_is_perfect(&self, maze: &Maze)
        requires
            self.inv(maze),
            self.is_done(),
        ensures
            maze.open_edges().len() == maze.cell_count() - 1,
            maze.outer_walls_closed() ==> open_flag_count(*maze) == 2 * (maze.cell_count() - 1),
            forall|p: Vec2i, q: Vec2i|
                maze.contains(p) && maze.contains(q) ==> #[trigger] joined(*maze, p, q),
            forall|i: int| 0 <= i < maze.cell_count() ==> #[trigger] self.visited_cells()[i],
            maze.cell_count() >= 2 ==> forall|p: Vec2i| #[trigger]
                maze.contains(p) ==> has_opening(*maze, p),
    {
        assert forall|p: Vec2i| maze.contains(p) && self.visited@[maze.index_of(p)] implies #[trigger] saturated(*maze, self.visited@, p) by {
            assert(!self.stack@.contains(p));
        }
        lemma_saturated_covers(*maze, self.visited@);
        lemma_marked_all(self.visited@);
        lemma_grown_tree_complete(*maze, self.visited@);
        assert forall|p: Vec2i| #[trigger] maze.contains(p) && maze.cell_count() >= 2 implies has_opening(*maze, p) by {
            maze.lemma_contains_coords_ok(p);
            assert(self.visited@[maze.index_of(p)]);
        }
        if maze.outer_walls_closed() {
            lemma_open_flag_count(*maze);
        }
    }
}

} // verus!
