use vstd::prelude::*;

use crate::wall_count::{lemma_open_flag_count, open_flag_count};

use super::{BuildStrategy, first_unvisited_neighbor, lemma_no_unvisited_saturated, unvisited_pick};
use crate::forest::{
    grown_tree, lemma_grown_tree_complete, lemma_grown_tree_extend, lemma_grown_tree_start,
    lemma_marked_all, lemma_saturated_covers, lemma_settled_mark, lemma_settled_same_dims, marked, saturated,
    settled_except, joined,
};
use crate::rng::{clock_subsec_nanos, shuffle_dirs, shuffled_dirs, xorshift, xorshift_iter, xorshift_next};
use crate::types::{Dir, Maze, Vec2i, step_toward};

verus! {

/// Which of `n` active cells the draws from state `s` pick, and the state after them: the
/// newest one unless the first draw is 0 modulo 4, in which case the second draw modulo `n`.
pub open spec fn growing_pick(n: int, s: u32) -> (int, u32) {
    let s1 = xorshift_next(s);
    if s1 % 4 == 0 {
        let s2 = xorshift_next(s1);
        ((s2 as int) % n, s2)
    } else {
        (n - 1, s1)
    }
}

/// What a step finds among the active cells `cells` with the generator in state `s`: it
/// picks a cell by `growing_pick`, shuffles the four directions, and carves towards the first
/// that leads to an unvisited cell; a cell with none is removed (the newest cell takes its
/// place) and the step picks again. Gives the active cells at the carve, the index picked
/// with the direction and cell carved into (if any), and the state after the draws.
pub open spec fn growing_scan(m: Maze, v: Seq<bool>, cells: Seq<Vec2i>, s: u32) -> (
    Seq<Vec2i>,
    Option<(int, Dir, Vec2i)>,
    u32,
)
    decreases cells.len(),
{
    if cells.len() == 0 {
        (cells, None, s)
    } else {
        let (i, s1) = growing_pick(cells.len() as int, s);
        let s2 = xorshift_iter(s1, 3);
        match unvisited_pick(m, v, cells[i], shuffled_dirs(s1)) {
            Some((d, n)) => (cells, Some((i, d, n)), s2),
            None => growing_scan(m, v, cells.update(i, cells.last()).drop_last(), s2),
        }
    }
}

/// Keeps a list of active cells; each step grows from the newest one three times in
/// four and from a random one otherwise, giving long corridors with occasional branches.
pub struct GrowingTree {
    cells: Vec<Vec2i>,
    visited: Vec<bool>,
    seed: u32,
    done: bool,
}

impl GrowingTree {
    pub closed spec fn active_cells(&self) -> Seq<Vec2i> {
        self.cells@
    }

    pub closed spec fn visited_cells(&self) -> Seq<bool> {
        self.visited@
    }

    pub closed spec fn seed_state(&self) -> u32 {
        self.seed
    }

    /// A builder whose only active cell is the top-left one.
    pub open spec fn fresh(&self, maze: &Maze) -> bool {
        &&& self.active_cells() == seq![Vec2i { x: 0, y: 0 }]
        &&& self.visited_cells().len() == maze.cell_count()
        &&& forall|i: int| 0 <= i < self.visited_cells().len() ==> self.visited_cells()[i] == (i == 0)
        &&& !self.is_done()
    }

    /// Seeds the builder from the clock.
    pub fn new(maze: &Maze) -> (r: Self)
        requires
            maze.wf(),
            maze.w >= 1,
            maze.h >= 1,
        ensures
            r.fresh(maze),
            maze.open_edges() == Set::<int>::empty() ==> r.inv(maze),
    {
        let seed = clock_subsec_nanos();
        Self::new_with_seed(maze, seed)
    }

    pub fn new_with_seed(maze: &Maze, seed: u32) -> (r: Self)
        requires
            maze.wf(),
            maze.w >= 1,
            maze.h >= 1,
        ensures
            r.fresh(maze),
            r.seed_state() == seed,
            maze.open_edges() == Set::<int>::empty() ==> r.inv(maze),
    {
        let start = Vec2i { x: 0, y: 0 };
        proof {
            maze.lemma_contains_coords_ok(start);
            maze.lemma_origin_index();
        }
        let mut visited = vec![false; maze.w * maze.h];
        assert(forall|i: int| 0 <= i < visited@.len() ==> !visited@[i]);
        let si = maze.idx(start);
        visited.set(si, true);
        let r = Self { cells: vec![start], visited, seed, done: false };
        proof {
            assert forall|i: int| 0 <= i < r.visited@.len() implies r.visited@[i] == (i == 0) by {}
            assert(r.cells@ =~= seq![start]);
            if maze.open_edges() == Set::<int>::empty() {
                lemma_grown_tree_start(*maze, r.visited@, 0);
            }
            assert forall|p: Vec2i|
                #![trigger saturated(*maze, r.visited@, p)]
                maze.contains(p) && r.visited@[maze.index_of(p)] && !r.cells@.contains(p) implies saturated(*maze, r.visited@, p) by {
                maze.lemma_contains_coords_ok(p);
                assert(maze.index_of(p) == 0);
                maze.lemma_index_of_injective(p, start);
                assert(r.cells@[0] == p);
            }
        }
        r
    }
}

impl BuildStrategy for GrowingTree {
    /// The active cells are visited, the passages form a tree over the visited cells,
    /// every visited cell that is not active has no unvisited neighbour, and the builder is
    /// done only once no cell is active.
    closed spec fn inv(&self, maze: &Maze) -> bool {
        &&& maze.wf()
        &&& maze.cell_count() >= 1
        &&& self.visited@.len() == maze.cell_count()
        &&& self.visited@[0]
        &&& grown_tree(*maze, self.visited@)
        &&& forall|i: int|
            0 <= i < self.cells@.len() ==> maze.contains(#[trigger] self.cells@[i])
                && self.visited@[maze.index_of(self.cells@[i])]
        &&& settled_except(*maze, self.visited@, self.cells@)
        &&& self.done ==> self.cells@.len() == 0
    }

    closed spec fn is_done(&self) -> bool {
        self.done
    }

    fn name(&self) -> (s: &'static str)
        ensures
            s@ == "Growing Tree"@,
    {
        "Growing Tree"
    }

    fn done(&self) -> (b: bool) {
        self.done
    }

    /// Picks an active cell, drops it if it has no unvisited neighbour, and otherwise carves
    /// to a random unvisited neighbour, which becomes active; returns the two cells.
    fn step(&mut self, maze: &mut Maze) -> (updated: Vec<Vec2i>)
        ensures
            ({
                let (cs, pick, s_end) = growing_scan(
                    *old(maze),
                    old(self).visited_cells(),
                    old(self).active_cells(),
                    old(self).seed_state(),
                );
                &&& final(self).seed_state() == s_end
                &&& match pick {
                    None => {
                        &&& updated@.len() == 0
                        &&& final(maze).grid@ == old(maze).grid@
                        &&& final(self).is_done()
                        &&& final(self).active_cells().len() == 0
                    },
                    Some((i, d, n)) => {
                        &&& updated@ == seq![cs[i], n]
                        &&& n == step_toward(cs[i], d)
                        &&& final(maze).open_edges() == old(maze).open_edges().insert(
                            old(maze).edge_key(cs[i], d),
                        )
                        &&& final(self).active_cells() == cs.push(n)
                        &&& final(self).visited_cells() == old(self).visited_cells().update(
                            old(maze).index_of(n),
                            true,
                        )
                        &&& !final(self).is_done()
                    },
                }
            }),
    {
        loop
            invariant
                self.inv(maze),
                maze.grid@ == old(maze).grid@,
                maze.w == old(maze).w,
                maze.h == old(maze).h,
                self.visited@ == old(self).visited@,
                self.done == old(self).done,
                growing_scan(*maze, self.visited@, self.cells@, self.seed) == growing_scan(
                    *old(maze),
                    old(self).visited@,
                    old(self).cells@,
                    old(self).seed,
                ),
            decreases self.cells@.len(),
        {
            if self.cells.len() == 0 {
                self.done = true;
                return Vec::new();
            }
            let ghost seed0 = self.seed;
            let pick_idx = if xorshift(&mut self.seed) % 4 == 0 {
                (xorshift(&mut self.seed) as usize) % self.cells.len()
            } else {
                self.cells.len() - 1
            };
            let ghost seed1 = self.seed;
            assert(growing_pick(self.cells@.len() as int, seed0) == (pick_idx as int, seed1));
            let cell = self.cells[pick_idx];
            assert(self.cells@.contains(cell));
            let dirs = shuffle_dirs(&mut self.seed);
            match first_unvisited_neighbor(maze, &self.visited, cell, &dirs) {
                Some((dir, neighbor)) => {
                    let ghost m0 = *maze;
                    let ghost v0 = self.visited@;
                    let ghost s0 = self.cells@;
                    let ni = maze.idx(neighbor);
                    self.visited.set(ni, true);
                    maze.carve(cell, dir);
                    self.cells.push(neighbor);
                    proof {
                        lemma_grown_tree_extend(m0, v0, *maze, cell, dir);
                        assert forall|p: Vec2i| #[trigger] s0.contains(p) implies self.cells@.contains(p) by {
                            let j = choose|j: int| 0 <= j < s0.len() && s0[j] == p;
                            assert(self.cells@[j] == p);
                        }
                        assert forall|p: Vec2i| m0.contains(p) && m0.index_of(p) == ni implies #[trigger] self.cells@.contains(p) by {
                            m0.lemma_index_of_injective(p, neighbor);
                            assert(self.cells@[s0.len() as int] == neighbor);
                        }
                        lemma_settled_mark(m0, v0, s0, ni as int, self.cells@);
                        lemma_settled_same_dims(m0, *maze, self.visited@, self.cells@);
                        assert forall|i: int|
                            0 <= i < self.cells@.len() implies maze.contains(#[trigger] self.cells@[i])
                                && self.visited@[maze.index_of(self.cells@[i])] by {
                            if i < s0.len() {
                                assert(self.cells@[i] == s0[i]);
                                m0.lemma_contains_coords_ok(s0[i]);
                            }
                        }
                    }
                    proof {
                        assert(self.cells@ =~= s0.push(neighbor));
                    }
                    return vec![cell, neighbor];
                },
                None => {
                    let ghost s0 = self.cells@;
                    proof {
                        lemma_no_unvisited_saturated(*maze, self.visited@, cell, dirs@);
                    }
                    self.cells.swap_remove(pick_idx);
                    proof {
                        assert forall|p: Vec2i|
                            #![trigger saturated(*maze, self.visited@, p)]
                            maze.contains(p) && self.visited@[maze.index_of(p)] && !self.cells@.contains(p) implies saturated(*maze, self.visited@, p) by {
                            if p != cell && s0.contains(p) {
                                let j = choose|j: int| 0 <= j < s0.len() && s0[j] == p;
                                if j == s0.len() - 1 {
                                    assert(self.cells@[pick_idx as int] == p);
                                } else {
                                    assert(self.cells@[j] == p);
                                }
                            }
                        }
                        assert forall|i: int|
                            0 <= i < self.cells@.len() implies maze.contains(#[trigger] self.cells@[i])
                                && self.visited@[maze.index_of(self.cells@[i])] by {
                            if i == pick_idx {
                                assert(self.cells@[i] == s0[s0.len() - 1]);
                            } else {
                                assert(self.cells@[i] == s0[i]);
                            }
                        }
                    }
                },
            }
        }
    }
}

impl GrowingTree {
    /// Once the builder is done every cell is visited and the maze is a spanning tree:
    /// it has exactly `w * h - 1` passages, and a walk joins any two cells.
    pub proof fn lemma_done_is_perfect(&self, maze: &Maze)
        requires
            self.inv(maze),
            self.is_done(),
        ensures
            maze.open_edges().len() == maze.cell_count() - 1,
            maze.outer_walls_closed() ==> open_flag_count(*maze) == 2 * (maze.cell_count() - 1),
            forall|p: Vec2i, q: Vec2i|
                maze.contains(p) && maze.contains(q) ==> #[trigger] joined(*maze, p, q),
            forall|i: int| 0 <= i < maze.cell_count() ==> #[trigger] self.visited_cells()[i],
    {
        assert forall|p: Vec2i| maze.contains(p) && self.visited@[maze.index_of(p)] implies #[trigger] saturated(*maze, self.visited@, p) by {
            assert(!self.cells@.contains(p));
        }
        lemma_saturated_covers(*maze, self.visited@);
        lemma_marked_all(self.visited@);
        lemma_grown_tree_complete(*maze, self.visited@);
        if maze.outer_walls_closed() {
            lemma_open_flag_count(*maze);
        }
    }
}

} // verus!
