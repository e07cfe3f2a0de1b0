use vstd::prelude::*;

use crate::wall_count::{lemma_open_flag_count, open_flag_count};

use super::hunt_and_kill::{hunt_result, hunt_unvisited, lemma_isolated_or_marked_saturated};
use super::{BuildStrategy, first_unvisited_neighbor, neighbor_pick, random_neighbor, seed_after_pick, unvisited_pick};
use crate::forest::{
    grown_tree, lemma_grown_tree_complete, lemma_grown_tree_extend, lemma_grown_tree_start,
    lemma_marked_all, lemma_marked_full, lemma_marked_insert, lemma_saturated_covers, marked, joined,
};
use crate::rng::{shuffle_dirs, shuffled_dirs, time_seed, xorshift_iter};
use crate::types::{Maze, Vec2i, step_toward};

verus! {

/// Aldous-Broder until about half of the cells are visited, then Hunt-and-Kill for the
/// rest: an unbiased start that still finishes quickly.
pub struct HoustonGen {
    visited: Vec<bool>,
    remaining: usize,
    threshold: usize,
    ab_current: Vec2i,
    hk_current: Option<Vec2i>,
    hunt_idx: usize,
    seed: u32,
    phase_two: bool,
    done: bool,
}

impl HoustonGen {
    pub closed spec fn visited_cells(&self) -> Seq<bool> {
        self.visited@
    }

    pub closed spec fn remaining_cells(&self) -> int {
        self.remaining as int
    }

    pub closed spec fn threshold_cells(&self) -> int {
        self.threshold as int
    }

    pub closed spec fn in_phase_two(&self) -> bool {
        self.phase_two
    }

    pub closed spec fn seed_state(&self) -> u32 {
        self.seed
    }

    /// Where the random walk of the first phase stands.
    pub closed spec fn walk_cell(&self) -> Vec2i {
        self.ab_current
    }

    /// Where the walk of the second phase stands, if it has not just got stuck.
    pub closed spec fn hunt_cell(&self) -> Option<Vec2i> {
        self.hk_current
    }

    /// A builder that has only just started its random walk at the top-left cell.
    /// The index of the cell where the next hunt starts.
    pub closed spec fn hunt_start(&self) -> int {
        self.hunt_idx as int
    }

    pub open spec fn fresh(&self, maze: &Maze) -> bool {
        &&& self.visited_cells().len() == maze.cell_count()
        &&& forall|i: int| 0 <= i < self.visited_cells().len() ==> self.visited_cells()[i] == (i == 0)
        &&& self.remaining_cells() == maze.cell_count() - 1
        &&& self.threshold_cells() == maze.cell_count() / 2
        &&& self.walk_cell() == Vec2i { x: 0, y: 0 }
        &&& self.hunt_cell() is None
        &&& self.hunt_start() == 0
        &&& !self.in_phase_two()
        &&& !self.is_done()
    }

    /// Seeds the builder from the clock.
    pub fn new(maze: &Maze) -> (r: Self)
        requires
            maze.wf(),
            maze.w >= 1,
            maze.h >= 1,
        ensures
            r.fresh(maze),
            maze.open_edges() == Set::<int>::empty() ==> r.inv(maze),
    {
        Self::new_with_seed(maze, time_seed())
    }

    pub fn new_with_seed(maze: &Maze, seed: u32) -> (r: Self)
        requires
            maze.wf(),
            maze.w >= 1,
            maze.h >= 1,
        ensures
            r.fresh(maze),
            r.seed_state() == seed,
            maze.open_edges() == Set::<int>::empty() ==> r.inv(maze),
    {
        let start = Vec2i { x: 0, y: 0 };
        proof {
            maze.lemma_contains_coords_ok(start);
            maze.lemma_origin_index();
        }
        let mut visited = vec![false; maze.w * maze.h];
        assert(forall|i: int| 0 <= i < visited@.len() ==> !visited@[i]);
        let si = maze.idx(start);
        visited.set(si, true);
        let total = maze.w * maze.h;
        let r = Self {
            visited,
            remaining: total - 1,
            threshold: total / 2,
            ab_current: start,
            hk_current: None,
            hunt_idx: 0,
            seed,
            phase_two: false,
            done: false,
        };
        proof {
            assert forall|i: int| 0 <= i < r.visited@.len() implies r.visited@[i] == (i == 0) by {}
            if maze.open_edges() == Set::<int>::empty() {
                lemma_grown_tree_start(*maze, r.visited@, 0);
            }
        }
        r
    }
}

impl BuildStrategy for HoustonGen {
    /// Both walkers stand on visited cells, the passages form a tree over the visited cells,
    /// `remaining` counts the unvisited cells, a hunt always starts from the first cell, and
    /// the builder is done only once every cell is visited.
    closed spec fn inv(&self, maze: &Maze) -> bool {
        &&& maze.wf()
        &&& maze.cell_count() >= 1
        &&& self.visited@.len() == maze.cell_count()
        &&& self.visited@[0]
        &&& grown_tree(*maze, self.visited@)
        &&& self.remaining == maze.cell_count() - marked(self.visited@).len()
        &&& maze.contains(self.ab_current)
        &&& self.visited@[maze.index_of(self.ab_current)]
        &&& self.hk_current matches Some(c) ==> maze.contains(c) && self.visited@[maze.index_of(c)]
        &&& !self.done ==> self.hunt_idx == 0
        &&& self.done ==> forall|i: int| 0 <= i < maze.cell_count() ==> self.visited@[i]
    }

    closed spec fn is_done(&self) -> bool {
        self.done
    }

    fn name(&self) -> (s: &'static str)
        ensures
            s@ == "Houston's"@,
    {
        "Houston's"
    }

    fn done(&self) -> (b: bool) {
        self.done
    }

    /// In the first phase, one move of the random walk (carving into a cell entered for the
    /// first time, and switching phase once at most `threshold` cells remain); in the second,
    /// one kill or hunt step of Hunt-and-Kill.
    fn step(&mut self, maze: &mut Maze) -> (updated: Vec<Vec2i>)
        ensures
            updated@.len() == 0 || updated@.len() == 2,
            updated@.len() == 0 ==> final(maze).grid@ == old(maze).grid@,
            updated@.len() == 2 ==> {
                &&& final(self).remaining_cells() == old(self).remaining_cells() - 1
                &&& exists|c: Vec2i|
                    (c == updated@[0] || c == updated@[1]) && !old(self).visited_cells()[old(
                        maze,
                    ).index_of(c)] && final(self).visited_cells() == old(
                        self,
                    ).visited_cells().update(old(maze).index_of(c), true)
                &&& exists|d|
                    updated@[1] == step_toward(updated@[0], d) && final(maze).open_edges()
                        == old(maze).open_edges().insert(old(maze).edge_key(updated@[0], d))
            },
            !old(self).in_phase_two() && final(self).in_phase_two() ==> final(self).remaining_cells()
                <= old(self).threshold_cells(),
            old(self).is_done() ==> updated@.len() == 0 && *final(self) == *old(self) && *final(maze)
                == *old(maze),
            old(self).in_phase_two() ==> final(self).in_phase_two(),
            !old(self).is_done() && !old(self).in_phase_two() ==> {
                let c = old(self).walk_cell();
                let v = old(self).visited_cells();
                &&& !final(self).is_done()
                &&& final(self).seed_state() == seed_after_pick(*old(maze), c, old(self).seed_state())
                &&& match neighbor_pick(*old(maze), c, old(self).seed_state()) {
                    None => {
                        &&& updated@.len() == 0
                        &&& *final(maze) == *old(maze)
                        &&& final(self).walk_cell() == c
                        &&& final(self).visited_cells() == v
                        &&& !final(self).in_phase_two()
                    },
                    Some((d, n)) => {
                        &&& final(self).walk_cell() == n
                        &&& if v[old(maze).index_of(n)] {
                            &&& updated@.len() == 0
                            &&& *final(maze) == *old(maze)
                            &&& final(self).visited_cells() == v
                            &&& !final(self).in_phase_two()
                        } else {
                            &&& updated@ == seq![c, n]
                            &&& final(maze).open_edges() == old(maze).open_edges().insert(old(maze).edge_key(c, d))
                            &&& final(self).visited_cells() == v.update(old(maze).index_of(n), true)
                            &&& final(self).remaining_cells() == old(self).remaining_cells() - 1
                            &&& final(self).in_phase_two() == (old(self).remaining_cells() - 1
                                <= old(self).threshold_cells())
                            &&& final(self).in_phase_two() ==> final(self).hunt_cell() == Some(n)
                        }
                    },
                }
            },
            !old(self).is_done() && old(self).in_phase_two() && old(self).hunt_cell() is Some ==> {
                let c = old(self).hunt_cell()->0;
                let v = old(self).visited_cells();
                &&& final(self).seed_state() == xorshift_iter(old(self).seed_state(), 3)
                &&& match unvisited_pick(*old(maze), v, c, shuffled_dirs(old(self).seed_state())) {
                    Some((d, n)) => {
                        &&& updated@ == seq![c, n]
                        &&& final(self).hunt_cell() == Some(n)
                        &&& final(self).visited_cells() == v.update(old(maze).index_of(n), true)
                        &&& final(maze).open_edges() == old(maze).open_edges().insert(old(maze).edge_key(c, d))
                        &&& final(self).remaining_cells() == old(self).remaining_cells() - 1
                        &&& final(self).is_done() == (old(self).remaining_cells() == 1)
                    },
                    None => {
                        &&& updated@.len() == 0
                        &&& *final(maze) == *old(maze)
                        &&& final(self).visited_cells() == v
                        &&& final(self).hunt_cell() is None
                        &&& !final(self).is_done()
                    },
                }
            },
            !old(self).is_done() && old(self).in_phase_two() && old(self).hunt_cell() is None ==> {
                let v = old(self).visited_cells();
                &&& final(self).seed_state() == old(self).seed_state()
                &&& match hunt_result(*old(maze), v) {
                    Some((c, d, n)) => {
                        &&& updated@ == seq![c, n]
                        &&& final(self).hunt_cell() == Some(c)
                        &&& final(self).visited_cells() == v.update(old(maze).index_of(c), true)
                        &&& final(maze).open_edges() == old(maze).open_edges().insert(old(maze).edge_key(c, d))
                        &&& final(self).remaining_cells() == old(self).remaining_cells() - 1
                        &&& final(self).is_done() == (old(self).remaining_cells() == 1)
                    },
                    None => {
                        &&& updated@.len() == 0
                        &&& *final(maze) == *old(maze)
                        &&& final(self).visited_cells() == v
                        &&& final(self).is_done()
                    },
                }
            },
    {
        if self.done {
            return Vec::new();
        }
        if !self.phase_two {
            let Some((dir, neighbor)) = random_neighbor(maze, self.ab_current, &mut self.seed) else {
                return Vec::new();
            };
            let prev = self.ab_current;
            self.ab_current = neighbor;
            let ni = maze.idx(neighbor);
            if !self.visited[ni] {
                let ghost m0 = *maze;
                let ghost v0 = self.visited@;
                proof {
                    lemma_marked_insert(v0, ni as int);
                    maze.lemma_contains_coords_ok(prev);
                    if let Some(c) = self.hk_current {
                        maze.lemma_contains_coords_ok(c);
                    }
                }
                self.visited.set(ni, true);
                maze.carve(prev, dir);
                proof {
                    lemma_grown_tree_extend(m0, v0, *maze, prev, dir);
                }
                self.remaining = self.remaining - 1;
                if self.remaining <= self.threshold {
                    self.phase_two = true;
                    self.hk_current = Some(neighbor);
                    self.hunt_idx = 0;
                }
                return vec![prev, neighbor];
            }
            return Vec::new();
        }
        if let Some(current) = self.hk_current {
            let dirs = shuffle_dirs(&mut self.seed);
            match first_unvisited_neighbor(maze, &self.visited, current, &dirs) {
                Some((dir, next)) => {
                    let ghost m0 = *maze;
                    let ghost v0 = self.visited@;
                    let ni = maze.idx(next);
                    proof {
                        lemma_marked_insert(v0, ni as int);
                        maze.lemma_contains_coords_ok(self.ab_current);
                    }
                    self.visited.set(ni, true);
                    maze.carve(current, dir);
                    proof {
                        lemma_grown_tree_extend(m0, v0, *maze, current, dir);
                    }
                    self.remaining = self.remaining - 1;
                    self.hk_current = Some(next);
                    self.hunt_idx = 0;
                    if self.remaining == 0 {
                        proof {
                            assert forall|i: int| 0 <= i < maze.cell_count() implies self.visited@[i] by {
                                lemma_marked_full(self.visited@, i);
                            }
                        }
                        self.done = true;
                    }
                    return vec![current, next];
                },
                None => {
                    self.hk_current = None;
                    return Vec::new();
                },
            }
        }
        match hunt_unvisited(maze, &self.visited, &mut self.hunt_idx) {
            Some((cell, dir, neighbor)) => {
                let ghost m0 = *maze;
                let ghost v0 = self.visited@;
                let od = Maze::opposite(dir);
                assert(step_toward(neighbor, od) == cell);
                let ci = maze.idx(cell);
                proof {
                    lemma_marked_insert(v0, ci as int);
                    maze.lemma_contains_coords_ok(self.ab_current);
                }
                self.visited.set(ci, true);
                maze.carve(cell, dir);
                proof {
                    maze.lemma_contains_coords_ok(cell);
                    m0.lemma_contains_coords_ok(neighbor);
                    m0.lemma_edge_key(cell, dir);
                    m0.lemma_edge_key(neighbor, od);
                    lemma_grown_tree_extend(m0, v0, *maze, neighbor, od);
                }
                self.remaining = self.remaining - 1;
                self.hk_current = Some(cell);
                self.hunt_idx = 0;
                if self.remaining == 0 {
                    proof {
                        assert forall|i: int| 0 <= i < maze.cell_count() implies self.visited@[i] by {
                            lemma_marked_full(self.visited@, i);
                        }
                    }
                    self.done = true;
                }
                vec![cell, neighbor]
            },
            None => {
                proof {
                    lemma_isolated_or_marked_saturated(*maze, self.visited@);
                    lemma_saturated_covers(*maze, self.visited@);
                }
                self.done = true;
                Vec::new()
            },
        }
    }
}

impl HoustonGen {
    /// Once the builder is done every cell is visited and the maze is a spanning tree:
    /// it has exactly `w * h - 1` passages, and a walk joins any two cells.
    pub proof fn lemma_done_is_perfect(&self, maze: &Maze)
        requires
            self.inv(maze),
            self.is_done(),
        ensures
            maze.open_edges().len() == maze.cell_count() - 1,
            maze.outer_walls_closed() ==> open_flag_count(*maze) == 2 * (maze.cell_count() - 1),
            forall|p: Vec2i, q: Vec2i|
                maze.contains(p) && maze.contains(q) ==> #[trigger] joined(*maze, p, q),
            forall|i: int| 0 <= i < maze.cell_count() ==> #[trigger] self.visited_cells()[i],
    {
        lemma_marked_all(self.visited@);
        lemma_grown_tree_complete(*maze, self.visited@);
        if maze.outer_walls_closed() {
            lemma_open_flag_count(*maze);
        }
    }
}

} // verus!
