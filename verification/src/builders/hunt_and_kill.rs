use vstd::prelude::*;

use crate::wall_count::{lemma_open_flag_count, open_flag_count};

use super::{BuildStrategy, first_unvisited_neighbor, lemma_no_unvisited_saturated, unvisited_pick};
use crate::forest::{
    grown_tree, lemma_grown_tree_complete, lemma_grown_tree_extend, lemma_grown_tree_start,
    lemma_marked_all, lemma_saturated_covers, saturated, joined,
};
use crate::rng::{shuffle_dirs, shuffled_dirs, time_seed, xorshift_iter};
use crate::types::{Dir, Maze, Vec2i, dir_at, opposite_dir, step_toward};

verus! {

/// No neighbour of `p` inside the grid is marked in `v`.
pub open spec fn isolated(m: Maze, v: Seq<bool>, p: Vec2i) -> bool {
    forall|d: Dir| #[trigger]
        m.contains(step_toward(p, d)) ==> !v[m.index_of(step_toward(p, d))]
}

/// Scans the cells in row-major order from index `*hunt_idx` for an unvisited cell with
/// a visited neighbour (neighbours tried in the order N, E, S, W). On success `*hunt_idx`
/// is one past the cell found; otherwise it is `v.len()` and every scanned cell is visited
/// or has no visited neighbour.
pub fn hunt_unvisited(maze: &Maze, visited: &Vec<bool>, hunt_idx: &mut usize) -> (r: Option<
    (Vec2i, Dir, Vec2i),
>)
    requires
        maze.dims_ok(),
        visited@.len() == maze.cell_count(),
        *old(hunt_idx) <= visited@.len(),
    ensures
        match r {
            Some((cell, d, nb)) => {
                &&& maze.contains(cell)
                &&& maze.index_of(cell) == *final(hunt_idx) - 1
                &&& !visited@[maze.index_of(cell)]
                &&& cell == maze.cell_at(*final(hunt_idx) - 1)
                &&& nb == step_toward(cell, d)
                &&& maze.contains(nb)
                &&& visited@[maze.index_of(nb)]
                &&& *old(hunt_idx) < *final(hunt_idx) <= visited@.len()
                &&& forall|i: int|
                    *old(hunt_idx) <= i < *final(hunt_idx) - 1 ==> visited@[i] || isolated(
                        *maze,
                        visited@,
                        maze.cell_at(i),
                    )
            },
            None => {
                &&& *final(hunt_idx) == visited@.len()
                &&& forall|i: int|
                    *old(hunt_idx) <= i < visited@.len() ==> visited@[i] || isolated(
                        *maze,
                        visited@,
                        maze.cell_at(i),
                    )
            },
        },
        *old(hunt_idx) == 0 ==> r == hunt_result(*maze, visited@),
{
    let n = visited.len();
    while *hunt_idx < n
        invariant
            maze.dims_ok(),
            n == visited@.len(),
            n == maze.cell_count(),
            *old(hunt_idx) <= *hunt_idx <= n,
            forall|i: int|
                *old(hunt_idx) <= i < *hunt_idx ==> visited@[i] || isolated(
                    *maze,
                    visited@,
                    maze.cell_at(i),
                ),
        decreases n - *hunt_idx,
    {
        let idx = *hunt_idx;
        *hunt_idx = *hunt_idx + 1;
        if visited[idx] {
            continue;
        }
        proof {
            crate::types::lemma_index_decode(maze.w as int, maze.h as int, idx as int);
        }
        let cell = Vec2i { x: (idx % maze.w) as i32, y: (idx / maze.w) as i32 };
        assert(cell == maze.cell_at(idx as int));
        proof {
            maze.lemma_contains_coords_ok(cell);
        }
        assert(maze.index_of(cell) == idx);
        let mut k: usize = 0;
        while k < 4
            invariant
                k <= 4,
                *hunt_idx == idx + 1,
                *old(hunt_idx) <= idx < n,
                !visited@[idx as int],
                maze.index_of(cell) == idx,
                cell == maze.cell_at(idx as int),
                forall|i: int|
                    *old(hunt_idx) <= i < idx ==> visited@[i] || isolated(
                        *maze,
                        visited@,
                        maze.cell_at(i),
                    ),
                maze.dims_ok(),
                maze.contains(cell),
                crate::types::coords_ok(cell),
                n == visited@.len(),
                n == maze.cell_count(),
                forall|j: int|
                    0 <= j < k ==> !(maze.contains(step_toward(cell, #[trigger] dir_at_spec(j)))
                        && visited@[maze.index_of(step_toward(cell, dir_at_spec(j)))]),
            decreases 4 - k,
        {
            let dir = dir_at(k);
            let neighbor = maze.neighbor(cell, dir);
            if maze.in_bounds(neighbor) && visited[maze.idx(neighbor)] {
                assert(dir == dir_at_spec(k as int));
                assert(first_visited_dir(*maze, visited@, cell, k as int));
                proof {
                    if *old(hunt_idx) == 0 {
                        assert(maze.contains(step_toward(cell, dir)));
                        assert(hunt_target(*maze, visited@, idx as int));
                        lemma_hunt_pick_some(*maze, visited@, idx as int, k as int);
                    }
                }
                return Some((cell, dir, neighbor));
            }
            k = k + 1;
        }
        proof {
            assert forall|d: Dir| #[trigger]
                maze.contains(step_toward(cell, d)) implies !visited@[maze.index_of(step_toward(cell, d))] by {
                let j = crate::types::dir_index(d);
                assert(dir_at_spec(j) == d);
            }
            assert(isolated(*maze, visited@, maze.cell_at(idx as int)));
        }
    }
    proof {
        if *old(hunt_idx) == 0 {
            lemma_hunt_pick_none(*maze, visited@);
        }
    }
    None
}

pub open spec fn dir_at_spec(j: int) -> Dir {
    crate::types::dir_from_index(j)
}

/// Direction number `k` of N, E, S, W is the first that leads from `c` to a marked cell.
pub open spec fn first_visited_dir(m: Maze, v: Seq<bool>, c: Vec2i, k: int) -> bool {
    &&& 0 <= k < 4
    &&& m.contains(step_toward(c, dir_at_spec(k)))
    &&& v[m.index_of(step_toward(c, dir_at_spec(k)))]
    &&& forall|j: int|
        0 <= j < k ==> !(m.contains(step_toward(c, #[trigger] dir_at_spec(j))) && v[m.index_of(
            step_toward(c, dir_at_spec(j)),
        )])
}

/// The first of N, E, S, W that leads from `c` to a marked cell.
pub open spec fn visited_dir_pick(m: Maze, v: Seq<bool>, c: Vec2i) -> Dir {
    dir_at_spec(choose|k: int| first_visited_dir(m, v, c, k))
}

/// The index of the cell where a hunt lands, if any.
pub open spec fn hunt_pick(m: Maze, v: Seq<bool>) -> Option<int> {
    if exists|i: int| hunt_target(m, v, i) {
        Some(choose|i: int| hunt_target(m, v, i))
    } else {
        None
    }
}

/// Where a hunt lands and how it joins the maze: the cell, the first direction from it to
/// a marked cell, and that cell.
pub open spec fn hunt_result(m: Maze, v: Seq<bool>) -> Option<(Vec2i, Dir, Vec2i)> {
    match hunt_pick(m, v) {
        Some(i) => {
            let c = m.cell_at(i);
            let d = visited_dir_pick(m, v, c);
            Some((c, d, step_toward(c, d)))
        },
        None => None,
    }
}

/// A hunt that lands on cell `i` joins it through direction number `k`.
pub proof fn lemma_hunt_pick_some(m: Maze, v: Seq<bool>, i: int, k: int)
    requires
        hunt_target(m, v, i),
        first_visited_dir(m, v, m.cell_at(i), k),
    ensures
        hunt_pick(m, v) == Some(i),
        visited_dir_pick(m, v, m.cell_at(i)) == dir_at_spec(k),
{
    let i2 = choose|i2: int| hunt_target(m, v, i2);
    if i2 < i {
        assert(v[i2] || isolated(m, v, m.cell_at(i2)));
    } else if i < i2 {
        assert(v[i] || isolated(m, v, m.cell_at(i)));
    }
    let c = m.cell_at(i);
    let k2 = choose|k2: int| first_visited_dir(m, v, c, k2);
    if k2 < k {
        assert(!(m.contains(step_toward(c, dir_at_spec(k2))) && v[m.index_of(step_toward(c, dir_at_spec(k2)))]));
    } else if k < k2 {
        assert(!(m.contains(step_toward(c, dir_at_spec(k))) && v[m.index_of(step_toward(c, dir_at_spec(k)))]));
    }
}

/// When every cell is marked or has no marked neighbour, a hunt lands nowhere.
pub proof fn lemma_hunt_pick_none(m: Maze, v: Seq<bool>)
    requires
        forall|i: int| 0 <= i < v.len() ==> v[i] || isolated(m, v, m.cell_at(i)),
    ensures
        hunt_pick(m, v) is None,
{
    if exists|i: int| hunt_target(m, v, i) {
        let i = choose|i: int| hunt_target(m, v, i);
        assert(v[i] || isolated(m, v, m.cell_at(i)));
    }
}

/// Cell number `i` is the first in row-major order that is unmarked and has a marked
/// neighbour: where a hunt lands.
pub open spec fn hunt_target(m: Maze, v: Seq<bool>, i: int) -> bool {
    &&& 0 <= i < v.len()
    &&& !v[i]
    &&& !isolated(m, v, m.cell_at(i))
    &&& forall|j: int| 0 <= j < i ==> v[j] || isolated(m, v, #[trigger] m.cell_at(j))
}

/// If every cell is marked or has no marked neighbour, every marked cell has all its
/// neighbours marked.
pub proof fn lemma_isolated_or_marked_saturated(m: Maze, v: Seq<bool>)
    requires
        m.dims_ok(),
        v.len() == m.cell_count(),
        forall|i: int| 0 <= i < v.len() ==> v[i] || isolated(m, v, m.cell_at(i)),
    ensures
        forall|p: Vec2i| m.contains(p) && v[m.index_of(p)] ==> #[trigger] saturated(m, v, p),
{
    assert forall|p: Vec2i| m.contains(p) && v[m.index_of(p)] implies #[trigger] saturated(m, v, p) by {
        assert forall|d: Dir| #[trigger] m.contains(step_toward(p, d)) implies v[m.index_of(step_toward(p, d))] by {
            let q = step_toward(p, d);
            m.lemma_contains_coords_ok(p);
            m.lemma_contains_coords_ok(q);
            let i = m.index_of(q);
            crate::types::lemma_index_coords(m.w as int, q.x as int, q.y as int);
            assert(m.cell_at(i) == q);
            if !v[i] {
                assert(isolated(m, v, q));
                assert(step_toward(q, opposite_dir(d)) == p);
                assert(m.contains(step_toward(q, opposite_dir(d))));
            }
        }
    }
}

/// Random walk that, when stuck, hunts row by row for an unvisited cell next to the
/// maze and resumes from there.
pub struct HuntAndKill {
    current: Option<Vec2i>,
    visited: Vec<bool>,
    hunt_idx: usize,
    seed: u32,
    w: usize,
    done: bool,
}

impl HuntAndKill {
    pub closed spec fn current_cell(&self) -> Option<Vec2i> {
        self.current
    }

    pub closed spec fn visited_cells(&self) -> Seq<bool> {
        self.visited@
    }

    pub closed spec fn seed_state(&self) -> u32 {
        self.seed
    }

    /// A walk that has only just started at the top-left cell of `maze`.
    /// The index of the cell where the next hunt starts.
    pub closed spec fn hunt_start(&self) -> int {
        self.hunt_idx as int
    }

    /// The width of the grid.
    pub closed spec fn grid_width(&self) -> int {
        self.w as int
    }

    pub open spec fn fresh(&self, maze: &Maze) -> bool {
        &&& self.current_cell() == Some(Vec2i { x: 0, y: 0 })
        &&& self.visited_cells().len() == maze.cell_count()
        &&& forall|i: int| 0 <= i < self.visited_cells().len() ==> self.visited_cells()[i] == (i == 0)
        &&& self.hunt_start() == 0
        &&& self.grid_width() == maze.w
        &&& !self.is_done()
    }

    /// Seeds the walk from the clock.
    pub fn new(maze: &Maze) -> (r: Self)
        requires
            maze.wf(),
            maze.w >= 1,
            maze.h >= 1,
        ensures
            r.fresh(maze),
            maze.open_edges() == Set::<int>::empty() ==> r.inv(maze),
    {
        Self::new_with_seed(maze, time_seed())
    }

    pub fn new_with_seed(maze: &Maze, seed: u32) -> (r: Self)
        requires
            maze.wf(),
            maze.w >= 1,
            maze.h >= 1,
        ensures
            r.fresh(maze),
            r.seed_state() == seed,
            maze.open_edges() == Set::<int>::empty() ==> r.inv(maze),
    {
        let start = Vec2i { x: 0, y: 0 };
        proof {
            maze.lemma_contains_coords_ok(start);
            maze.lemma_origin_index();
        }
        let mut visited = vec![false; maze.w * maze.h];
        assert(forall|i: int| 0 <= i < visited@.len() ==> !visited@[i]);
        let si = maze.idx(start);
        visited.set(si, true);
        let r = Self { current: Some(start), visited, hunt_idx: 0, seed, w: maze.w, done: false };
        proof {
            assert forall|i: int| 0 <= i < r.visited@.len() implies r.visited@[i] == (i == 0) by {}
            if maze.open_edges() == Set::<int>::empty() {
                lemma_grown_tree_start(*maze, r.visited@, 0);
            }
        }
        r
    }
}

impl BuildStrategy for HuntAndKill {
    /// The walk stands on a visited cell, the passages form a tree over the visited cells,
    /// a hunt always starts from the first cell, and the builder is done only once every
    /// cell is visited.
    closed spec fn inv(&self, maze: &Maze) -> bool {
        &&& maze.wf()
        &&& maze.cell_count() >= 1
        &&& self.w == maze.w
        &&& self.visited@.len() == maze.cell_count()
        &&& self.visited@[0]
        &&& grown_tree(*maze, self.visited@)
        &&& self.current matches Some(c) ==> maze.contains(c) && self.visited@[maze.index_of(c)]
        &&& !self.done ==> self.hunt_idx == 0
        &&& self.done ==> forall|i: int| 0 <= i < maze.cell_count() ==> self.visited@[i]
    }

    closed spec fn is_done(&self) -> bool {
        self.done
    }

    fn name(&self) -> (s: &'static str)
        ensures
            s@ == "Hunt and Kill"@,
    {
        "Hunt and Kill"
    }

    fn done(&self) -> (b: bool) {
        self.done
    }

    /// Walks from the current cell to a random unvisited neighbour, carving the wall; when
    /// stuck, forgets the current cell; with no current cell, hunts for an unvisited cell
    /// next to the maze, carves into the maze from it and resumes there.
    fn step(&mut self, maze: &mut Maze) -> (updated: Vec<Vec2i>)
        ensures
            updated@.len() == 0 || updated@.len() == 2,
            updated@.len() == 0 ==> final(maze).grid@ == old(maze).grid@,
            updated@.len() == 2 ==> {
                &&& exists|c: Vec2i|
                    (c == updated@[0] || c == updated@[1]) && !old(self).visited_cells()[old(
                        maze,
                    ).index_of(c)] && final(self).visited_cells() == old(
                        self,
                    ).visited_cells().update(old(maze).index_of(c), true)
                &&& exists|d|
                    updated@[1] == step_toward(updated@[0], d) && final(maze).open_edges()
                        == old(maze).open_edges().insert(old(maze).edge_key(updated@[0], d))
            },
            old(self).is_done() ==> updated@.len() == 0 && *final(self) == *old(self) && *final(maze)
                == *old(maze),
            !old(self).is_done() && old(self).current_cell() is Some ==> {
                let c = old(self).current_cell()->0;
                let v = old(self).visited_cells();
                &&& final(self).seed_state() == xorshift_iter(old(self).seed_state(), 3)
                &&& !final(self).is_done()
                &&& match unvisited_pick(*old(maze), v, c, shuffled_dirs(old(self).seed_state())) {
                    Some((d, n)) => {
                        &&& updated@ == seq![c, n]
                        &&& final(self).current_cell() == Some(n)
                        &&& final(self).visited_cells() == v.update(old(maze).index_of(n), true)
                        &&& final(maze).open_edges() == old(maze).open_edges().insert(old(maze).edge_key(c, d))
                    },
                    None => {
                        &&& updated@.len() == 0
                        &&& *final(maze) == *old(maze)
                        &&& final(self).visited_cells() == v
                        &&& final(self).current_cell() is None
                    },
                }
            },
            !old(self).is_done() && old(self).current_cell() is None ==> {
                let v = old(self).visited_cells();
                &&& final(self).seed_state() == old(self).seed_state()
                &&& match hunt_pick(*old(maze), v) {
                    Some(i) => {
                        let c = old(maze).cell_at(i);
                        let d = visited_dir_pick(*old(maze), v, c);
                        &&& updated@ == seq![c, step_toward(c, d)]
                        &&& final(self).current_cell() == Some(c)
                        &&& final(self).visited_cells() == v.update(i, true)
                        &&& final(maze).open_edges() == old(maze).open_edges().insert(old(maze).edge_key(c, d))
                        &&& !final(self).is_done()
                    },
                    None => {
                        &&& updated@.len() == 0
                        &&& *final(maze) == *old(maze)
                        &&& final(self).visited_cells() == v
                        &&& final(self).is_done()
                    },
                }
            },
    {
        if self.done {
            return Vec::new();
        }
                if let Some(current) = self.current {
            let dirs = shuffle_dirs(&mut self.seed);
            
            match first_unvisited_neighbor(maze, &self.visited, current, &dirs) {
                Some((dir, next)) => {
                    let ghost m0 = *maze;
                    let ghost v0 = self.visited@;
                    let ni = maze.idx(next);
                    self.visited.set(ni, true);
                    maze.carve(current, dir);
                    proof {
                        lemma_grown_tree_extend(m0, v0, *maze, current, dir);
                    }
                    self.current = Some(next);
                    self.hunt_idx = 0;
                    return vec![current, next];
                },
                None => {
                    self.current = None;
                    return Vec::new();
                },
            }
        }
        match hunt_unvisited(maze, &self.visited, &mut self.hunt_idx) {
            Some((cell, dir, neighbor)) => {
                let ghost m0 = *maze;
                let ghost v0 = self.visited@;
                let od = Maze::opposite(dir);
                assert(step_toward(neighbor, od) == cell);
                let ci = maze.idx(cell);
                self.visited.set(ci, true);
                maze.carve(cell, dir);
                proof {
                    maze.lemma_contains_coords_ok(cell);
                    m0.lemma_contains_coords_ok(neighbor);
                    m0.lemma_edge_key(cell, dir);
                    m0.lemma_edge_key(neighbor, od);
                    assert(m0.edge_key(neighbor, od) == m0.edge_key(cell, dir));
                    lemma_grown_tree_extend(m0, v0, *maze, neighbor, od);
                }
                self.current = Some(cell);
                self.hunt_idx = 0;
                vec![cell, neighbor]
            },
            None => {
                proof {
                    lemma_isolated_or_marked_saturated(*maze, self.visited@);
                    lemma_saturated_covers(*maze, self.visited@);
                }
                self.done = true;
                Vec::new()
            },
        }
    }
}

impl HuntAndKill {
    /// Once the builder is done every cell is visited and the maze is a spanning tree:
    /// it has exactly `w * h - 1` passages, and a walk joins any two cells.
    pub proof fn lemma_done_is_perfect(&self, maze: &Maze)
        requires
            self.inv(maze),
            self.is_done(),
        ensures
            maze.open_edges().len() == maze.cell_count() - 1,
            maze.outer_walls_closed() ==> open_flag_count(*maze) == 2 * (maze.cell_count() - 1),
            forall|p: Vec2i, q: Vec2i|
                maze.contains(p) && maze.contains(q) ==> #[trigger] joined(*maze, p, q),
            forall|i: int| 0 <= i < maze.cell_count() ==> #[trigger] self.visited_cells()[i],
    {
        lemma_marked_all(self.visited@);
        lemma_grown_tree_complete(*maze, self.visited@);
        if maze.outer_walls_closed() {
            lemma_open_flag_count(*maze);
        }
    }
}

} // verus!
