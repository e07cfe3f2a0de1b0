use vstd::prelude::*;

use crate::wall_count::{lemma_open_flag_count, open_flag_count};

use super::{BuildStrategy, first_unvisited_neighbor, lemma_no_unvisited_saturated, unvisited_pick};
use crate::forest::{
    grown_tree, lemma_grown_tree_complete, lemma_grown_tree_extend, lemma_grown_tree_start,
    lemma_marked_all, lemma_saturated_covers, lemma_settled_mark, lemma_settled_same_dims, marked, saturated,
    settled_except, joined,
};
use crate::rng::{clock_subsec_nanos, xorshift, xorshift_next};
use crate::types::{Dir, Maze, Vec2i, dir_at, dir_from_index, dir_index, opposite_dir, step_toward};

verus! {

/// Depth-first search that keeps going straight half of the time and otherwise prefers
/// a left or a right turn, giving long curved corridors that wrap around each other.
pub struct SpiralBacktracker {
    stack: Vec<(Vec2i, Dir)>,
    visited: Vec<bool>,
    seed: u32,
    done: bool,
}

/// The direction a quarter turn to the left of `d`.
pub open spec fn left_of(d: Dir) -> Dir {
    match d {
        Dir::N => Dir::W,
        Dir::W => Dir::S,
        Dir::S => Dir::E,
        Dir::E => Dir::N,
    }
}

/// The direction a quarter turn to the right of `d`.
pub open spec fn right_of(d: Dir) -> Dir {
    match d {
        Dir::N => Dir::E,
        Dir::E => Dir::S,
        Dir::S => Dir::W,
        Dir::W => Dir::N,
    }
}

/// The order in which the search tries the directions from a cell it faces `f` in, for the
/// draw `r`: straight, left, right, back when `r % 4` is 0 or 1; left, straight, right, back
/// when it is 2; right, straight, left, back when it is 3.
pub open spec fn spiral_order(f: Dir, r: u32) -> Seq<Dir> {
    if r % 4 == 0 || r % 4 == 1 {
        seq![f, left_of(f), right_of(f), opposite_dir(f)]
    } else if r % 4 == 2 {
        seq![left_of(f), f, right_of(f), opposite_dir(f)]
    } else {
        seq![right_of(f), f, left_of(f), opposite_dir(f)]
    }
}

/// What a step finds on the stack `st` (each entry a cell and the direction it was entered
/// by) with the generator in state `s`: the top cell draws the next state and tries its
/// directions in `spiral_order`; the first that leads to an unvisited cell is carved, and
/// otherwise the top is dropped and the search goes on below. Gives the stack height at the
/// carve, the direction and cell carved into (if any), and the state after the draws.
pub open spec fn spiral_scan(m: Maze, v: Seq<bool>, st: Seq<(Vec2i, Dir)>, s: u32) -> (int, Option<(Dir, Vec2i)>, u32)
    decreases st.len(),
{
    if st.len() == 0 {
        (0, None, s)
    } else {
        let s1 = xorshift_next(s);
        match unvisited_pick(m, v, st.last().0, spiral_order(st.last().1, s1)) {
            Some(p) => (st.len() as int, Some(p), s1),
            None => spiral_scan(m, v, st.drop_last(), s1),
        }
    }
}

/// The direction a quarter turn to the left of `d`.
pub fn turn_left(d: Dir) -> (r: Dir)
    ensures
        r == left_of(d),
{
    match d {
        Dir::N => Dir::W,
        Dir::W => Dir::S,
        Dir::S => Dir::E,
        Dir::E => Dir::N,
    }
}

/// The direction a quarter turn to the right of `d`.
pub fn turn_right(d: Dir) -> (r: Dir)
    ensures
        r == right_of(d),
{
    match d {
        Dir::N => Dir::E,
        Dir::E => Dir::S,
        Dir::S => Dir::W,
        Dir::W => Dir::N,
    }
}

/// The direction opposite to `d`.
pub fn reverse(d: Dir) -> (r: Dir)
    ensures
        r == opposite_dir(d),
{
    match d {
        Dir::N => Dir::S,
        Dir::S => Dir::N,
        Dir::E => Dir::W,
        Dir::W => Dir::E,
    }
}

/// Any order of `d`, its two turns and its reverse names every direction.
proof fn lemma_turns_cover(d: Dir, dirs: Seq<Dir>)
    requires
        dirs.len() == 4,
        forall|i: int, j: int| 0 <= i < j < 4 ==> dirs[i] != dirs[j],
    ensures
        forall|e: Dir| #[trigger] dirs.contains(e),
{
    assert forall|e: Dir| #[trigger] dirs.contains(e) by {
        if !dirs.contains(e) {
            assert(forall|i: int| 0 <= i < 4 ==> dirs[i] != e);
            assert(forall|i: int| 0 <= i < 4 ==> 0 <= #[trigger] dir_index(dirs[i]) < 4 && dir_index(dirs[i]) != dir_index(e));
            assert(false) by {
                let a = dir_index(dirs[0]);
                let b = dir_index(dirs[1]);
                let c = dir_index(dirs[2]);
                let g = dir_index(dirs[3]);
                assert(a != b && a != c && a != g && b != c && b != g && c != g) by {
                    assert(dirs[0] != dirs[1]);
                    assert(dirs[0] != dirs[2]);
                    assert(dirs[0] != dirs[3]);
                    assert(dirs[1] != dirs[2]);
                    assert(dirs[1] != dirs[3]);
                    assert(dirs[2] != dirs[3]);
                }
            }
        }
    }
}

/// The direction of the step from `a` to its neighbour `b`.
pub open spec fn step_dir_of(a: Vec2i, b: Vec2i) -> Dir {
    choose|d: Dir| b == step_toward(a, d)
}

impl SpiralBacktracker {
    /// The direction the search faces at the top of its stack.
    pub closed spec fn facing(&self) -> Dir {
        self.stack@.last().1
    }

    /// The stack: each cell with the direction it was entered by.
    pub closed spec fn stack_entries(&self) -> Seq<(Vec2i, Dir)> {
        self.stack@
    }

    pub closed spec fn stack_cells(&self) -> Seq<Vec2i> {
        self.stack@.map_values(|e: (Vec2i, Dir)| e.0)
    }

    pub closed spec fn visited_cells(&self) -> Seq<bool> {
        self.visited@
    }

    pub closed spec fn seed_state(&self) -> u32 {
        self.seed
    }

    /// A search that holds only the top-left cell of `maze`.
    pub open spec fn fresh(&self, maze: &Maze) -> bool {
        &&& self.stack_cells() == seq![Vec2i { x: 0, y: 0 }]
        &&& self.visited_cells().len() == maze.cell_count()
        &&& forall|i: int| 0 <= i < self.visited_cells().len() ==> self.visited_cells()[i] == (i == 0)
        &&& !self.is_done()
    }

    /// Seeds the search from the clock.
    pub fn new(maze: &Maze) -> (r: Self)
        requires
            maze.wf(),
            maze.w >= 1,
            maze.h >= 1,
        ensures
            r.fresh(maze),
            maze.open_edges() == Set::<int>::empty() ==> r.inv(maze),
    {
        let seed = clock_subsec_nanos();
        Self::new_with_seed(maze, seed)
    }

    pub fn new_with_seed(maze: &Maze, seed: u32) -> (r: Self)
        requires
            maze.wf(),
            maze.w >= 1,
            maze.h >= 1,
        ensures
            r.fresh(maze),
            r.seed_state() == xorshift_next(seed),
            r.stack_cells() == seq![Vec2i { x: 0, y: 0 }],
            r.facing() == dir_from_index((xorshift_next(seed) % 4) as int),
            maze.open_edges() == Set::<int>::empty() ==> r.inv(maze),
    {
        let start = Vec2i { x: 0, y: 0 };
        proof {
            maze.lemma_contains_coords_ok(start);
            maze.lemma_origin_index();
        }
        let mut visited = vec![false; maze.w * maze.h];
        assert(forall|i: int| 0 <= i < visited@.len() ==> !visited@[i]);
        let si = maze.idx(start);
        visited.set(si, true);
        let mut s = seed;
        xorshift(&mut s);
        let initial_dir = dir_at((s as usize) % 4);
        let r = Self { stack: vec![(start, initial_dir)], visited, seed: s, done: false };
        proof {
            assert forall|i: int| 0 <= i < r.visited@.len() implies r.visited@[i] == (i == 0) by {}
            assert(r.stack_cells() =~= seq![start]);
            if maze.open_edges() == Set::<int>::empty() {
                lemma_grown_tree_start(*maze, r.visited@, 0);
            }
            assert forall|p: Vec2i|
                #![trigger saturated(*maze, r.visited@, p)]
                maze.contains(p) && r.visited@[maze.index_of(p)] && !r.stack_cells().contains(p) implies saturated(*maze, r.visited@, p) by {
                maze.lemma_contains_coords_ok(p);
                assert(maze.index_of(p) == 0);
                maze.lemma_index_of_injective(p, start);
                assert(r.stack_cells()[0] == p);
            }
        }
        r
    }
}

impl BuildStrategy for SpiralBacktracker {
    /// The stack holds visited cells, the passages form a tree over the visited cells,
    /// every visited cell off the stack has no unvisited neighbour, and the search is done
    /// only once the stack is empty.
    closed spec fn inv(&self, maze: &Maze) -> bool {
        &&& maze.wf()
        &&& maze.cell_count() >= 1
        &&& self.visited@.len() == maze.cell_count()
        &&& self.visited@[0]
        &&& grown_tree(*maze, self.visited@)
        &&& forall|i: int|
            0 <= i < self.stack@.len() ==> maze.contains(#[trigger] self.stack@[i].0)
                && self.visited@[maze.index_of(self.stack@[i].0)]
        &&& settled_except(*maze, self.visited@, self.stack_cells())
        &&& self.done ==> self.stack@.len() == 0
    }

    closed spec fn is_done(&self) -> bool {
        self.done
    }

    fn name(&self) -> (s: &'static str)
        ensures
            s@ == "Spiral Backtracker"@,
    {
        "Spiral Backtracker"
    }

    fn done(&self) -> (b: bool) {
        self.done
    }

    /// Backtracks past dead ends, then carves from the top of the stack to the first
    /// unvisited neighbour in the preferred order (straight, then a turn, then back) and
    /// returns the two cells; returns nothing once the stack runs out.
    fn step(&mut self, maze: &mut Maze) -> (updated: Vec<Vec2i>)
        ensures
            ({
                let st = old(self).stack_entries();
                let (k, pick, s_end) = spiral_scan(*old(maze), old(self).visited_cells(), st, old(self).seed_state());
                &&& final(self).seed_state() == s_end
                &&& match pick {
                    None => {
                        &&& updated@.len() == 0
                        &&& final(maze).grid@ == old(maze).grid@
                        &&& final(self).is_done()
                        &&& final(self).stack_entries().len() == 0
                    },
                    Some((d, n)) => {
                        let c = st[k - 1].0;
                        &&& updated@ == seq![c, n]
                        &&& n == step_toward(c, d)
                        &&& final(maze).open_edges() == old(maze).open_edges().insert(old(maze).edge_key(c, d))
                        &&& final(self).stack_entries() == st.take(k).push((n, d))
                        &&& final(self).visited_cells() == old(self).visited_cells().update(
                            old(maze).index_of(n),
                            true,
                        )
                        &&& !final(self).is_done()
                    },
                }
            }),
    {
        loop
            invariant
                self.inv(maze),
                maze.grid@ == old(maze).grid@,
                maze.w == old(maze).w,
                maze.h == old(maze).h,
                self.visited@ == old(self).visited@,
                self.done == old(self).done,
                self.stack@.len() <= old(self).stack@.len(),
                self.stack@ == old(self).stack@.take(self.stack@.len() as int),
                spiral_scan(*maze, self.visited@, self.stack@, self.seed) == spiral_scan(
                    *old(maze),
                    old(self).visited@,
                    old(self).stack@,
                    old(self).seed,
                ),
            decreases self.stack@.len(),
        {
            if self.stack.len() == 0 {
                self.done = true;
                return Vec::new();
            }
            let (cell, facing) = self.stack[self.stack.len() - 1];
            assert(self.stack_cells()[self.stack@.len() - 1] == cell);
            let ghost scan = spiral_scan(*maze, self.visited@, self.stack@, self.seed);
            let r = xorshift(&mut self.seed) % 4;
            let ghost s1 = self.seed;
            let dirs = if r == 0 || r == 1 {
                [facing, turn_left(facing), turn_right(facing), reverse(facing)]
            } else if r == 2 {
                [turn_left(facing), facing, turn_right(facing), reverse(facing)]
            } else {
                [turn_right(facing), facing, turn_left(facing), reverse(facing)]
            };
            proof {
                lemma_turns_cover(facing, dirs@);
                assert(dirs@ =~= spiral_order(facing, s1));
                assert(self.stack@.last() == (cell, facing));
            }
            match first_unvisited_neighbor(maze, &self.visited, cell, &dirs) {
                Some((dir, neighbor)) => {
                    let ghost m0 = *maze;
                    let ghost v0 = self.visited@;
                    let ghost s0 = self.stack_cells();
                    let ghost st0 = self.stack@;
                    let ni = maze.idx(neighbor);
                    self.visited.set(ni, true);
                    maze.carve(cell, dir);
                    self.stack.push((neighbor, dir));
                    proof {
                        assert(self.stack_cells() =~= s0.push(neighbor));
                        lemma_grown_tree_extend(m0, v0, *maze, cell, dir);
                        assert forall|p: Vec2i| #[trigger] s0.contains(p) implies self.stack_cells().contains(p) by {
                            let j = choose|j: int| 0 <= j < s0.len() && s0[j] == p;
                            assert(self.stack_cells()[j] == p);
                        }
                        assert forall|p: Vec2i| m0.contains(p) && m0.index_of(p) == ni implies #[trigger] self.stack_cells().contains(p) by {
                            m0.lemma_index_of_injective(p, neighbor);
                            assert(self.stack_cells()[s0.len() as int] == neighbor);
                        }
                        lemma_settled_mark(m0, v0, s0, ni as int, self.stack_cells());
                        lemma_settled_same_dims(m0, *maze, self.visited@, self.stack_cells());
                        assert forall|i: int|
                            0 <= i < self.stack@.len() implies maze.contains(#[trigger] self.stack@[i].0)
                                && self.visited@[maze.index_of(self.stack@[i].0)] by {
                            if i < st0.len() {
                                assert(self.stack@[i] == st0[i]);
                                m0.lemma_contains_coords_ok(st0[i].0);
                            }
                        }
                    }
                    proof {
                        assert(self.stack@ =~= old(self).stack@.take(st0.len() as int).push((neighbor, dir)));
                    }
                    return vec![cell, neighbor];
                },
                None => {
                    let ghost s0 = self.stack_cells();
                    let ghost st0 = self.stack@;
                    proof {
                        lemma_no_unvisited_saturated(*maze, self.visited@, cell, dirs@);
                    }
                    self.stack.pop();
                    proof {
                        assert(self.stack@ =~= st0.drop_last());
                        assert(self.stack@ =~= old(self).stack@.take(self.stack@.len() as int));
                        assert forall|p: Vec2i|
                            #![trigger saturated(*maze, self.visited@, p)]
                            maze.contains(p) && self.visited@[maze.index_of(p)] && !self.stack_cells().contains(p) implies saturated(*maze, self.visited@, p) by {
                            if p != cell && s0.contains(p) {
                                let j = choose|j: int| 0 <= j < s0.len() && s0[j] == p;
                                assert(self.stack_cells()[j] == p);
                            }
                        }
                    }
                },
            }
        }
    }
}

impl SpiralBacktracker {
    /// Once the search is done every cell is visited and the maze is a spanning tree:
    /// it has exactly `w * h - 1` passages, and a walk joins any two cells.
    pub proof fn lemma_done_is_perfect(&self, maze: &Maze)
        requires
            self.inv(maze),
            self.is_done(),
        ensures
            maze.open_edges().len() == maze.cell_count() - 1,
            maze.outer_walls_closed() ==> open_flag_count(*maze) == 2 * (maze.cell_count() - 1),
            forall|p: Vec2i, q: Vec2i|
                maze.contains(p) && maze.contains(q) ==> #[trigger] joined(*maze, p, q),
            forall|i: int| 0 <= i < maze.cell_count() ==> #[trigger] self.visited_cells()[i],
    {
        assert forall|p: Vec2i| maze.contains(p) && self.visited@[maze.index_of(p)] implies #[trigger] saturated(*maze, self.visited@, p) by {
            assert(!self.stack_cells().contains(p));
        }
        lemma_saturated_covers(*maze, self.visited@);
        lemma_marked_all(self.visited@);
        lemma_grown_tree_complete(*maze, self.visited@);
        if maze.outer_walls_closed() {
            lemma_open_flag_count(*maze);
        }
    }
}

} // verus!
