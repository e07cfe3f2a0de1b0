use vstd::prelude::*;

use super::BuildStrategy;
use super::recursive_backtracker::RecursiveBacktracker;
use crate::forest::{grid_joined, has_opening, joined, lemma_grid_joined_grow};
use crate::rng::{fy_shuffle_all, lemma_fy_shuffle_perm, shuffle_with_seed, time_seed, xorshift, xorshift_next};
use crate::types::{Dir, Maze, Vec2i, dir_at, dir_from_index, dir_index, opposite_dir, step_toward};

verus! {

/// How many of the four walls of `p` are open.
pub open spec fn open_count_spec(m: Maze, p: Vec2i) -> int {
    (if m.wall_of(p, Dir::N) { 0int } else { 1int }) + (if m.wall_of(p, Dir::E) { 0int } else { 1int }) + (
    if m.wall_of(p, Dir::S) { 0int } else { 1int }) + (if m.wall_of(p, Dir::W) { 0int } else { 1int })
}

/// The number of open walls of `cell`.
pub fn open_count(maze: &Maze, cell: Vec2i) -> (n: usize)
    requires
        maze.dims_ok(),
        maze.contains(cell),
    ensures
        n == open_count_spec(*maze, cell),
{
    let mut n: usize = 0;
    let mut k: usize = 0;
    while k < 4
        invariant
            k <= 4,
            maze.dims_ok(),
            maze.contains(cell),
            n == open_count_upto(*maze, cell, k as int),
            n <= k,
        decreases 4 - k,
    {
        if !maze.has_wall(cell, dir_at(k)) {
            n = n + 1;
        }
        k = k + 1;
    }
    n
}

/// How many of the first `k` walls of `p` (in the order N, E, S, W) are open.
pub open spec fn open_count_upto(m: Maze, p: Vec2i, k: int) -> int {
    (if k > 0 && !m.wall_of(p, Dir::N) { 1int } else { 0int }) + (if k > 1 && !m.wall_of(p, Dir::E) {
        1int
    } else {
        0int
    }) + (if k > 2 && !m.wall_of(p, Dir::S) { 1int } else { 0int }) + (if k > 3 && !m.wall_of(
        p,
        Dir::W,
    ) {
        1int
    } else {
        0int
    })
}

/// Shuffles `arr` in place with Fisher-Yates, drawing from a generator seeded with `seed`.
pub fn shuffle(arr: &mut Vec<Vec2i>, seed: u32)
    ensures
        final(arr)@ == fy_shuffle_all(old(arr)@, seed),
{
    shuffle_with_seed(arr, seed);
}

/// The directions among the first `k` of N, E, S, W in which `p` has a wall to a cell of
/// the grid, in that order.
pub open spec fn walled_upto(m: Maze, p: Vec2i, k: int) -> Seq<Dir>
    decreases k,
{
    if k <= 0 {
        Seq::empty()
    } else {
        let d = dir_from_index(k - 1);
        if m.contains(step_toward(p, d)) && m.wall_of(p, d) {
            walled_upto(m, p, k - 1).push(d)
        } else {
            walled_upto(m, p, k - 1)
        }
    }
}

/// The directions in which `p` has a wall to a cell of the grid, in the order N, E, S, W.
pub open spec fn walled_dirs(m: Maze, p: Vec2i) -> Seq<Dir> {
    walled_upto(m, p, 4)
}

/// The position, from `j` on, of the first of `ws` that leads from `p` to a dead end.
pub open spec fn first_dead_end_from(m: Maze, p: Vec2i, ws: Seq<Dir>, j: int) -> Option<int>
    decreases ws.len() - j,
{
    if j < 0 || j >= ws.len() {
        None
    } else if open_count_spec(m, step_toward(p, ws[j])) == 1 {
        Some(j)
    } else {
        first_dead_end_from(m, p, ws, j + 1)
    }
}

/// `p` is still a dead end with a wall to some cell of the grid, so braiding can open it.
pub open spec fn braidable(m: Maze, p: Vec2i) -> bool {
    open_count_spec(m, p) == 1 && walled_dirs(m, p).len() > 0
}

/// The direction in which braiding opens the dead end `p` with the generator in state
/// `seed`: towards the first walled neighbour that is a dead end too, else towards the
/// walled neighbour at the next state modulo their number.
pub open spec fn braid_dir(m: Maze, p: Vec2i, seed: u32) -> Dir {
    let ws = walled_dirs(m, p);
    match first_dead_end_from(m, p, ws, 0) {
        Some(j) => ws[j],
        None => ws[(xorshift_next(seed) as int) % (ws.len() as int)],
    }
}

/// A perfect maze from the Recursive Backtracker, after which every dead end (a cell with
/// a single opening) gets a second opening, towards another dead end where it can.
pub struct BraidedMaze {
    inner: RecursiveBacktracker,
    dead_ends: Vec<Vec2i>,
    braiding: bool,
    seed: u32,
    done: bool,
}

/// Every dead end of the grid is still waiting in `pending`, and when there are two cells
/// or more, every cell has an opening.
pub open spec fn braid_ok(m: Maze, pending: Seq<Vec2i>) -> bool {
    &&& m.cell_count() >= 2 ==> forall|p: Vec2i| #[trigger] m.contains(p) ==> open_count_spec(m, p) >= 1
    &&& m.w >= 2 && m.h >= 2 ==> forall|p: Vec2i|
        #![trigger open_count_spec(m, p)]
        m.contains(p) && open_count_spec(m, p) == 1 ==> pending.contains(p)
    &&& forall|i: int| 0 <= i < pending.len() ==> m.contains(#[trigger] pending[i])
}

pub proof fn lemma_opening_counts(m: Maze, p: Vec2i)
    requires
        has_opening(m, p),
    ensures
        open_count_spec(m, p) >= 1,
{
    let d = choose|d: Dir| m.contains(step_toward(p, d)) && !#[trigger] m.wall_of(p, d);
    match d {
        Dir::N => {},
        Dir::E => {},
        Dir::S => {},
        Dir::W => {},
    }
}

impl BraidedMaze {
    pub closed spec fn is_braiding(&self) -> bool {
        self.braiding
    }

    pub closed spec fn seed_state(&self) -> u32 {
        self.seed
    }

    /// The dead ends still waiting for a second opening; the last is looked at first.
    pub closed spec fn pending_dead_ends(&self) -> Seq<Vec2i> {
        self.dead_ends@
    }

    /// The generator that carves the perfect maze to be braided.
    pub closed spec fn inner_builder(&self) -> RecursiveBacktracker {
        self.inner
    }

    /// Seeds the builder from the clock.
    pub fn new(maze: &Maze) -> (r: Self)
        requires
            maze.wf(),
            maze.w >= 1,
            maze.h >= 1,
        ensures
            maze.open_edges() == Set::<int>::empty() ==> r.inv(maze),
            !r.is_braiding(),
    {
        Self::new_with_seed(maze, time_seed())
    }

    pub fn new_with_seed(maze: &Maze, seed: u32) -> (r: Self)
        requires
            maze.wf(),
            maze.w >= 1,
            maze.h >= 1,
        ensures
            maze.open_edges() == Set::<int>::empty() ==> r.inv(maze),
            r.seed_state() == seed,
            !r.is_braiding(),
    {
        Self {
            inner: RecursiveBacktracker::new_with_seed(maze, seed),
            dead_ends: Vec::new(),
            braiding: false,
            seed,
            done: false,
        }
    }

    /// The cells with exactly one opening, in row-major order.
    fn collect_dead_ends(maze: &Maze) -> (r: Vec<Vec2i>)
        requires
            maze.wf(),
        ensures
            forall|p: Vec2i| #![trigger open_count_spec(*maze, p)]
                maze.contains(p) && open_count_spec(*maze, p) == 1 ==> r@.contains(p),
            forall|i: int| 0 <= i < r@.len() ==> maze.contains(#[trigger] r@[i]) && open_count_spec(*maze, r@[i]) == 1,
    {
        let mut r: Vec<Vec2i> = Vec::new();
        let mut y: usize = 0;
        while y < maze.h
            invariant
                maze.wf(),
                y <= maze.h,
                forall|p: Vec2i| #![trigger open_count_spec(*maze, p)]
                    maze.contains(p) && p.y < y && open_count_spec(*maze, p) == 1 ==> r@.contains(p),
                forall|i: int| 0 <= i < r@.len() ==> maze.contains(#[trigger] r@[i]) && open_count_spec(*maze, r@[i]) == 1,
            decreases maze.h - y,
        {
            let mut x: usize = 0;
            while x < maze.w
                invariant
                    maze.wf(),
                    y < maze.h,
                    x <= maze.w,
                    forall|p: Vec2i| #![trigger open_count_spec(*maze, p)]
                        maze.contains(p) && (p.y < y || (p.y == y && p.x < x)) && open_count_spec(*maze, p) == 1 ==> r@.contains(p),
                    forall|i: int| 0 <= i < r@.len() ==> maze.contains(#[trigger] r@[i]) && open_count_spec(*maze, r@[i]) == 1,
                decreases maze.w - x,
            {
                let cell = Vec2i { x: x as i32, y: y as i32 };
                if open_count(maze, cell) == 1 {
                    let ghost r0 = r@;
                    r.push(cell);
                    proof {
                        assert(r@[r0.len() as int] == cell);
                        assert forall|p: Vec2i| #[trigger] r0.contains(p) implies r@.contains(p) by {
                            let j = choose|j: int| 0 <= j < r0.len() && r0[j] == p;
                            assert(r@[j] == p);
                        }
                    }
                }
                x = x + 1;
            }
            y = y + 1;
        }
        r
    }
}

impl BuildStrategy for BraidedMaze {
    /// While the inner generator runs, its invariant holds and no dead end is pending; while
    /// braiding, every dead end is pending and every cell has an opening; done only once
    /// nothing is pending.
    closed spec fn inv(&self, maze: &Maze) -> bool {
        &&& maze.wf()
        &&& if self.braiding {
            braid_ok(*maze, self.dead_ends@) && grid_joined(*maze)
        } else {
            self.inner.inv(maze) && !self.done
        }
        &&& self.done ==> self.dead_ends@.len() == 0
    }

    closed spec fn is_done(&self) -> bool {
        self.done
    }

    fn name(&self) -> (s: &'static str)
        ensures
            s@ == "Braided"@,
    {
        "Braided"
    }

    fn done(&self) -> (b: bool) {
        self.done
    }

    /// Runs the inner generator until it is done (then lists the dead ends, shuffled); after
    /// that each step gives the next dead end still having one opening a second one and
    /// returns the cell and its new neighbour.
    fn step(&mut self, maze: &mut Maze) -> (updated: Vec<Vec2i>)
        ensures
            old(self).is_done() ==> updated@.len() == 0 && final(maze).grid@ == old(maze).grid@,
            old(self).is_braiding() && updated@.len() == 0 ==> final(maze).grid@ == old(maze).grid@,
            old(self).is_braiding() && updated@.len() != 0 ==> {
                &&& updated@.len() == 2
                &&& open_count_spec(*old(maze), updated@[0]) == 1
                &&& exists|d: Dir|
                    updated@[1] == step_toward(updated@[0], d) && old(maze).wall_of(updated@[0], d)
                        && final(maze).open_edges() == old(maze).open_edges().insert(
                        old(maze).edge_key(updated@[0], d),
                    )
                &&& (exists|e: Dir|
                    old(maze).contains(step_toward(updated@[0], e)) && old(maze).wall_of(updated@[0], e)
                        && open_count_spec(*old(maze), #[trigger] step_toward(updated@[0], e)) == 1)
                    ==> open_count_spec(*old(maze), updated@[1]) == 1
                &&& updated@[1] == step_toward(updated@[0], braid_dir(*old(maze), updated@[0], old(self).seed_state()))
                &&& walled_dirs(*old(maze), updated@[0]).len() > 0
                &&& {
                    let pending = old(self).pending_dead_ends();
                    let k = final(self).pending_dead_ends().len();
                    &&& k < pending.len()
                    &&& pending[k as int] == updated@[0]
                    &&& final(self).pending_dead_ends() == pending.take(k as int)
                    &&& forall|i: int| k < i < pending.len() ==> !braidable(*old(maze), #[trigger] pending[i])
                }
                &&& final(self).seed_state() == if first_dead_end_from(
                    *old(maze),
                    updated@[0],
                    walled_dirs(*old(maze), updated@[0]),
                    0,
                ) is Some {
                    old(self).seed_state()
                } else {
                    xorshift_next(old(self).seed_state())
                }
                &&& !final(self).is_done()
            },
            old(self).is_braiding() && updated@.len() == 0 ==> *final(maze) == *old(maze)
                && final(self).is_done() && forall|i: int|
                0 <= i < old(self).pending_dead_ends().len() ==> !braidable(
                    *old(maze),
                    #[trigger] old(self).pending_dead_ends()[i],
                ),
            old(self).is_braiding() ==> final(self).is_braiding(),
            !old(self).is_braiding() ==> {
                &&& updated@.len() == 0 || updated@.len() == 2
                &&& updated@.len() == 0 ==> final(maze).grid@ == old(maze).grid@ && final(self).is_braiding()
                &&& final(self).is_braiding() ==> forall|p: Vec2i|
                    #[trigger] final(self).pending_dead_ends().contains(p) <==> final(maze).contains(p)
                        && open_count_spec(*final(maze), p) == 1
                &&& updated@.len() == 2 ==> {
                    &&& !final(self).is_braiding()
                    &&& !old(self).inner_builder().visited_cells()[old(maze).index_of(updated@[1])]
                    &&& exists|d|
                        updated@[1] == step_toward(updated@[0], d) && final(maze).open_edges()
                            == old(maze).open_edges().insert(old(maze).edge_key(updated@[0], d))
                }
                &&& !final(self).is_done()
            },
    {
        if self.done {
            return Vec::new();
        }
        if !self.braiding {
            let updated = self.inner.step(maze);
            proof {
                self.inner.lemma_inv_maze_wf(maze);
            }
            if self.inner.done() {
                proof {
                    self.inner.lemma_done_is_perfect(maze);
                    reveal(grid_joined);
                }
                let mut dead_ends = Self::collect_dead_ends(maze);
                let ghost d0 = dead_ends@;
                shuffle(&mut dead_ends, self.seed);
                proof {
                    if d0.len() > 0 {
                        lemma_fy_shuffle_perm(d0, (d0.len() - 1) as nat, self.seed);
                    }
                    assert forall|p: Vec2i| #![trigger open_count_spec(*maze, p)]
                        maze.contains(p) && open_count_spec(*maze, p) == 1 implies dead_ends@.contains(p) by {
                        assert(d0.contains(p));
                    }
                    assert forall|p: Vec2i| #[trigger] dead_ends@.contains(p) implies maze.contains(p)
                        && open_count_spec(*maze, p) == 1 by {
                        assert(d0.contains(p));
                    }
                    assert forall|i: int| 0 <= i < dead_ends@.len() implies maze.contains(#[trigger] dead_ends@[i]) by {
                        assert(dead_ends@.contains(dead_ends@[i]));
                        assert(d0.contains(dead_ends@[i]));
                    }
                    assert forall|p: Vec2i| #[trigger] maze.contains(p) && maze.cell_count() >= 2 implies open_count_spec(*maze, p) >= 1 by {
                        lemma_opening_counts(*maze, p);
                    }
                }
                self.dead_ends = dead_ends;
                self.braiding = true;
            }
            return updated;
        }
        while self.dead_ends.len() > 0
            invariant
                maze.wf(),
                self.braiding,
                !self.done,
                braid_ok(*maze, self.dead_ends@),
                grid_joined(*maze),
                maze.grid@ == old(maze).grid@,
                *maze == *old(maze),
                self.seed == old(self).seed,
                maze.w == old(maze).w,
                maze.h == old(maze).h,
                old(self).braiding,
                !old(self).done,
                self.dead_ends@.len() <= old(self).dead_ends@.len(),
                self.dead_ends@ == old(self).dead_ends@.take(self.dead_ends@.len() as int),
                forall|i: int|
                    self.dead_ends@.len() <= i < old(self).dead_ends@.len() ==> !braidable(
                        *old(maze),
                        #[trigger] old(self).dead_ends@[i],
                    ),
            decreases self.dead_ends@.len(),
        {
            let ghost p0 = self.dead_ends@;
            let cell = self.dead_ends.pop().unwrap();
            assert(cell == p0[p0.len() - 1]);
            assert(cell == old(self).dead_ends@[p0.len() - 1]);
            assert(self.dead_ends@ == old(self).dead_ends@.take(self.dead_ends@.len() as int));
            assert(maze.contains(cell));
            proof {
                maze.lemma_contains_coords_ok(cell);
            }
            if open_count(maze, cell) != 1 {
                proof {
                    lemma_pending_drop(*maze, p0, self.dead_ends@, cell);
                }
                continue;
            }
            let mut walled: Vec<Dir> = Vec::new();
            let mut k: usize = 0;
            while k < 4
                invariant
                    k <= 4,
                    maze.wf(),
                    maze.contains(cell),
                    crate::types::coords_ok(cell),
                    forall|i: int| 0 <= i < walled@.len() ==> maze.contains(step_toward(cell, #[trigger] walled@[i]))
                        && maze.wall_of(cell, walled@[i]) && dir_index(walled@[i]) < k,
                    forall|i: int, j: int| 0 <= i < j < walled@.len() ==> dir_index(#[trigger] walled@[i]) < dir_index(#[trigger] walled@[j]),
                    forall|e: Dir| dir_index(e) < k && maze.contains(step_toward(cell, e)) && maze.wall_of(cell, e)
                        ==> #[trigger] walled@.contains(e),
                    walled@ == walled_upto(*maze, cell, k as int),
                decreases 4 - k,
            {
                let d = dir_at(k);
                proof {
                    assert forall|e: Dir| dir_index(e) == k implies e == d by {
                        match e {
                            Dir::N => {},
                            Dir::E => {},
                            Dir::S => {},
                            Dir::W => {},
                        }
                        match d {
                            Dir::N => {},
                            Dir::E => {},
                            Dir::S => {},
                            Dir::W => {},
                        }
                    }
                }
                let n = maze.neighbor(cell, d);
                if maze.in_bounds(n) && maze.has_wall(cell, d) {
                    let ghost w0 = walled@;
                    walled.push(d);
                    proof {
                        assert(walled@[w0.len() as int] == d);
                        assert forall|e: Dir| w0.contains(e) implies #[trigger] walled@.contains(e) by {
                            let j = choose|j: int| 0 <= j < w0.len() && w0[j] == e;
                            assert(walled@[j] == e);
                        }
                    }
                }
                k = k + 1;
            }
            if walled.len() == 0 {
                proof {
                    assert(walled_dirs(*maze, cell).len() == 0);
                    if maze.w >= 2 && maze.h >= 2 {
                        lemma_unbraidable(*maze, cell);
                        let e = choose|e: Dir| maze.contains(step_toward(cell, e)) && maze.wall_of(cell, e);
                        assert(walled@.contains(e));
                    }
                    lemma_pending_drop(*maze, p0, self.dead_ends@, cell);
                }
                continue;
            }
            let mut chosen: Option<Dir> = None;
            let mut j: usize = 0;
            while j < walled.len()
                invariant_except_break
                    chosen is None,
                invariant
                    j <= walled@.len(),
                    maze.wf(),
                    maze.contains(cell),
                    forall|i: int| 0 <= i < walled@.len() ==> maze.contains(step_toward(cell, #[trigger] walled@[i]))
                        && maze.wall_of(cell, walled@[i]),
                    chosen matches Some(d) ==> walled@.contains(d) && open_count_spec(*maze, step_toward(cell, d)) == 1,
                    chosen is None ==> forall|i: int| 0 <= i < j ==> open_count_spec(*maze, step_toward(cell, #[trigger] walled@[i])) != 1,
                    chosen is None ==> first_dead_end_from(*maze, cell, walled@, 0) == first_dead_end_from(
                        *maze,
                        cell,
                        walled@,
                        j as int,
                    ),
                ensures
                    chosen matches Some(d) ==> walled@.contains(d) && open_count_spec(*maze, step_toward(cell, d)) == 1,
                    chosen is None ==> forall|i: int| 0 <= i < walled@.len() ==> open_count_spec(*maze, step_toward(cell, #[trigger] walled@[i])) != 1,
                    chosen == match first_dead_end_from(*maze, cell, walled@, 0) {
                        Some(jj) => Some(walled@[jj]),
                        None => None,
                    },
                decreases walled@.len() - j,
            {
                let d = walled[j];
                assert(walled@.contains(d)) by {
                    assert(walled@[j as int] == d);
                }
                if open_count(maze, maze.neighbor(cell, d)) == 1 {
                    chosen = Some(d);
                    assert(first_dead_end_from(*maze, cell, walled@, j as int) == Some(j as int));
                    break;
                }
                assert(first_dead_end_from(*maze, cell, walled@, j as int) == first_dead_end_from(
                    *maze,
                    cell,
                    walled@,
                    j + 1,
                ));
                j = j + 1;
            }
            proof {
                if chosen is None {
                    assert(first_dead_end_from(*maze, cell, walled@, walled@.len() as int) is None);
                }
            }
            let dir = match chosen {
                Some(d) => d,
                None => {
                    let i = (xorshift(&mut self.seed) as usize) % walled.len();
                    assert(walled@.contains(walled@[i as int]));
                    walled[i]
                },
            };
            let neighbor = maze.neighbor(cell, dir);
            let ghost m0 = *maze;
            proof {
                assert(walled@ == walled_dirs(m0, cell));
                assert(dir == braid_dir(m0, cell, old(self).seed));
                let i = choose|i: int| 0 <= i < walled@.len() && walled@[i] == dir;
                assert(maze.contains(step_toward(cell, walled@[i])));
                m0.lemma_contains_coords_ok(neighbor);
                m0.lemma_edge_key(cell, dir);
            }
            maze.carve(cell, dir);
            proof {
                lemma_braid_carve(m0, *maze, p0, self.dead_ends@, cell, dir);
                assert(m0.open_edges().subset_of(maze.open_edges()));
                lemma_grid_joined_grow(m0, *maze);
            }
            proof {
                if exists|e: Dir|
                    m0.contains(step_toward(cell, e)) && m0.wall_of(cell, e)
                        && open_count_spec(m0, #[trigger] step_toward(cell, e)) == 1 {
                    let e = choose|e: Dir|
                        m0.contains(step_toward(cell, e)) && m0.wall_of(cell, e)
                            && open_count_spec(m0, #[trigger] step_toward(cell, e)) == 1;
                    assert(dir_index(e) < 4) by {
                        match e {
                            Dir::N => {},
                            Dir::E => {},
                            Dir::S => {},
                            Dir::W => {},
                        }
                    }
                    assert(walled@.contains(e));
                    if chosen is None {
                        let i = choose|i: int| 0 <= i < walled@.len() && walled@[i] == e;
                        assert(open_count_spec(m0, step_toward(cell, walled@[i])) != 1);
                    }
                }
            }
            return vec![cell, neighbor];
        }
        self.done = true;
        Vec::new()
    }
}

/// Dropping a popped cell that is not a dead end keeps every dead end pending.
proof fn lemma_pending_drop(m: Maze, p0: Seq<Vec2i>, p1: Seq<Vec2i>, cell: Vec2i)
    requires
        braid_ok(m, p0),
        p0.len() > 0,
        p1 == p0.subrange(0, p0.len() - 1),
        cell == p0[p0.len() - 1],
        m.w >= 2 && m.h >= 2 ==> open_count_spec(m, cell) != 1,
    ensures
        braid_ok(m, p1),
{
    assert forall|p: Vec2i|
        #![trigger open_count_spec(m, p)]
        m.w >= 2 && m.h >= 2 && m.contains(p) && open_count_spec(m, p) == 1 implies p1.contains(p) by {
        assert(p0.contains(p));
        let j = choose|j: int| 0 <= j < p0.len() && p0[j] == p;
        if j < p1.len() {
            assert(p1[j] == p);
        }
    }
    assert forall|i: int| 0 <= i < p1.len() implies m.contains(#[trigger] p1[i]) by {
        assert(p1[i] == p0[i]);
    }
}

/// In a grid at least two cells wide and tall, a cell with one opening has a closed wall
/// towards a neighbour inside the grid.
proof fn lemma_unbraidable(m: Maze, cell: Vec2i)
    requires
        m.contains(cell),
        m.w >= 2 && m.h >= 2,
        open_count_spec(m, cell) == 1,
    ensures
        exists|e: Dir| m.contains(step_toward(cell, e)) && m.wall_of(cell, e),
{
    let vert = if cell.y == 0 { Dir::S } else { Dir::N };
    let horiz = if cell.x == 0 { Dir::E } else { Dir::W };
    assert(m.contains(step_toward(cell, vert)));
    assert(m.contains(step_toward(cell, horiz)));
    if !m.wall_of(cell, vert) {
        assert(m.wall_of(cell, horiz));
    }
}

/// Opening a closed wall of a dead end gives it two openings and its neighbour one more,
/// so every remaining dead end is still pending.
proof fn lemma_braid_carve(m0: Maze, m1: Maze, p0: Seq<Vec2i>, p1: Seq<Vec2i>, cell: Vec2i, d: Dir)
    requires
        m0.wf(),
        m1.wf(),
        m1.w == m0.w,
        m1.h == m0.h,
        braid_ok(m0, p0),
        p0.len() > 0,
        p1 == p0.subrange(0, p0.len() - 1),
        cell == p0[p0.len() - 1],
        m0.contains(cell),
        m0.contains(step_toward(cell, d)),
        m0.wall_of(cell, d),
        open_count_spec(m0, cell) == 1,
        forall|p: Vec2i, e: Dir|
            #![trigger m1.wall_of(p, e)]
            m1.contains(p) ==> m1.wall_of(p, e) == if (p == cell && e == d) || (p == step_toward(cell, d)
                && e == opposite_dir(d)) {
                false
            } else {
                m0.wall_of(p, e)
            },
    ensures
        braid_ok(m1, p1),
{
    let nb = step_toward(cell, d);
    assert(m0.wall_of(nb, opposite_dir(d)));
    assert(step_toward(nb, opposite_dir(d)) == cell);
    assert forall|p: Vec2i| #![trigger open_count_spec(m1, p)]
        m1.contains(p) implies open_count_spec(m1, p) >= open_count_spec(m0, p) && (p != cell && p != nb
            ==> open_count_spec(m1, p) == open_count_spec(m0, p)) && (p == cell ==> open_count_spec(m1, p) == 2) && (p == nb
            ==> open_count_spec(m1, p) == open_count_spec(m0, p) + 1) by {
        assert(m1.wall_of(p, Dir::N) == m1.wall_of(p, Dir::N));
        assert(m1.wall_of(p, Dir::E) == m1.wall_of(p, Dir::E));
        assert(m1.wall_of(p, Dir::S) == m1.wall_of(p, Dir::S));
        assert(m1.wall_of(p, Dir::W) == m1.wall_of(p, Dir::W));
        if p == cell {
            assert(p != nb);
        }
    }
    assert forall|p: Vec2i| #[trigger] m1.contains(p) && m1.cell_count() >= 2 implies open_count_spec(m1, p) >= 1 by {
        assert(m0.contains(p));
        assert(open_count_spec(m1, p) >= open_count_spec(m0, p));
    }
    assert forall|p: Vec2i|
        #![trigger open_count_spec(m1, p)]
        m1.w >= 2 && m1.h >= 2 && m1.contains(p) && open_count_spec(m1, p) == 1 implies p1.contains(p) by {
        assert(m1.cell_count() >= 2) by (nonlinear_arith)
            requires
                m1.w >= 2,
                m1.h >= 2,
        ;
        assert(open_count_spec(m0, p) == 1 || p == nb);
        if p == nb {
            assert(open_count_spec(m0, p) >= 1);
        }
        assert(p != cell);
        assert(p0.contains(p));
        let j = choose|j: int| 0 <= j < p0.len() && p0[j] == p;
        assert(p1[j] == p);
    }
    assert forall|i: int| 0 <= i < p1.len() implies m1.contains(#[trigger] p1[i]) by {
        assert(p1[i] == p0[i]);
    }
}

impl BraidedMaze {
    /// Once braiding is done a walk joins any two cells: braiding only opens walls of a
    /// perfect maze.
    pub proof fn lemma_done_is_connected(&self, maze: &Maze)
        requires
            self.inv(maze),
            self.is_done(),
        ensures
            forall|p: Vec2i, q: Vec2i|
                maze.contains(p) && maze.contains(q) ==> #[trigger] joined(*maze, p, q),
    {
        reveal(grid_joined);
    }

    /// Once braiding is done, a grid at least two cells wide and tall has no dead end:
    /// no cell has exactly one opening.
    pub proof fn lemma_done_has_no_dead_ends(&self, maze: &Maze)
        requires
            self.inv(maze),
            self.is_done(),
            maze.w >= 2,
            maze.h >= 2,
        ensures
            forall|p: Vec2i| #[trigger] maze.contains(p) ==> open_count_spec(*maze, p) != 1,
    {
        assert forall|p: Vec2i| #[trigger] maze.contains(p) implies open_count_spec(*maze, p) != 1 by {
            if open_count_spec(*maze, p) == 1 {
                assert(self.dead_ends@.contains(p));
            }
        }
    }
}

} // verus!
