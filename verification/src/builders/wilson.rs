use vstd::prelude::*;

use crate::wall_count::{lemma_open_flag_count, open_flag_count};

use super::{BuildStrategy, neighbor_pick, random_neighbor, seed_after_pick};
use crate::forest::{
    count_unmarked, grown_tree, lemma_count_unmarked, lemma_grown_tree_complete,
    lemma_grown_tree_extend, lemma_grown_tree_start, lemma_marked_full, lemma_marked_insert, marked, joined,
};
use crate::rng::{time_seed, xorshift, xorshift_next};
use crate::types::{lemma_outer_walls_same_trans, outer_walls_same, Dir, Maze, Vec2i, opposite_dir, step_toward};

verus! {

/// `b` is one step from `a`.
pub open spec fn adjacent(a: Vec2i, b: Vec2i) -> bool {
    exists|d: Dir| b == #[trigger] step_toward(a, d)
}

pub open spec fn dir_between_spec(from: Vec2i, to: Vec2i) -> Dir {
    let dx = to.x - from.x;
    let dy = to.y - from.y;
    if dx == 1 && dy == 0 {
        Dir::E
    } else if dx == -1 && dy == 0 {
        Dir::W
    } else if dx == 0 && dy == 1 {
        Dir::S
    } else {
        Dir::N
    }
}

/// The cell that walk cell `j` is joined to when walk `w` reaches the maze at `next`: the
/// following walk cell, or `next` for the last one.
pub open spec fn walk_succ(w: Seq<Vec2i>, next: Vec2i, j: int) -> Vec2i {
    if j + 1 < w.len() {
        w[j + 1]
    } else {
        next
    }
}

/// The walls opened when walk cells `from..` of `w` are joined to their successors.
pub open spec fn walk_keys(m: Maze, w: Seq<Vec2i>, next: Vec2i, from: int) -> Set<int> {
    Set::new(
        |k: int|
            exists|j: int|
                from <= j < w.len() && k == #[trigger] m.edge_key(
                    w[j],
                    dir_between_spec(w[j], walk_succ(w, next, j)),
                ),
    )
}

/// The direction of the step from `from` to `to`: E, W or S for the matching unit offset,
/// N for any other.
pub fn dir_between(from: Vec2i, to: Vec2i) -> (d: Dir)
    requires
        crate::types::coords_ok(from),
    ensures
        d == dir_between_spec(from, to),
        adjacent(from, to) ==> to == step_toward(from, d),
{
    let dx = to.x as i64 - from.x as i64;
    let dy = to.y as i64 - from.y as i64;
    let d = if dx == 1 && dy == 0 {
        Dir::E
    } else if dx == -1 && dy == 0 {
        Dir::W
    } else if dx == 0 && dy == 1 {
        Dir::S
    } else {
        Dir::N
    };
    proof {
        if adjacent(from, to) {
            let e = choose|e: Dir| to == #[trigger] step_toward(from, e);
            assert(to == step_toward(from, e));
        }
    }
    d
}

/// Loop-erased random walks: from a random cell outside the maze, walk at random, erasing
/// every loop, until the maze is hit; then carve the whole walk into the maze. Produces a
/// uniform spanning tree.
pub struct WilsonGen {
    in_maze: Vec<bool>,
    walk: Vec<Vec2i>,
    walk_idx: Vec<Option<usize>>,
    unvisited: usize,
    seed: u32,
    w: usize,
    h: usize,
    done: bool,
}

/// The walk consists of distinct cells of the grid outside the maze, each one step from
/// the previous, and `walk_idx` gives each cell's position in it (and `None` off it).
pub open spec fn walk_ok(maze: Maze, v: Seq<bool>, walk: Seq<Vec2i>, walk_idx: Seq<Option<usize>>) -> bool {
    &&& walk_idx.len() == maze.cell_count()
    &&& forall|i: int|
        0 <= i < walk.len() ==> maze.contains(#[trigger] walk[i]) && !v[maze.index_of(walk[i])]
            && walk_idx[maze.index_of(walk[i])] == Some(i as usize)
    &&& forall|i: int| 0 <= i < walk.len() - 1 ==> adjacent(#[trigger] walk[i], walk[i + 1])
    &&& forall|j: int|
        0 <= j < walk_idx.len() && (#[trigger] walk_idx[j]) is Some ==> walk_idx[j]->0 < walk.len()
            && maze.index_of(walk[walk_idx[j]->0 as int]) == j
}

impl WilsonGen {
    pub closed spec fn in_maze_cells(&self) -> Seq<bool> {
        self.in_maze@
    }

    pub closed spec fn walk_cells(&self) -> Seq<Vec2i> {
        self.walk@
    }

    /// For each cell, its position on the current walk, if it lies on it.
    pub closed spec fn walk_index(&self) -> Seq<Option<usize>> {
        self.walk_idx@
    }

    pub closed spec fn unvisited_count(&self) -> int {
        self.unvisited as int
    }

    pub closed spec fn seed_state(&self) -> u32 {
        self.seed
    }

    /// Everything but the generator state is the same as in `other`.
    pub closed spec fn same_but_seed(&self, other: &Self) -> bool {
        &&& self.in_maze == other.in_maze
        &&& self.walk == other.walk
        &&& self.walk_idx == other.walk_idx
        &&& self.unvisited == other.unvisited
        &&& self.w == other.w
        &&& self.h == other.h
        &&& self.done == other.done
    }

    pub closed spec fn width(&self) -> int {
        self.w as int
    }

    pub closed spec fn height(&self) -> int {
        self.h as int
    }

    /// The bookkeeping that `random_unvisited` relies on: `unvisited` counts the cells
    /// outside the maze, and there is at least one.
    pub closed spec fn counts_ok(&self) -> bool {
        &&& self.w >= 1
        &&& self.w * self.h <= usize::MAX
        &&& self.w <= i32::MAX
        &&& self.h <= i32::MAX
        &&& self.in_maze@.len() == self.w * self.h
        &&& self.unvisited == count_unmarked(self.in_maze@, self.w * self.h)
        &&& self.unvisited > 0
    }

    /// A builder whose maze is the top-left cell and whose walk has not begun.
    pub open spec fn fresh(&self, maze: &Maze) -> bool {
        &&& self.in_maze_cells().len() == maze.cell_count()
        &&& forall|i: int| 0 <= i < self.in_maze_cells().len() ==> self.in_maze_cells()[i] == (i == 0)
        &&& self.walk_cells().len() == 0
        &&& self.walk_index().len() == maze.cell_count()
        &&& forall|i: int| 0 <= i < self.walk_index().len() ==> self.walk_index()[i] is None
        &&& self.unvisited_count() == maze.cell_count() - 1
        &&& self.is_done() == (maze.cell_count() == 1)
    }

    /// Seeds the builder from the clock.
    pub fn new(maze: &Maze) -> (r: Self)
        requires
            maze.wf(),
            maze.w >= 1,
            maze.h >= 1,
        ensures
            r.fresh(maze),
            maze.open_edges() == Set::<int>::empty() ==> r.inv(maze),
    {
        Self::new_with_seed(maze, time_seed())
    }

    pub fn new_with_seed(maze: &Maze, seed: u32) -> (r: Self)
        requires
            maze.wf(),
            maze.w >= 1,
            maze.h >= 1,
        ensures
            r.fresh(maze),
            r.seed_state() == seed,
            maze.open_edges() == Set::<int>::empty() ==> r.inv(maze),
    {
        let n = maze.w * maze.h;
        proof {
            maze.lemma_contains_coords_ok(Vec2i { x: 0, y: 0 });
        }
        let mut in_maze = vec![false; n];
        assert(forall|i: int| 0 <= i < in_maze@.len() ==> !in_maze@[i]);
        in_maze.set(0, true);
        let walk_idx: Vec<Option<usize>> = vec![None; n];
        assert(forall|i: int| 0 <= i < walk_idx@.len() ==> walk_idx@[i] is None);
        let r = Self {
            in_maze,
            walk: Vec::new(),
            walk_idx,
            unvisited: n - 1,
            seed,
            w: maze.w,
            h: maze.h,
            done: n == 1,
        };
        proof {
            assert forall|i: int| 0 <= i < r.in_maze@.len() implies r.in_maze@[i] == (i == 0) by {}
            if maze.open_edges() == Set::<int>::empty() {
                lemma_grown_tree_start(*maze, r.in_maze@, 0);
            }
            assert(marked(r.in_maze@) =~= set![0int]);
        }
        r
    }

    /// The row-major index of a cell of the grid.
    pub fn cidx(&self, p: Vec2i) -> (i: usize)
        requires
            self.width() * self.height() <= usize::MAX,
            0 <= p.x < self.width(),
            0 <= p.y < self.height(),
        ensures
            i == p.y * self.width() + p.x,
            i < self.width() * self.height(),
    {
        proof {
            crate::types::lemma_index_bound(self.w as int, self.h as int, p.x as int, p.y as int);
        }
        (p.y as usize) * self.w + (p.x as usize)
    }

    /// Draws `target`, the next state modulo the number of cells outside the maze, and
    /// returns the `target`-th such cell in row-major order.
    pub fn random_unvisited(&mut self) -> (r: Vec2i)
        requires
            old(self).counts_ok(),
        ensures
            final(self).seed_state() == xorshift_next(old(self).seed_state()),
            final(self).same_but_seed(old(self)),
            final(self).in_maze_cells() == old(self).in_maze_cells(),
            final(self).walk_cells() == old(self).walk_cells(),
            final(self).unvisited_count() == old(self).unvisited_count(),
            final(self).counts_ok(),
            0 <= r.x < final(self).width(),
            0 <= r.y < final(self).height(),
            !old(self).in_maze_cells()[r.y * final(self).width() + r.x],
            count_unmarked(old(self).in_maze_cells(), r.y * final(self).width() + r.x) == (xorshift_next(
                old(self).seed_state(),
            ) as int) % old(self).unvisited_count(),
            final(self).width() == old(self).width(),
            final(self).height() == old(self).height(),
    {
        let target = (xorshift(&mut self.seed) as usize) % self.unvisited;
        let n = self.w * self.h;
        let mut i: usize = 0;
        let mut count: usize = 0;
        while i < n
            invariant
                n == self.w * self.h,
                self.counts_ok(),
                self.seed == xorshift_next(old(self).seed),
                target == (xorshift_next(old(self).seed) as int) % (self.unvisited as int),
                self.same_but_seed(old(self)),
                self.in_maze@ == old(self).in_maze@,
                self.unvisited == old(self).unvisited,
                target < self.unvisited,
                i <= n,
                count == count_unmarked(self.in_maze@, i as int),
                count <= target,
            decreases n - i,
        {
            if !self.in_maze[i] {
                if count == target {
                    proof {
                        crate::types::lemma_index_decode(self.w as int, self.h as int, i as int);
                    }
                    let r = Vec2i { x: (i % self.w) as i32, y: (i / self.w) as i32 };
                    assert(r.y * self.w + r.x == i);
                    assert(count == target);
                    return r;
                }
                count = count + 1;
            }
            i = i + 1;
        }
        assert(false);
        Vec2i { x: 0, y: 0 }
    }
}

impl BuildStrategy for WilsonGen {
    /// The passages form a tree over the cells of the maze, `unvisited` counts the cells
    /// outside it (and is 0 exactly when the builder is done), and the walk is well formed.
    closed spec fn inv(&self, maze: &Maze) -> bool {
        &&& maze.wf()
        &&& maze.cell_count() >= 1
        &&& self.w == maze.w
        &&& self.h == maze.h
        &&& self.in_maze@.len() == maze.cell_count()
        &&& self.in_maze@[0]
        &&& grown_tree(*maze, self.in_maze@)
        &&& self.unvisited == maze.cell_count() - marked(self.in_maze@).len()
        &&& self.done <==> self.unvisited == 0
        &&& walk_ok(*maze, self.in_maze@, self.walk@, self.walk_idx@)
    }

    closed spec fn is_done(&self) -> bool {
        self.done
    }

    fn name(&self) -> (s: &'static str)
        ensures
            s@ == "Wilson's"@,
    {
        "Wilson's"
    }

    fn done(&self) -> (b: bool) {
        self.done
    }

    /// Starts a walk at a random cell outside the maze, or moves it one random step:
    /// onto the maze (the walk is carved in and its cells, each followed by the next one,
    /// are returned), onto itself (the loop is erased), or elsewhere (the walk grows).
    fn step(&mut self, maze: &mut Maze) -> (updated: Vec<Vec2i>)
        ensures
            updated@.len() == 0 ==> final(maze).grid@ == old(maze).grid@,
            updated@.len() > 0 ==> {
                &&& updated@.len() == 2 * old(self).walk_cells().len()
                &&& forall|i: int|
                    0 <= i < old(self).walk_cells().len() ==> updated@[2 * i]
                        == #[trigger] old(self).walk_cells()[i]
                &&& forall|i: int|
                    1 <= i < old(self).walk_cells().len() ==> updated@[2 * i - 1]
                        == #[trigger] old(self).walk_cells()[i]
                &&& final(maze).open_edges().len() == old(maze).open_edges().len()
                    + old(self).walk_cells().len()
                &&& final(self).walk_cells().len() == 0
                &&& final(self).unvisited_count() == old(self).unvisited_count()
                    - old(self).walk_cells().len()
                &&& forall|j: int|
                    0 <= j < old(self).walk_cells().len() ==> final(self).in_maze_cells()[old(maze).index_of(
                        #[trigger] old(self).walk_cells()[j],
                    )]
                &&& forall|c: int|
                    0 <= c < old(self).in_maze_cells().len() && #[trigger] old(self).in_maze_cells()[c]
                        ==> final(self).in_maze_cells()[c]
            },
            old(self).is_done() ==> updated@.len() == 0 && *final(self) == *old(self) && *final(maze)
                == *old(maze),
            !old(self).is_done() && old(self).walk_cells().len() == 0 ==> {
                let start = final(self).walk_cells()[0];
                &&& updated@.len() == 0
                &&& *final(maze) == *old(maze)
                &&& final(self).seed_state() == xorshift_next(old(self).seed_state())
                &&& final(self).in_maze_cells() == old(self).in_maze_cells()
                &&& final(self).walk_cells().len() == 1
                &&& old(maze).contains(start)
                &&& !old(self).in_maze_cells()[old(maze).index_of(start)]
                &&& count_unmarked(old(self).in_maze_cells(), old(maze).index_of(start)) == (xorshift_next(
                    old(self).seed_state(),
                ) as int) % old(self).unvisited_count()
            },
            !old(self).is_done() && old(self).walk_cells().len() > 0 ==> {
                let w = old(self).walk_cells();
                let v = old(self).in_maze_cells();
                &&& final(self).seed_state() == seed_after_pick(*old(maze), w.last(), old(self).seed_state())
                &&& match neighbor_pick(*old(maze), w.last(), old(self).seed_state()) {
                    None => {
                        &&& updated@.len() == 0
                        &&& *final(maze) == *old(maze)
                        &&& final(self).walk_cells() == w
                        &&& final(self).in_maze_cells() == v
                    },
                    Some((_, next)) => if v[old(maze).index_of(next)] {
                        &&& updated@.len() == 2 * w.len()
                        &&& forall|i: int|
                            0 <= i < w.len() ==> updated@[2 * i] == #[trigger] w[i] && updated@[2 * i
                                + 1] == walk_succ(w, next, i)
                        &&& final(maze).open_edges() == old(maze).open_edges().union(
                            walk_keys(*old(maze), w, next, 0),
                        )
                    } else if w.contains(next) {
                        &&& updated@.len() == 0
                        &&& *final(maze) == *old(maze)
                        &&& final(self).in_maze_cells() == v
                        &&& exists|j: int| 0 <= j < w.len() && w[j] == next && final(self).walk_cells() == w.take(j + 1)
                    } else {
                        &&& updated@.len() == 0
                        &&& *final(maze) == *old(maze)
                        &&& final(self).in_maze_cells() == v
                        &&& final(self).walk_cells() == w.push(next)
                    },
                }
            },
    {
        if self.done {
            return Vec::new();
        }
        let ghost n = maze.cell_count();
        if self.walk.len() == 0 {
            proof {
                lemma_count_unmarked(self.in_maze@);
            }
            let start = self.random_unvisited();
            let start_idx = self.cidx(start);
            assert(maze.contains(start));
            let ghost wi0 = self.walk_idx@;
            self.walk_idx.set(start_idx, Some(0));
            self.walk.push(start);
            proof {
                assert forall|j: int|
                    0 <= j < self.walk_idx@.len() && (#[trigger] self.walk_idx@[j]) is Some implies self.walk_idx@[j]->0
                        < self.walk@.len() && maze.index_of(self.walk@[self.walk_idx@[j]->0 as int]) == j by {
                    if j != start_idx {
                        assert(wi0[j] is Some);
                    }
                }
            }
            return Vec::new();
        }
        let current = self.walk[self.walk.len() - 1];
        assert(maze.contains(current)) by {
            assert(maze.contains(self.walk@[self.walk@.len() - 1]));
        }
        let Some((_dir, next)) = random_neighbor(maze, current, &mut self.seed) else {
            return Vec::new();
        };
        let next_idx = self.cidx(next);
        proof {
            maze.lemma_contains_coords_ok(next);
        }
        if self.in_maze[next_idx] {
            let ghost pre = *self;
            let updated = self.commit_walk(maze, next);
            assert(pre.in_maze_cells() == old(self).in_maze_cells());
            assert forall|c: int|
                0 <= c < old(self).in_maze_cells().len() && #[trigger] old(self).in_maze_cells()[c]
                    implies self.in_maze_cells()[c] by {
                assert(pre.in_maze_cells()[c]);
            }
            return updated;
        }
        if let Some(loop_idx) = self.walk_idx[next_idx] {
            let ghost w0 = self.walk@;
            let ghost seed1 = self.seed;
            let ghost v1 = self.in_maze@;
            proof {
                assert(maze.index_of(w0[loop_idx as int]) == next_idx);
                maze.lemma_index_of_injective(w0[loop_idx as int], next);
            }
            while self.walk.len() > loop_idx + 1
                invariant
                    self.seed == seed1,
                    self.in_maze@ == v1,
                    maze.wf(),
                    maze.cell_count() >= 1,
                    self.in_maze@[0],
                    grown_tree(*maze, self.in_maze@),
                    self.unvisited == maze.cell_count() - marked(self.in_maze@).len(),
                    self.done <==> self.unvisited == 0,
                    maze.cell_count() == n,
                    self.w == maze.w,
                    self.h == maze.h,
                    loop_idx < self.walk@.len() <= w0.len(),
                    forall|i: int| 0 <= i < self.walk@.len() ==> self.walk@[i] == w0[i],
                    self.in_maze@.len() == n,
                    forall|j: int|
                        0 <= j < self.walk_idx@.len() && (#[trigger] self.walk_idx@[j]) is Some
                            ==> self.walk_idx@[j]->0 < w0.len() && maze.index_of(
                            w0[self.walk_idx@[j]->0 as int],
                        ) == j,
                    forall|j: int|
                        0 <= j < self.walk_idx@.len() && (#[trigger] self.walk_idx@[j]) is Some
                            ==> self.walk_idx@[j]->0 < self.walk@.len(),
                    forall|i: int|
                        0 <= i < self.walk@.len() ==> maze.contains(#[trigger] self.walk@[i])
                            && !self.in_maze@[maze.index_of(self.walk@[i])]
                            && self.walk_idx@[maze.index_of(self.walk@[i])] == Some(i as usize),
                    self.walk_idx@.len() == n,
                decreases self.walk@.len(),
            {
                let ghost wi0 = self.walk_idx@;
                let ghost wl = self.walk@;
                let c = self.walk.pop().unwrap();
                assert(c == wl[wl.len() - 1]);
                assert(maze.contains(c));
                let ci = self.cidx(c);
                assert(ci == maze.index_of(c));
                assert(wi0[ci as int] == Some((wl.len() - 1) as usize));
                self.walk_idx.set(ci, None);
                proof {
                    assert forall|i: int|
                        0 <= i < self.walk@.len() implies maze.contains(#[trigger] self.walk@[i])
                            && !self.in_maze@[maze.index_of(self.walk@[i])]
                            && self.walk_idx@[maze.index_of(self.walk@[i])] == Some(i as usize) by {
                        assert(self.walk@[i] == wl[i]);
                        assert(maze.contains(wl[i]));
                        maze.lemma_contains_coords_ok(wl[i]);
                        let ii = maze.index_of(wl[i]);
                        assert(wi0[ii] == Some(i as usize));
                        assert(ii != ci);
                    }
                    assert forall|j: int|
                        0 <= j < self.walk_idx@.len() && (#[trigger] self.walk_idx@[j]) is Some
                            implies self.walk_idx@[j]->0 < self.walk@.len() by {
                        assert(wi0[j] is Some);
                        if wi0[j]->0 == wl.len() - 1 {
                            assert(maze.index_of(w0[wi0[j]->0 as int]) == j);
                            assert(w0[wl.len() - 1] == c);
                        }
                    }
                }
            }
            proof {
                assert forall|j: int|
                    0 <= j < self.walk_idx@.len() && (#[trigger] self.walk_idx@[j]) is Some implies self.walk_idx@[j]->0
                        < self.walk@.len() && maze.index_of(self.walk@[self.walk_idx@[j]->0 as int]) == j by {
                    assert(self.walk@[self.walk_idx@[j]->0 as int] == w0[self.walk_idx@[j]->0 as int]);
                }
                assert forall|i: int| 0 <= i < self.walk@.len() - 1 implies adjacent(#[trigger] self.walk@[i], self.walk@[i + 1]) by {
                    assert(adjacent(w0[i], w0[i + 1]));
                }
                assert(self.walk@ == w0.take(loop_idx + 1));
                assert(w0[loop_idx as int] == next);
                assert(w0.contains(next));
            }
            return Vec::new();
        }
        let ghost wi0 = self.walk_idx@;
        let ghost wl = self.walk@;
        self.walk_idx.set(next_idx, Some(self.walk.len()));
        self.walk.push(next);
        proof {
            assert(adjacent(current, next)) by {
                assert(next == step_toward(current, _dir));
            }
            assert forall|i: int| 0 <= i < self.walk@.len() - 1 implies adjacent(#[trigger] self.walk@[i], self.walk@[i + 1]) by {
                if i < wl.len() - 1 {
                    assert(adjacent(wl[i], wl[i + 1]));
                }
            }
            assert forall|i: int|
                0 <= i < self.walk@.len() implies maze.contains(#[trigger] self.walk@[i])
                    && !self.in_maze@[maze.index_of(self.walk@[i])]
                    && self.walk_idx@[maze.index_of(self.walk@[i])] == Some(i as usize) by {
                if i < wl.len() {
                    assert(self.walk@[i] == wl[i]);
                    maze.lemma_contains_coords_ok(wl[i]);
                    if maze.index_of(wl[i]) == next_idx {
                        assert(wi0[next_idx as int] == Some(i as usize));
                    }
                }
            }
            assert forall|j: int|
                0 <= j < self.walk_idx@.len() && (#[trigger] self.walk_idx@[j]) is Some implies self.walk_idx@[j]->0
                    < self.walk@.len() && maze.index_of(self.walk@[self.walk_idx@[j]->0 as int]) == j by {
                if j != next_idx {
                    assert(wi0[j] is Some);
                }
            }
        }
        Vec::new()
    }
}

impl WilsonGen {
    /// Carves the walk into the maze, the last cell into `next`, and reports each walk
    /// cell followed by the cell it was joined to.
    #[verifier::rlimit(60)]
    fn commit_walk(&mut self, maze: &mut Maze, next: Vec2i) -> (updated: Vec<Vec2i>)
        requires
            old(self).inv(old(maze)),
            !old(self).done,
            old(self).walk@.len() > 0,
            old(maze).contains(next),
            old(self).in_maze@[old(maze).index_of(next)],
            adjacent(old(self).walk@.last(), next),
        ensures
            outer_walls_same(*old(maze), *final(maze)),
            final(self).inv(final(maze)),
            final(maze).w == old(maze).w,
            final(maze).h == old(maze).h,
            updated@.len() == 2 * old(self).walk_cells().len(),
            forall|i: int|
                0 <= i < old(self).walk_cells().len() ==> updated@[2 * i] == #[trigger] old(self).walk_cells()[i],
            forall|i: int|
                1 <= i < old(self).walk_cells().len() ==> updated@[2 * i - 1]
                    == #[trigger] old(self).walk_cells()[i],
            forall|i: int|
                0 <= i < old(self).walk_cells().len() ==> updated@[2 * i + 1] == walk_succ(
                    old(self).walk_cells(),
                    next,
                    i,
                ),
            final(maze).open_edges().len() == old(maze).open_edges().len()
                + old(self).walk_cells().len(),
            final(maze).open_edges() == old(maze).open_edges().union(
                walk_keys(*old(maze), old(self).walk_cells(), next, 0),
            ),
            final(self).walk_cells().len() == 0,
            final(self).unvisited_count() == old(self).unvisited_count() - old(self).walk_cells().len(),
            final(self).seed_state() == old(self).seed_state(),
            forall|j: int|
                0 <= j < old(self).walk_cells().len() ==> final(self).in_maze_cells()[old(maze).index_of(
                    #[trigger] old(self).walk_cells()[j],
                )],
            forall|c: int|
                0 <= c < old(self).in_maze_cells().len() && #[trigger] old(self).in_maze_cells()[c]
                    ==> final(self).in_maze_cells()[c],
    {
        let ghost n = maze.cell_count();
        let ghost m_start = *maze;
        let len = self.walk.len();
        let mut updated: Vec<Vec2i> = Vec::new();
        let mut i: usize = 0;
        while i < len
            invariant
                len == self.walk@.len(),
                i <= len,
                updated@.len() == 2 * i,
                forall|j: int| 0 <= j < i ==> updated@[2 * j] == #[trigger] self.walk@[j],
                forall|j: int| 1 <= j <= i && j < len ==> updated@[2 * j - 1] == #[trigger] self.walk@[j],
                forall|j: int| 0 <= j < i ==> updated@[2 * j + 1] == walk_succ(self.walk@, next, j),
            decreases len - i,
        {
            let from = self.walk[i];
            let to = if i + 1 < len {
                self.walk[i + 1]
            } else {
                next
            };
            updated.push(from);
            updated.push(to);
            i = i + 1;
        }
        let ghost w0 = self.walk@;
        let ghost v_start = self.in_maze@;
        let ghost open_start = maze.open_edges().len();
        let ghost un_start = self.unvisited;
        let mut i: usize = len;
        while i > 0
            invariant
                maze.wf(),
                !self.done,
                maze.cell_count() == n,
                maze.w == m_start.w,
                maze.h == m_start.h,
                self.w == maze.w,
                self.h == maze.h,
                self.walk@ == w0,
                len == w0.len(),
                i <= len,
                maze.contains(next),
                self.in_maze@[maze.index_of(next)],
                adjacent(w0.last(), next),
                forall|j: int| 0 <= j < len - 1 ==> adjacent(#[trigger] w0[j], w0[j + 1]),
                self.in_maze@.len() == n,
                self.in_maze@[0],
                forall|j: int| 0 <= j < len ==> maze.contains(#[trigger] w0[j]),
                forall|j: int| 0 <= j < i ==> !self.in_maze@[maze.index_of(#[trigger] w0[j])],
                forall|j: int| i <= j < len ==> self.in_maze@[maze.index_of(#[trigger] w0[j])],
                forall|j: int| 0 <= j < i ==> self.walk_idx@[maze.index_of(#[trigger] w0[j])] == Some(j as usize),
                self.walk_idx@.len() == n,
                forall|c: int|
                    0 <= c < self.walk_idx@.len() && (#[trigger] self.walk_idx@[c]) is Some ==> self.walk_idx@[c]->0 < i
                        && maze.index_of(w0[self.walk_idx@[c]->0 as int]) == c,
                grown_tree(*maze, self.in_maze@),
                self.unvisited == n - marked(self.in_maze@).len(),
                self.unvisited == un_start - (len - i),
                maze.open_edges().len() == open_start + (len - i),
                maze.open_edges() == m_start.open_edges().union(walk_keys(m_start, w0, next, i as int)),
                self.seed == old(self).seed,
                w0 == old(self).walk@,
                v_start == old(self).in_maze@,
                outer_walls_same(*old(maze), *maze),
                m_start == *old(maze),
                forall|c: int| 0 <= c < n && #[trigger] v_start[c] ==> self.in_maze@[c],
            decreases i,
        {
            i = i - 1;
            let from = self.walk[i];
            let to = if i + 1 < len {
                self.walk[i + 1]
            } else {
                next
            };
            assert(adjacent(from, to));
            proof {
                maze.lemma_contains_coords_ok(from);
                maze.lemma_contains_coords_ok(to);
            }
            let d = dir_between(from, to);
            let from_idx = self.cidx(from);
            let ghost m0 = *maze;
            let ghost v0 = self.in_maze@;
            let ghost wi0 = self.walk_idx@;
            proof {
                lemma_marked_insert(v0, from_idx as int);
                m0.lemma_open_edges_finite();
                m0.lemma_edge_key(from, d);
                m0.lemma_edge_key(to, opposite_dir(d));
                assert(step_toward(to, opposite_dir(d)) == from);
            }
            maze.carve(from, d);
            self.in_maze.set(from_idx, true);
            self.walk_idx.set(from_idx, None);
            proof {
                let key = m_start.edge_key(from, d);
                assert(d == dir_between_spec(w0[i as int], walk_succ(w0, next, i as int)));
                assert(walk_keys(m_start, w0, next, i as int) =~= walk_keys(
                    m_start,
                    w0,
                    next,
                    i + 1,
                ).insert(key)) by {
                    assert forall|k: int| #[trigger] walk_keys(m_start, w0, next, i as int).contains(k)
                        implies walk_keys(m_start, w0, next, i + 1).insert(key).contains(k) by {
                        let j = choose|j: int|
                            i <= j < w0.len() && k == #[trigger] m_start.edge_key(
                                w0[j],
                                dir_between_spec(w0[j], walk_succ(w0, next, j)),
                            );
                        if j != i {
                            assert(walk_keys(m_start, w0, next, i + 1).contains(k));
                        }
                    }
                    assert forall|k: int| #[trigger] walk_keys(m_start, w0, next, i + 1).insert(key).contains(k)
                        implies walk_keys(m_start, w0, next, i as int).contains(k) by {
                        if k != key {
                            let j = choose|j: int|
                                i + 1 <= j < w0.len() && k == #[trigger] m_start.edge_key(
                                    w0[j],
                                    dir_between_spec(w0[j], walk_succ(w0, next, j)),
                                );
                        }
                    }
                }
                assert(maze.open_edges() =~= m_start.open_edges().union(walk_keys(m_start, w0, next, i as int)));
            }
            proof {
                lemma_outer_walls_same_trans(*old(maze), m0, *maze);
                lemma_grown_tree_extend(m0, v0, *maze, to, opposite_dir(d));
                assert(!m0.open_edges().contains(m0.edge_key(from, d)));
                assert forall|j: int| 0 <= j < i implies !self.in_maze@[maze.index_of(#[trigger] w0[j])] by {
                    maze.lemma_contains_coords_ok(w0[j]);
                    assert(wi0[maze.index_of(w0[j])] == Some(j as usize));
                    assert(wi0[from_idx as int] == Some(i as usize));
                }
                assert forall|j: int| i <= j < len implies self.in_maze@[maze.index_of(#[trigger] w0[j])] by {
                    maze.lemma_contains_coords_ok(w0[j]);
                }
                assert forall|j: int| 0 <= j < i implies self.walk_idx@[maze.index_of(#[trigger] w0[j])] == Some(j as usize) by {
                    maze.lemma_contains_coords_ok(w0[j]);
                    assert(wi0[maze.index_of(w0[j])] == Some(j as usize));
                    assert(wi0[from_idx as int] == Some(i as usize));
                }
                assert forall|c: int|
                    0 <= c < self.walk_idx@.len() && (#[trigger] self.walk_idx@[c]) is Some implies self.walk_idx@[c]->0 < i
                        && maze.index_of(w0[self.walk_idx@[c]->0 as int]) == c by {
                    assert(wi0[c] is Some);
                    if wi0[c]->0 == i {
                        assert(maze.index_of(w0[i as int]) == c);
                    }
                }
                maze.lemma_contains_coords_ok(next);
                assert(self.in_maze@[maze.index_of(next)]);
            }
            self.unvisited = self.unvisited - 1;
        }
        self.walk = Vec::new();
        if self.unvisited == 0 {
            self.done = true;
        }
        proof {
            assert forall|c: int| 0 <= c < self.walk_idx@.len() implies !((#[trigger] self.walk_idx@[c]) is Some) by {}
            assert(maze.wf());
            assert(self.in_maze@.len() == maze.cell_count());
            assert(grown_tree(*maze, self.in_maze@));
            assert(self.unvisited == maze.cell_count() - marked(self.in_maze@).len());
            assert(self.done <==> self.unvisited == 0);
            assert(walk_ok(*maze, self.in_maze@, self.walk@, self.walk_idx@));
        }
        updated
    }

    /// Once the builder is done every cell is in the maze and the maze is a spanning tree:
    /// it has exactly `w * h - 1` passages, and a walk joins any two cells.
    pub proof fn lemma_done_is_perfect(&self, maze: &Maze)
        requires
            self.inv(maze),
            self.is_done(),
        ensures
            maze.open_edges().len() == maze.cell_count() - 1,
            maze.outer_walls_closed() ==> open_flag_count(*maze) == 2 * (maze.cell_count() - 1),
            forall|p: Vec2i, q: Vec2i|
                maze.contains(p) && maze.contains(q) ==> #[trigger] joined(*maze, p, q),
            forall|i: int| 0 <= i < maze.cell_count() ==> #[trigger] self.in_maze_cells()[i],
    {
        lemma_grown_tree_complete(*maze, self.in_maze@);
        assert forall|i: int| 0 <= i < maze.cell_count() implies #[trigger] self.in_maze_cells()[i] by {
            lemma_marked_full(self.in_maze@, i);
        }
        if maze.outer_walls_closed() {
            lemma_open_flag_count(*maze);
        }
    }
}

} // verus!
