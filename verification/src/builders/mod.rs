pub mod aldous_broder;
pub mod binary_tree;
pub mod braided;
pub mod eller;
pub mod growing_tree;
pub mod houston;
pub mod kruskal;
pub mod origin_shift;
pub mod hunt_and_kill;
pub mod prim;
pub mod recursive_backtracker;
pub mod recursive_division;
pub mod sidewinder;
pub mod spiral_backtracker;
pub mod wilson;

use vstd::prelude::*;

use crate::rng::{clock_subsec_nanos, lemma_xorshift_iter_succ, xorshift, xorshift_iter};
use crate::types::{Dir, Maze, Vec2i, coords_ok, dir_at, dir_from_index, outer_walls_same, step_toward};

verus! {

/// A maze generator that carves (or builds) a few walls at a time.
pub trait BuildStrategy: Sized {
    /// What holds of the generator and the maze it is working on between two steps.
    spec fn inv(&self, maze: &Maze) -> bool;

    spec fn is_done(&self) -> bool;

    fn name(&self) -> &'static str;

    fn done(&self) -> (b: bool)
        ensures
            b == self.is_done(),
    ;

    /// Performs one step and returns the cells whose drawing changed.
    fn step(&mut self, maze: &mut Maze) -> (updated: Vec<Vec2i>)
        requires
            old(self).inv(old(maze)),
        ensures
            final(self).inv(final(maze)),
            final(maze).w == old(maze).w,
            final(maze).h == old(maze).h,
            outer_walls_same(*old(maze), *final(maze)),
    ;
}

/// The direction of draw number `t` (counting from 0) of a generator in state `s`: the
/// next state modulo 4, as an index into N, E, S, W.
pub open spec fn draw_dir(s: u32, t: nat) -> Dir {
    dir_from_index((xorshift_iter(s, t + 1) % 4) as int)
}

/// Draw number `t` from `s` leads from `from` to a cell of the grid.
pub open spec fn draw_fits(maze: Maze, from: Vec2i, s: u32, t: nat) -> bool {
    maze.contains(step_toward(from, draw_dir(s, t)))
}

/// Draw number `t` is the first of the generator's 2^32 draws from `s` that leads from
/// `from` into the grid.
pub open spec fn first_fit(maze: Maze, from: Vec2i, s: u32, t: nat) -> bool {
    &&& t < 0x1_0000_0000
    &&& draw_fits(maze, from, s, t)
    &&& forall|u: nat| u < t ==> !#[trigger] draw_fits(maze, from, s, u)
}

/// The direction and the cell that `random_neighbor` picks from `from` with the
/// generator in state `s`: those of the first draw that fits, if one does.
pub open spec fn neighbor_pick(maze: Maze, from: Vec2i, s: u32) -> Option<(Dir, Vec2i)> {
    if exists|t: nat| first_fit(maze, from, s, t) {
        let t = choose|t: nat| first_fit(maze, from, s, t);
        Some((draw_dir(s, t), step_toward(from, draw_dir(s, t))))
    } else {
        None
    }
}

/// The generator state that `random_neighbor` leaves: one step past the first draw that
/// fits, or 2^32 steps on if none does.
pub open spec fn seed_after_pick(maze: Maze, from: Vec2i, s: u32) -> u32 {
    if exists|t: nat| first_fit(maze, from, s, t) {
        let t = choose|t: nat| first_fit(maze, from, s, t);
        xorshift_iter(s, t + 1)
    } else {
        xorshift_iter(s, 0x1_0000_0000)
    }
}

/// Once draw number `t` is the first that fits, it is the one picked.
pub proof fn lemma_first_fit_pick(maze: Maze, from: Vec2i, s: u32, t: nat)
    requires
        first_fit(maze, from, s, t),
    ensures
        neighbor_pick(maze, from, s) == Some((draw_dir(s, t), step_toward(from, draw_dir(s, t)))),
        seed_after_pick(maze, from, s) == xorshift_iter(s, t + 1),
{
    let c = choose|c: nat| first_fit(maze, from, s, c);
    if c < t {
        assert(!draw_fits(maze, from, s, c));
    } else if t < c {
        assert(!draw_fits(maze, from, s, t));
    }
    assert(c == t);
}

/// Draws directions N, E, S, W uniformly (the next state modulo 4) until one leads from
/// `from` to a cell of the grid. The generator is tried at most 2^32 times, which covers
/// its whole period; `None` comes back only if none of those draws fits.
pub fn random_neighbor(maze: &Maze, from: Vec2i, seed: &mut u32) -> (r: Option<(Dir, Vec2i)>)
    requires
        maze.dims_ok(),
        maze.contains(from),
    ensures
        r == neighbor_pick(*maze, from, *old(seed)),
        *final(seed) == seed_after_pick(*maze, from, *old(seed)),
        r matches Some((d, n)) ==> n == step_toward(from, d) && maze.contains(n),
        r is None ==> forall|t: nat| t < 0x1_0000_0000 ==> !#[trigger] draw_fits(*maze, from, *old(seed), t),
{
    proof {
        maze.lemma_contains_coords_ok(from);
    }
    let ghost s0 = *seed;
    let mut tries: u64 = 0;
    while tries < 0x1_0000_0000
        invariant
            tries <= 0x1_0000_0000,
            maze.dims_ok(),
            maze.contains(from),
            coords_ok(from),
            s0 == *old(seed),
            *seed == xorshift_iter(s0, tries as nat),
            forall|u: nat| u < tries ==> !#[trigger] draw_fits(*maze, from, s0, u),
        decreases 0x1_0000_0000 - tries,
    {
        proof {
            lemma_xorshift_iter_succ(s0, tries as nat);
        }
        let d = dir_at((xorshift(seed) as usize) % 4);
        let n = maze.neighbor(from, d);
        assert(d == draw_dir(s0, tries as nat));
        if maze.in_bounds(n) {
            proof {
                lemma_first_fit_pick(*maze, from, s0, tries as nat);
            }
            return Some((d, n));
        }
        tries = tries + 1;
    }
    proof {
        assert(!exists|t: nat| first_fit(*maze, from, s0, t)) by {
            if exists|t: nat| first_fit(*maze, from, s0, t) {
                let t = choose|t: nat| first_fit(*maze, from, s0, t);
                assert(draw_fits(*maze, from, s0, t));
            }
        }
    }
    None
}

/// The step from `cell` in direction `d` stays in the grid and reaches a cell not yet in `v`.
pub open spec fn leads_to_unvisited(maze: Maze, v: Seq<bool>, cell: Vec2i, d: Dir) -> bool {
    maze.contains(step_toward(cell, d)) && !v[maze.index_of(step_toward(cell, d))]
}

/// `dirs[k]` is the first of the four `dirs` that leads from `cell` to an unvisited cell
/// of the grid.
pub open spec fn first_leading(maze: Maze, v: Seq<bool>, cell: Vec2i, dirs: Seq<Dir>, k: int) -> bool {
    &&& 0 <= k < 4
    &&& leads_to_unvisited(maze, v, cell, dirs[k])
    &&& forall|j: int| 0 <= j < k ==> !leads_to_unvisited(maze, v, cell, #[trigger] dirs[j])
}

/// The direction and the cell that `first_unvisited_neighbor` picks: those of the first
/// of `dirs` that leads to an unvisited cell, if one does.
pub open spec fn unvisited_pick(maze: Maze, v: Seq<bool>, cell: Vec2i, dirs: Seq<Dir>) -> Option<(Dir, Vec2i)> {
    if exists|k: int| first_leading(maze, v, cell, dirs, k) {
        let k = choose|k: int| first_leading(maze, v, cell, dirs, k);
        Some((dirs[k], step_toward(cell, dirs[k])))
    } else {
        None
    }
}

/// The first of `dirs` that leads from `cell` to an unvisited cell of the grid.
pub fn first_unvisited_neighbor(maze: &Maze, visited: &Vec<bool>, cell: Vec2i, dirs: &[Dir; 4]) -> (r:
    Option<(Dir, Vec2i)>)
    requires
        maze.dims_ok(),
        maze.contains(cell),
        visited@.len() == maze.cell_count(),
    ensures
        match r {
            Some((d, n)) => {
                &&& n == step_toward(cell, d)
                &&& leads_to_unvisited(*maze, visited@, cell, d)
                &&& exists|k: int|
                    0 <= k < 4 && dirs@[k] == d && forall|j: int|
                        0 <= j < k ==> !leads_to_unvisited(*maze, visited@, cell, #[trigger] dirs@[j])
            },
            None => forall|j: int|
                0 <= j < 4 ==> !leads_to_unvisited(*maze, visited@, cell, #[trigger] dirs@[j]),
        },
        r == unvisited_pick(*maze, visited@, cell, dirs@),
{
    proof {
        maze.lemma_contains_coords_ok(cell);
    }
    let mut k: usize = 0;
    while k < 4
        invariant
            k <= 4,
            maze.dims_ok(),
            maze.contains(cell),
            coords_ok(cell),
            visited@.len() == maze.cell_count(),
            forall|j: int| 0 <= j < k ==> !leads_to_unvisited(*maze, visited@, cell, #[trigger] dirs@[j]),
        decreases 4 - k,
    {
        let d = dirs[k];
        let n = maze.neighbor(cell, d);
        if maze.in_bounds(n) && !visited[maze.idx(n)] {
            assert(dirs@[k as int] == d);
            proof {
                let t = k as int;
                assert(first_leading(*maze, visited@, cell, dirs@, t));
                let c = choose|c: int| first_leading(*maze, visited@, cell, dirs@, c);
                if c < t {
                    assert(!leads_to_unvisited(*maze, visited@, cell, dirs@[c]));
                } else if t < c {
                    assert(!leads_to_unvisited(*maze, visited@, cell, dirs@[t]));
                }
                assert(c == t);
            }
            return Some((d, n));
        }
        k = k + 1;
    }
    proof {
        if exists|t: int| first_leading(*maze, visited@, cell, dirs@, t) {
            let t = choose|t: int| first_leading(*maze, visited@, cell, dirs@, t);
            assert(leads_to_unvisited(*maze, visited@, cell, dirs@[t]));
        }
    }
    None
}

/// When none of four directions that include every direction leads to an unvisited
/// cell, every neighbour of `cell` is visited.
pub proof fn lemma_no_unvisited_saturated(maze: Maze, v: Seq<bool>, cell: Vec2i, dirs: Seq<Dir>)
    requires
        dirs.len() == 4,
        forall|d: Dir| #[trigger] dirs.contains(d),
        forall|j: int| 0 <= j < 4 ==> !leads_to_unvisited(maze, v, cell, #[trigger] dirs[j]),
    ensures
        crate::forest::saturated(maze, v, cell),
{
    assert forall|d: Dir| #[trigger] maze.contains(step_toward(cell, d)) implies v[maze.index_of(step_toward(cell, d))] by {
        assert(dirs.contains(d));
        let j = choose|j: int| 0 <= j < dirs.len() && dirs[j] == d;
        assert(!leads_to_unvisited(maze, v, cell, dirs[j]));
    }
}

/// One of the generators that a new maze may be built with.
pub enum Builder {
    Kruskal(kruskal::KruskalGen),
    Prim(prim::PrimGen),
    RecursiveBacktracker(recursive_backtracker::RecursiveBacktracker),
    AldousBroder(aldous_broder::AldousBroder),
    BinaryTree(binary_tree::BinaryTree),
}

impl Builder {
    /// What one step does: the generator keeps its kind, and the step contract of the
    /// generator inside holds.
    pub open spec fn step_post(self, after: Self, m0: Maze, m1: Maze, updated: Seq<Vec2i>) -> bool {
        match (self, after) {
            (Builder::Kruskal(a), Builder::Kruskal(b)) => a.step_post(b, m0, m1, updated),
            (Builder::Prim(a), Builder::Prim(b)) => a.step_post(b, m0, m1, updated),
            (Builder::RecursiveBacktracker(a), Builder::RecursiveBacktracker(b)) => a.step_post(b, m0, m1, updated),
            (Builder::AldousBroder(a), Builder::AldousBroder(b)) => a.step_post(b, m0, m1, updated),
            (Builder::BinaryTree(a), Builder::BinaryTree(b)) => a.step_post(b, m0, m1, updated),
            _ => false,
        }
    }
}

impl BuildStrategy for Builder {
    open spec fn inv(&self, maze: &Maze) -> bool {
        match self {
            Builder::Kruskal(b) => b.inv(maze),
            Builder::Prim(b) => b.inv(maze),
            Builder::RecursiveBacktracker(b) => b.inv(maze),
            Builder::AldousBroder(b) => b.inv(maze),
            Builder::BinaryTree(b) => b.inv(maze),
        }
    }

    open spec fn is_done(&self) -> bool {
        match self {
            Builder::Kruskal(b) => b.is_done(),
            Builder::Prim(b) => b.is_done(),
            Builder::RecursiveBacktracker(b) => b.is_done(),
            Builder::AldousBroder(b) => b.is_done(),
            Builder::BinaryTree(b) => b.is_done(),
        }
    }

    fn name(&self) -> (s: &'static str)
        ensures
            s@ == match *self {
                Builder::Kruskal(_) => "Kruskal's"@,
                Builder::Prim(_) => "Prim's"@,
                Builder::RecursiveBacktracker(_) => "Recursive Backtracker"@,
                Builder::AldousBroder(_) => "Aldous-Broder"@,
                Builder::BinaryTree(_) => "Binary Tree"@,
            },
    {
        match self {
            Builder::Kruskal(b) => b.name(),
            Builder::Prim(b) => b.name(),
            Builder::RecursiveBacktracker(b) => b.name(),
            Builder::AldousBroder(b) => b.name(),
            Builder::BinaryTree(b) => b.name(),
        }
    }

    fn done(&self) -> (b: bool) {
        match self {
            Builder::Kruskal(b) => b.done(),
            Builder::Prim(b) => b.done(),
            Builder::RecursiveBacktracker(b) => b.done(),
            Builder::AldousBroder(b) => b.done(),
            Builder::BinaryTree(b) => b.done(),
        }
    }

    fn step(&mut self, maze: &mut Maze) -> (updated: Vec<Vec2i>)
        ensures
            old(self).step_post(*final(self), *old(maze), *final(maze), updated@),
    {
        match self {
            Builder::Kruskal(b) => b.step(maze),
            Builder::Prim(b) => b.step(maze),
            Builder::RecursiveBacktracker(b) => b.step(maze),
            Builder::AldousBroder(b) => b.step(maze),
            Builder::BinaryTree(b) => b.step(maze),
        }
    }
}

/// What every generator needs of the maze it starts on: a consistent grid with at least one
/// cell and every wall standing.
pub open spec fn fresh_maze(maze: &Maze) -> bool {
    &&& maze.wf()
    &&& maze.open_edges() == Set::<int>::empty()
    &&& maze.w >= 1
    &&& maze.h >= 1
}

pub fn build_kruskal(maze: &Maze) -> (b: Builder)
    requires
        fresh_maze(maze),
    ensures
        b.inv(maze),
        b is Kruskal,
{
    Builder::Kruskal(kruskal::KruskalGen::new(maze))
}

pub fn build_prim(maze: &Maze) -> (b: Builder)
    requires
        fresh_maze(maze),
    ensures
        b.inv(maze),
        b is Prim,
{
    Builder::Prim(prim::PrimGen::new(maze))
}

pub fn build_recursive_backtracker(maze: &Maze) -> (b: Builder)
    requires
        fresh_maze(maze),
    ensures
        b.inv(maze),
        b is RecursiveBacktracker,
{
    Builder::RecursiveBacktracker(recursive_backtracker::RecursiveBacktracker::new(maze))
}

pub fn build_aldous_broder(maze: &Maze) -> (b: Builder)
    requires
        fresh_maze(maze),
    ensures
        b.inv(maze),
        b is AldousBroder,
{
    Builder::AldousBroder(aldous_broder::AldousBroder::new(maze))
}

pub fn build_binary_tree(maze: &Maze) -> (b: Builder)
    requires
        fresh_maze(maze),
    ensures
        b.inv(maze),
        b is BinaryTree,
{
    Builder::BinaryTree(binary_tree::BinaryTree::new(maze))
}

/// How many generators `build_builder_at` offers.
pub fn builder_count() -> (n: usize)
    ensures
        n == 5,
{
    5
}

/// The generator at position `idx` of the list Kruskal's, Prim's, Recursive Backtracker,
/// Aldous-Broder, Binary Tree.
pub fn build_builder_at(idx: usize, maze: &Maze) -> (b: Builder)
    requires
        idx < 5,
        fresh_maze(maze),
    ensures
        b.inv(maze),
        idx == 0 ==> b is Kruskal,
        idx == 1 ==> b is Prim,
        idx == 2 ==> b is RecursiveBacktracker,
        idx == 3 ==> b is AldousBroder,
        idx == 4 ==> b is BinaryTree,
{
    if idx == 0 {
        build_kruskal(maze)
    } else if idx == 1 {
        build_prim(maze)
    } else if idx == 2 {
        build_recursive_backtracker(maze)
    } else if idx == 3 {
        build_aldous_broder(maze)
    } else {
        build_binary_tree(maze)
    }
}

/// The position below `len` that a nanosecond count selects: the count modulo `len`.
pub open spec fn nanos_index(nanos: u32, len: usize) -> int {
    (nanos as int) % (len as int)
}

/// The position below `len` that the nanosecond count `nanos` selects.
pub fn index_from_nanos(nanos: u32, len: usize) -> (i: usize)
    requires
        len > 0,
    ensures
        i == nanos_index(nanos, len),
        i < len,
{
    (nanos as usize) % len
}

/// A position below `len` taken from the nanoseconds of the clock: those within the current
/// second, modulo `len`.
pub fn random_index(len: usize) -> (i: usize)
    requires
        len > 0,
    ensures
        i < len,
        exists|nanos: u32| nanos < 1_000_000_000 && i == #[trigger] nanos_index(nanos, len),
{
    let nanos = clock_subsec_nanos();
    index_from_nanos(nanos, len)
}

/// A generator picked at random from the list of `build_builder_at`, with its position.
pub fn build_builder(maze: &Maze) -> (r: (usize, Builder))
    requires
        fresh_maze(maze),
    ensures
        r.0 < 5,
        r.1.inv(maze),
        r.0 == 0 ==> r.1 is Kruskal,
        r.0 == 1 ==> r.1 is Prim,
        r.0 == 2 ==> r.1 is RecursiveBacktracker,
        r.0 == 3 ==> r.1 is AldousBroder,
        r.0 == 4 ==> r.1 is BinaryTree,
{
    let idx = random_index(builder_count());
    (idx, build_builder_at(idx, maze))
}

} // verus!
