use vstd::prelude::*;

verus! {

/// How a maze is drawn on the terminal.
#[derive(Clone, Copy, PartialEq, Eq, Structural, Debug)]
pub enum RenderStyle {
    Lines,
    Blocks,
    HalfBlocks,
}

/// A compass direction; its index in a cell's wall array is N=0, E=1, S=2, W=3.
#[derive(Clone, Copy, PartialEq, Eq, Structural, Debug)]
pub enum Dir {
    N,
    E,
    S,
    W,
}

pub open spec fn dir_index(d: Dir) -> int {
    match d {
        Dir::N => 0,
        Dir::E => 1,
        Dir::S => 2,
        Dir::W => 3,
    }
}

pub open spec fn dir_from_index(i: int) -> Dir {
    if i == 0 {
        Dir::N
    } else if i == 1 {
        Dir::E
    } else if i == 2 {
        Dir::S
    } else {
        Dir::W
    }
}

/// The index of `d` in a cell's wall array.
pub fn dir_to_index(d: Dir) -> (i: usize)
    ensures
        i == dir_index(d),
        i < 4,
{
    match d {
        Dir::N => 0,
        Dir::E => 1,
        Dir::S => 2,
        Dir::W => 3,
    }
}

/// The `i`-th entry of the direction list N, E, S, W.
pub fn dir_at(i: usize) -> (d: Dir)
    requires
        i < 4,
    ensures
        d == dir_from_index(i as int),
        dir_index(d) == i,
{
    if i == 0 {
        Dir::N
    } else if i == 1 {
        Dir::E
    } else if i == 2 {
        Dir::S
    } else {
        Dir::W
    }
}

/// The four directions in the order N, E, S, W.
pub fn all_dirs() -> (r: [Dir; 4])
    ensures
        r@ == seq![Dir::N, Dir::E, Dir::S, Dir::W],
{
    [Dir::N, Dir::E, Dir::S, Dir::W]
}

pub open spec fn opposite_dir(d: Dir) -> Dir {
    match d {
        Dir::N => Dir::S,
        Dir::S => Dir::N,
        Dir::W => Dir::E,
        Dir::E => Dir::W,
    }
}

/// A cell position; `x` grows to the east and `y` to the south.
#[derive(Clone, Copy, PartialEq, Eq, Structural, Debug)]
pub struct Vec2i {
    pub x: i32,
    pub y: i32,
}

/// Both coordinates leave room for one step in any direction.
pub open spec fn coords_ok(p: Vec2i) -> bool {
    i32::MIN < p.x < i32::MAX && i32::MIN < p.y < i32::MAX
}

/// The cell in column `x` of row `y`.
pub open spec fn cell_of(x: int, y: int) -> Vec2i {
    Vec2i { x: x as i32, y: y as i32 }
}

/// The coordinate that a step from `p` in direction `d` moves stays within `i32`.
pub open spec fn can_step(p: Vec2i, d: Dir) -> bool {
    match d {
        Dir::N => p.y > i32::MIN,
        Dir::S => p.y < i32::MAX,
        Dir::W => p.x > i32::MIN,
        Dir::E => p.x < i32::MAX,
    }
}

/// The position one step from `p` in direction `d`.
pub open spec fn step_toward(p: Vec2i, d: Dir) -> Vec2i {
    match d {
        Dir::N => Vec2i { x: p.x, y: (p.y - 1) as i32 },
        Dir::S => Vec2i { x: p.x, y: (p.y + 1) as i32 },
        Dir::W => Vec2i { x: (p.x - 1) as i32, y: p.y },
        Dir::E => Vec2i { x: (p.x + 1) as i32, y: p.y },
    }
}

/// Every wall of `m0` that faces out of its grid is the same in `m1`.
pub open spec fn outer_walls_same(m0: Maze, m1: Maze) -> bool {
    forall|p: Vec2i, e: Dir|
        #![trigger m1.wall_of(p, e)]
        m0.contains(p) && !m0.contains(step_toward(p, e)) ==> m1.wall_of(p, e) == m0.wall_of(p, e)
}

/// Keeping the outer walls twice over the same grid keeps them.
pub proof fn lemma_outer_walls_same_trans(a: Maze, b: Maze, c: Maze)
    requires
        outer_walls_same(a, b),
        outer_walls_same(b, c),
        a.w == b.w,
        a.h == b.h,
    ensures
        outer_walls_same(a, c),
{
    assert forall|p: Vec2i, e: Dir|
        #![trigger c.wall_of(p, e)]
        a.contains(p) && !a.contains(step_toward(p, e)) implies c.wall_of(p, e) == a.wall_of(p, e) by {
        assert(c.wall_of(p, e) == b.wall_of(p, e));
    }
}

/// A wall segment named by the cell it starts from and the side it lies on.
#[derive(Clone, Copy, Debug)]
pub struct Edge {
    pub pos: Vec2i,
    pub dir: Dir,
}

/// The four walls of a cell, indexed N, E, S, W.
#[derive(Clone, Copy, Debug)]
pub struct Cell {
    pub wall: [bool; 4],
}

/// A rectangular grid of `w` by `h` cells stored row by row.
pub struct Maze {
    pub w: usize,
    pub h: usize,
    pub grid: Vec<Cell>,
}

/// What a solver has to say about a cell.
#[derive(Clone, Copy, PartialEq, Eq, Structural, Debug)]
pub enum CellMark {
    Unmarked,
    Active,
    Dead,
    Solution,
}

pub proof fn lemma_index_bound(w: int, h: int, x: int, y: int)
    requires
        0 <= x < w,
        0 <= y < h,
    ensures
        0 <= y * w + x < w * h,
        y * w + w <= w * h,
{
    assert(0 <= y * w) by (nonlinear_arith)
        requires
            0 <= y,
            0 <= w,
    ;
    assert(y * w + w <= w * h) by (nonlinear_arith)
        requires
            y < h,
            0 <= w,
    ;
}

pub proof fn lemma_index_coords(w: int, x: int, y: int)
    requires
        0 <= x < w,
        0 <= y,
    ensures
        (y * w + x) % w == x,
        (y * w + x) / w == y,
{
    vstd::arithmetic::div_mod::lemma_fundamental_div_mod_converse(y * w + x, w, y, x);
}

pub proof fn lemma_index_injective(w: int, x1: int, y1: int, x2: int, y2: int)
    requires
        0 <= x1 < w,
        0 <= x2 < w,
        0 <= y1,
        0 <= y2,
        y1 * w + x1 == y2 * w + x2,
    ensures
        x1 == x2,
        y1 == y2,
{
    lemma_index_coords(w, x1, y1);
    lemma_index_coords(w, x2, y2);
}

/// Every index below `w * h` is the row-major index of a cell.
pub proof fn lemma_index_decode(w: int, h: int, i: int)
    requires
        0 <= i < w * h,
        0 < w,
    ensures
        0 <= i % w < w,
        0 <= i / w < h,
        (i / w) * w + (i % w) == i,
{
    vstd::arithmetic::div_mod::lemma_fundamental_div_mod(i, w);
    vstd::arithmetic::div_mod::lemma_mod_bound(i, w);
    vstd::arithmetic::div_mod::lemma_div_pos_is_pos(i, w);
    assert((i / w) * w == w * (i / w)) by (nonlinear_arith);
    if i / w >= h {
        assert((i / w) * w >= h * w) by (nonlinear_arith)
            requires
                i / w >= h,
                w > 0,
        ;
        assert(h * w == w * h) by (nonlinear_arith);
    }
}

impl Maze {
    pub open spec fn cell_count(&self) -> int {
        self.w * self.h
    }

    pub open spec fn contains(&self, p: Vec2i) -> bool {
        0 <= p.x < self.w && 0 <= p.y < self.h
    }

    pub open spec fn index_of(&self, p: Vec2i) -> int {
        p.y * self.w + p.x
    }

    /// The cell at row-major index `i`.
    pub open spec fn cell_at(&self, i: int) -> Vec2i {
        Vec2i { x: (i % (self.w as int)) as i32, y: (i / (self.w as int)) as i32 }
    }

    pub open spec fn wall_at(&self, i: int, d: Dir) -> bool {
        self.grid@[i].wall@[dir_index(d)]
    }

    pub open spec fn wall_of(&self, p: Vec2i, d: Dir) -> bool {
        self.wall_at(self.index_of(p), d)
    }

    /// The grid holds `w * h` cells and every coordinate fits an `i32`.
    pub open spec fn dims_ok(&self) -> bool {
        &&& self.grid@.len() == self.w * self.h
        &&& self.w * self.h <= usize::MAX
        &&& self.w <= i32::MAX
        &&& self.h <= i32::MAX
    }

    /// Two neighbouring cells agree on the wall between them.
    pub open spec fn consistent(&self) -> bool {
        forall|p: Vec2i, d: Dir|
            #![trigger self.wall_of(p, d)]
            self.contains(p) && self.contains(step_toward(p, d)) ==> self.wall_of(p, d)
                == self.wall_of(step_toward(p, d), opposite_dir(d))
    }

    pub open spec fn wf(&self) -> bool {
        self.dims_ok() && self.consistent()
    }

    /// Every wall that faces out of the grid is standing.
    pub open spec fn outer_walls_closed(&self) -> bool {
        forall|p: Vec2i, e: Dir|
            #![trigger self.wall_of(p, e)]
            self.contains(p) && !self.contains(step_toward(p, e)) ==> self.wall_of(p, e)
    }

    /// The number that names the wall between `p` and its neighbour in direction `d`:
    /// twice the index of the western or northern cell, plus one for a wall below it.
    pub open spec fn edge_key(&self, p: Vec2i, d: Dir) -> int {
        match d {
            Dir::E => 2 * self.index_of(p),
            Dir::S => 2 * self.index_of(p) + 1,
            Dir::W => 2 * self.index_of(step_toward(p, d)),
            Dir::N => 2 * self.index_of(step_toward(p, d)) + 1,
        }
    }

    /// The direction from the cell `k / 2` across the wall named `k`.
    pub open spec fn key_dir(k: int) -> Dir {
        if k % 2 == 0 {
            Dir::E
        } else {
            Dir::S
        }
    }

    /// The indices of the two cells that the wall named `k` separates.
    pub open spec fn key_ends(&self, k: int) -> (int, int) {
        if k % 2 == 0 {
            (k / 2, k / 2 + 1)
        } else {
            (k / 2, k / 2 + self.w)
        }
    }

    /// The wall named `k` lies inside the grid and is open.
    pub open spec fn edge_open(&self, k: int) -> bool {
        let i = k / 2;
        &&& 0 <= k < 2 * self.cell_count()
        &&& if k % 2 == 0 {
            i % (self.w as int) + 1 < self.w
        } else {
            i + self.w < self.cell_count()
        }
        &&& !self.wall_at(i, Self::key_dir(k))
    }

    /// The set of open passages between cells of the grid.
    pub open spec fn open_edges(&self) -> Set<int> {
        Set::new(|k: int| self.edge_open(k))
    }

    pub proof fn lemma_open_edges_finite(&self)
        ensures
            self.open_edges().finite(),
            self.open_edges().subset_of(vstd::set_lib::set_int_range(0, 2 * self.cell_count())),
    {
        vstd::set_lib::lemma_int_range(0, 2 * self.cell_count());
        assert(self.open_edges().subset_of(vstd::set_lib::set_int_range(0, 2 * self.cell_count())));
        vstd::set_lib::lemma_len_subset(
            self.open_edges(),
            vstd::set_lib::set_int_range(0, 2 * self.cell_count()),
        );
    }

    /// The wall named `k` is the wall of `cell_at(k / 2)` in direction `key_dir(k)`.
    pub proof fn lemma_key_decode(&self, k: int)
        requires
            self.dims_ok(),
            0 <= k < 2 * self.cell_count(),
        ensures
            self.contains(self.cell_at(k / 2)),
            self.index_of(self.cell_at(k / 2)) == k / 2,
            self.edge_key(self.cell_at(k / 2), Self::key_dir(k)) == k,
            self.edge_open(k) <==> self.contains(
                step_toward(self.cell_at(k / 2), Self::key_dir(k)),
            ) && !self.wall_of(self.cell_at(k / 2), Self::key_dir(k)),
    {
        let w = self.w as int;
        let h = self.h as int;
        let i = k / 2;
        assert(w > 0) by (nonlinear_arith)
            requires
                0 <= k < 2 * (w * h),
                w >= 0,
                h >= 0,
        ;
        lemma_index_decode(w, h, i);
        let p = self.cell_at(i);
        assert(p.x == i % w);
        assert(p.y == i / w);
        if k % 2 == 1 {
            let y = i / w;
            let x = i % w;
            assert(i + w < w * h <==> y + 1 < h) by (nonlinear_arith)
                requires
                    y * w + x == i,
                    0 <= x < w,
                    0 <= y < h,
            ;
        }
    }

    /// The wall between two neighbouring cells is named by a key below `2 * w * h`,
    /// whose two ends are the two cells and which is open iff the wall is.
    pub proof fn lemma_edge_key(&self, p: Vec2i, d: Dir)
        requires
            self.wf(),
            self.contains(p),
            self.contains(step_toward(p, d)),
        ensures
            0 <= self.edge_key(p, d) < 2 * self.cell_count(),
            self.edge_open(self.edge_key(p, d)) <==> !self.wall_of(p, d),
            self.key_ends(self.edge_key(p, d)) == (self.index_of(p), self.index_of(
                step_toward(p, d),
            )) || self.key_ends(self.edge_key(p, d)) == (self.index_of(step_toward(p, d)),
            self.index_of(p)),
    {
        let q = step_toward(p, d);
        let w = self.w as int;
        let h = self.h as int;
        lemma_index_bound(w, h, p.x as int, p.y as int);
        lemma_index_bound(w, h, q.x as int, q.y as int);
        assert(self.wall_of(p, d) == self.wall_of(q, opposite_dir(d)));
        let (c, e) = match d {
            Dir::E => (p, Dir::E),
            Dir::S => (p, Dir::S),
            Dir::W => (q, Dir::E),
            Dir::N => (q, Dir::S),
        };
        let k = self.edge_key(p, d);
        assert(k / 2 == self.index_of(c));
        assert(Self::key_dir(k) == e);
        lemma_index_coords(w, c.x as int, c.y as int);
        assert(self.cell_at(k / 2) == c);
        self.lemma_key_decode(k);
        if e == Dir::S {
            assert(self.index_of(step_toward(c, Dir::S)) == self.index_of(c) + w) by (
            nonlinear_arith)
                requires
                    self.index_of(step_toward(c, Dir::S)) == (c.y + 1) * w + c.x,
                    self.index_of(c) == c.y * w + c.x,
            ;
        }
    }
}

impl Maze {
    /// A `w` by `h` grid with every wall standing.
    pub fn new(w: usize, h: usize) -> (m: Self)
        requires
            w * h <= usize::MAX,
            w <= i32::MAX,
            h <= i32::MAX,
        ensures
            m.w == w,
            m.h == h,
            m.wf(),
            forall|i: int, d: Dir| 0 <= i < w * h ==> #[trigger] m.wall_at(i, d),
            m.open_edges() == Set::<int>::empty(),
            m.outer_walls_closed(),
    {
        let m = Maze { w, h, grid: vec![Cell { wall: [true, true, true, true] }; w * h] };
        assert forall|i: int, d: Dir| 0 <= i < w * h implies #[trigger] m.wall_at(i, d) by {
            assert(m.grid@[i].wall@ == seq![true, true, true, true]);
        }
        assert forall|p: Vec2i, d: Dir| #[trigger] m.wall_of(p, d) == m.wall_of(p, d) && m.contains(p) implies m.wall_of(p, d) by {
            lemma_index_bound(w as int, h as int, p.x as int, p.y as int);
        }
        assert(m.open_edges() =~= Set::<int>::empty());
        assert forall|p: Vec2i, e: Dir|
            #![trigger m.wall_of(p, e)]
            m.contains(p) && !m.contains(step_toward(p, e)) implies m.wall_of(p, e) by {
            lemma_index_bound(w as int, h as int, p.x as int, p.y as int);
        }
        m
    }

    /// The row-major index of a cell of the grid.
    pub fn idx(&self, p: Vec2i) -> (i: usize)
        requires
            self.dims_ok(),
            self.contains(p),
        ensures
            i == self.index_of(p),
            i < self.grid@.len(),
    {
        proof {
            lemma_index_bound(self.w as int, self.h as int, p.x as int, p.y as int);
        }
        (p.y as usize) * self.w + (p.x as usize)
    }

    pub fn in_bounds(&self, p: Vec2i) -> (b: bool)
        ensures
            b == self.contains(p),
    {
        p.x >= 0 && p.y >= 0 && (p.x as usize) < self.w && (p.y as usize) < self.h
    }

    pub fn opposite(d: Dir) -> (r: Dir)
        ensures
            r == opposite_dir(d),
    {
        match d {
            Dir::N => Dir::S,
            Dir::S => Dir::N,
            Dir::W => Dir::E,
            Dir::E => Dir::W,
        }
    }

    pub fn neighbor(&self, p: Vec2i, d: Dir) -> (q: Vec2i)
        requires
            can_step(p, d),
        ensures
            q == step_toward(p, d),
    {
        match d {
            Dir::N => Vec2i { x: p.x, y: p.y - 1 },
            Dir::S => Vec2i { x: p.x, y: p.y + 1 },
            Dir::W => Vec2i { x: p.x - 1, y: p.y },
            Dir::E => Vec2i { x: p.x + 1, y: p.y },
        }
    }

    /// The wall between two cells of the grid faces out of it from neither side.
    pub proof fn lemma_inner_wall_not_outer(&self, a: Vec2i, d: Dir)
        requires
            self.dims_ok(),
            self.contains(a),
            self.contains(step_toward(a, d)),
        ensures
            forall|p: Vec2i, e: Dir|
                self.contains(p) && !self.contains(#[trigger] step_toward(p, e)) ==> !(p == a && e == d) && !(p
                    == step_toward(a, d) && e == opposite_dir(d)),
    {
        self.lemma_contains_coords_ok(a);
        assert(step_toward(step_toward(a, d), opposite_dir(d)) == a);
    }

    pub proof fn lemma_contains_coords_ok(&self, p: Vec2i)
        requires
            self.dims_ok(),
            self.contains(p),
        ensures
            coords_ok(p),
            0 <= self.index_of(p) < self.cell_count(),
    {
        lemma_index_bound(self.w as int, self.h as int, p.x as int, p.y as int);
    }

    pub proof fn lemma_origin_index(&self)
        ensures
            self.index_of(Vec2i { x: 0, y: 0 }) == 0,
    {
        assert(0 * (self.w as int) == 0) by (nonlinear_arith);
    }

    /// Two cells of the grid with the same index are the same cell.
    pub proof fn lemma_index_of_injective(&self, p: Vec2i, q: Vec2i)
        requires
            self.contains(p),
            self.contains(q),
            self.index_of(p) == self.index_of(q),
        ensures
            p == q,
    {
        lemma_index_injective(self.w as int, p.x as int, p.y as int, q.x as int, q.y as int);
    }

    /// Sets the wall of `a` on side `d`, and the matching wall of its neighbour if there is one.
    fn set_wall(&mut self, a: Vec2i, d: Dir, wall: bool)
        requires
            old(self).wf(),
            old(self).contains(a),
        ensures
            final(self).w == old(self).w,
            final(self).h == old(self).h,
            final(self).wf(),
            forall|p: Vec2i, e: Dir|
                #![trigger final(self).wall_of(p, e)]
                final(self).contains(p) ==> final(self).wall_of(p, e) == if (p == a && e == d) || (
                p == step_toward(a, d) && e == opposite_dir(d)) {
                    wall
                } else {
                    old(self).wall_of(p, e)
                },
    {
        let ghost pre = *self;
        proof {
            self.lemma_contains_coords_ok(a);
        }
        let i = self.idx(a);
        let mut c = self.grid[i];
        c.wall[dir_to_index(d)] = wall;
        self.grid[i] = c;
        let b = self.neighbor(a, d);
        let ghost mid = *self;
        assert forall|p: Vec2i, e: Dir|
            #![trigger mid.wall_of(p, e)]
            mid.contains(p) implies mid.wall_of(p, e) == if p == a && e == d {
                wall
            } else {
                pre.wall_of(p, e)
            } by {
            if mid.index_of(p) == i {
                self.lemma_index_of_injective(p, a);
            }
            self.lemma_contains_coords_ok(p);
        }
        if self.in_bounds(b) {
            let j = self.idx(b);
            let mut c2 = self.grid[j];
            c2.wall[dir_to_index(Maze::opposite(d))] = wall;
            self.grid[j] = c2;
            assert forall|p: Vec2i, e: Dir|
                #![trigger self.wall_of(p, e)]
                self.contains(p) implies self.wall_of(p, e) == if p == b && e == opposite_dir(d) {
                    wall
                } else {
                    mid.wall_of(p, e)
                } by {
                if self.index_of(p) == j {
                    self.lemma_index_of_injective(p, b);
                }
                self.lemma_contains_coords_ok(p);
            }
        }
        let ghost post = *self;
        assert forall|p: Vec2i, e: Dir|
            #![trigger post.wall_of(p, e)]
            post.contains(p) && post.contains(step_toward(p, e)) implies post.wall_of(p, e)
                == post.wall_of(step_toward(p, e), opposite_dir(e)) by {
            let q = step_toward(p, e);
            assert(pre.wall_of(p, e) == pre.wall_of(q, opposite_dir(e)));
            assert(post.wall_of(q, opposite_dir(e)) == mid.wall_of(q, opposite_dir(e))
                || (q == b && opposite_dir(e) == opposite_dir(d)));
        }
    }

    /// Opens the wall of `a` on side `d` (and the neighbour's matching wall).
    pub fn carve(&mut self, a: Vec2i, d: Dir)
        requires
            old(self).wf(),
            old(self).contains(a),
        ensures
            final(self).w == old(self).w,
            final(self).h == old(self).h,
            final(self).wf(),
            forall|p: Vec2i, e: Dir|
                #![trigger final(self).wall_of(p, e)]
                final(self).contains(p) ==> final(self).wall_of(p, e) == if (p == a && e == d) || (
                p == step_toward(a, d) && e == opposite_dir(d)) {
                    false
                } else {
                    old(self).wall_of(p, e)
                },
            old(self).contains(step_toward(a, d)) ==> final(self).open_edges()
                == old(self).open_edges().insert(old(self).edge_key(a, d)),
            !old(self).contains(step_toward(a, d)) ==> final(self).open_edges()
                == old(self).open_edges(),
            old(self).contains(step_toward(a, d)) ==> outer_walls_same(*old(self), *final(self)),
    {
        let ghost pre = *self;
        self.set_wall(a, d, false);
        proof {
            Self::lemma_edges_after_set(pre, *self, a, d, false);
            if pre.contains(step_toward(a, d)) {
                pre.lemma_inner_wall_not_outer(a, d);
            }
        }
    }

    /// Closes the wall of `a` on side `d` (and the neighbour's matching wall).
    pub fn build(&mut self, a: Vec2i, d: Dir)
        requires
            old(self).wf(),
            old(self).contains(a),
        ensures
            final(self).w == old(self).w,
            final(self).h == old(self).h,
            final(self).wf(),
            forall|p: Vec2i, e: Dir|
                #![trigger final(self).wall_of(p, e)]
                final(self).contains(p) ==> final(self).wall_of(p, e) == if (p == a && e == d) || (
                p == step_toward(a, d) && e == opposite_dir(d)) {
                    true
                } else {
                    old(self).wall_of(p, e)
                },
            old(self).contains(step_toward(a, d)) ==> final(self).open_edges()
                == old(self).open_edges().remove(old(self).edge_key(a, d)),
            !old(self).contains(step_toward(a, d)) ==> final(self).open_edges()
                == old(self).open_edges(),
            old(self).contains(step_toward(a, d)) ==> outer_walls_same(*old(self), *final(self)),
    {
        let ghost pre = *self;
        self.set_wall(a, d, true);
        proof {
            Self::lemma_edges_after_set(pre, *self, a, d, true);
            if pre.contains(step_toward(a, d)) {
                pre.lemma_inner_wall_not_outer(a, d);
            }
        }
    }

    /// How setting one wall (both of its sides) changes the set of open passages.
    proof fn lemma_edges_after_set(pre: Maze, post: Maze, a: Vec2i, d: Dir, wall: bool)
        requires
            pre.wf(),
            post.wf(),
            pre.w == post.w,
            pre.h == post.h,
            pre.contains(a),
            forall|p: Vec2i, e: Dir|
                #![trigger post.wall_of(p, e)]
                post.contains(p) ==> post.wall_of(p, e) == if (p == a && e == d) || (p
                    == step_toward(a, d) && e == opposite_dir(d)) {
                    wall
                } else {
                    pre.wall_of(p, e)
                },
        ensures
            pre.contains(step_toward(a, d)) && !wall ==> post.open_edges() == pre.open_edges().insert(
                pre.edge_key(a, d),
            ),
            pre.contains(step_toward(a, d)) && wall ==> post.open_edges() == pre.open_edges().remove(
                pre.edge_key(a, d),
            ),
            !pre.contains(step_toward(a, d)) ==> post.open_edges() == pre.open_edges(),
    {
        let nb = step_toward(a, d);
        let key = pre.edge_key(a, d);
        if pre.contains(nb) {
            pre.lemma_edge_key(a, d);
            post.lemma_edge_key(a, d);
        }
        assert forall|k: int| k != key || !pre.contains(nb) implies post.edge_open(k)
            == pre.edge_open(k) by {
            if 0 <= k < 2 * pre.cell_count() {
                pre.lemma_key_decode(k);
                post.lemma_key_decode(k);
                let c = pre.cell_at(k / 2);
                let e = Self::key_dir(k);
                if (c == a && e == d) {
                    assert(pre.edge_key(c, e) == key);
                }
                if (c == nb && e == opposite_dir(d)) {
                    assert(step_toward(nb, opposite_dir(d)) == a);
                    assert(pre.edge_key(c, e) == key);
                }
            }
        }
        if pre.contains(nb) {
            if wall {
                assert(post.open_edges() =~= pre.open_edges().remove(key));
            } else {
                assert(post.open_edges() =~= pre.open_edges().insert(key));
            }
        } else {
            assert(post.open_edges() =~= pre.open_edges());
        }
    }

    pub fn has_wall(&self, p: Vec2i, d: Dir) -> (b: bool)
        requires
            self.dims_ok(),
            self.contains(p),
        ensures
            b == self.wall_of(p, d),
    {
        self.grid[self.idx(p)].wall[dir_to_index(d)]
    }

    /// The top-left cell, where every solver starts.
    pub fn start(&self) -> (p: Vec2i)
        ensures
            p == (Vec2i { x: 0, y: 0 }),
    {
        Vec2i { x: 0, y: 0 }
    }

    /// The bottom-right cell, which every solver looks for.
    pub fn goal(&self) -> (p: Vec2i)
        requires
            self.dims_ok(),
        ensures
            p.x == self.w - 1,
            p.y == self.h - 1,
    {
        Vec2i { x: self.w as i32 - 1, y: self.h as i32 - 1 }
    }
}

impl Maze {
    /// The cell that the row-by-row builders charge for the wall named `k`: the cell west
    /// of an east-west wall, the cell south of a north-south wall.
    pub open spec fn edge_owner(&self, k: int) -> int {
        if k % 2 == 0 {
            k / 2
        } else {
            k / 2 + self.w
        }
    }

    /// Carving north or east from `p` opens a wall charged to `p` itself.
    pub proof fn lemma_owner_north_east(&self, p: Vec2i, d: Dir)
        requires
            self.dims_ok(),
            self.contains(p),
            self.contains(step_toward(p, d)),
            d == Dir::N || d == Dir::E,
        ensures
            self.edge_owner(self.edge_key(p, d)) == self.index_of(p),
    {
        if d == Dir::N {
            let q = step_toward(p, d);
            assert(self.index_of(q) + self.w == self.index_of(p)) by (nonlinear_arith)
                requires
                    self.index_of(q) == (p.y - 1) * self.w + p.x,
                    self.index_of(p) == p.y * self.w + p.x,
            ;
        }
    }
}

/// What the solvers have drawn over a maze: a mark and a parent for every cell.
pub struct MazeOverlay {
    pub marks: Vec<CellMark>,
    parents: Vec<Option<Vec2i>>,
}

/// The row-major index of `p` in a grid `w` cells wide.
pub open spec fn overlay_index(w: int, p: Vec2i) -> int {
    p.y * w + p.x
}

impl MazeOverlay {
    pub closed spec fn mark_cells(&self) -> Seq<CellMark> {
        self.marks@
    }

    pub closed spec fn parent_cells(&self) -> Seq<Option<Vec2i>> {
        self.parents@
    }

    /// One mark and one parent per cell.
    pub open spec fn wf(&self) -> bool {
        self.mark_cells().len() == self.parent_cells().len()
    }

    pub open spec fn cell_count(&self) -> int {
        self.mark_cells().len() as int
    }

    /// `p` names a cell of the overlay in a grid `w` cells wide.
    pub open spec fn addressable(&self, w: int, p: Vec2i) -> bool {
        &&& 0 <= p.x < w
        &&& 0 <= p.y
        &&& overlay_index(w, p) < self.mark_cells().len()
    }

    pub open spec fn mark_at(&self, w: int, p: Vec2i) -> CellMark {
        self.mark_cells()[overlay_index(w, p)]
    }

    pub open spec fn parent_at(&self, w: int, p: Vec2i) -> Option<Vec2i> {
        self.parent_cells()[overlay_index(w, p)]
    }

    /// No cell marked and no parent recorded, for a `w` by `h` grid.
    pub fn new(w: usize, h: usize) -> (o: Self)
        requires
            w * h <= usize::MAX,
        ensures
            o.wf(),
            o.cell_count() == w * h,
            forall|i: int| 0 <= i < w * h ==> #[trigger] o.mark_cells()[i] == CellMark::Unmarked,
            forall|i: int| 0 <= i < w * h ==> #[trigger] o.parent_cells()[i] is None,
    {
        let o = Self { marks: vec![CellMark::Unmarked; w * h], parents: vec![None; w * h] };
        assert(forall|i: int| 0 <= i < w * h ==> #[trigger] o.mark_cells()[i] == CellMark::Unmarked);
        assert(forall|i: int| 0 <= i < w * h ==> #[trigger] o.parents@[i] is None);
        o
    }

    pub fn idx(&self, w: usize, p: Vec2i) -> (i: usize)
        requires
            self.addressable(w as int, p),
        ensures
            i == overlay_index(w as int, p),
    {
        let n = self.marks.len();
        proof {
            assert(0 <= p.y * w) by (nonlinear_arith)
                requires
                    p.y >= 0,
                    w >= 0,
            ;
            assert(overlay_index(w as int, p) < n);
        }
        (p.y as usize) * w + (p.x as usize)
    }

    pub fn get(&self, w: usize, p: Vec2i) -> (m: CellMark)
        requires
            self.addressable(w as int, p),
        ensures
            m == self.mark_at(w as int, p),
    {
        self.marks[self.idx(w, p)]
    }

    pub fn set(&mut self, w: usize, p: Vec2i, mark: CellMark)
        requires
            old(self).addressable(w as int, p),
        ensures
            final(self).mark_cells() == old(self).mark_cells().update(overlay_index(w as int, p), mark),
            final(self).parent_cells() == old(self).parent_cells(),
    {
        let idx = self.idx(w, p);
        self.marks.set(idx, mark);
    }

    pub fn parent(&self, w: usize, p: Vec2i) -> (r: Option<Vec2i>)
        requires
            self.wf(),
            self.addressable(w as int, p),
        ensures
            r == self.parent_at(w as int, p),
    {
        self.parents[self.idx(w, p)]
    }

    pub fn set_parent(&mut self, w: usize, p: Vec2i, parent: Vec2i)
        requires
            old(self).wf(),
            old(self).addressable(w as int, p),
        ensures
            final(self).mark_cells() == old(self).mark_cells(),
            final(self).parent_cells() == old(self).parent_cells().update(
                overlay_index(w as int, p),
                Some(parent),
            ),
    {
        let idx = self.idx(w, p);
        self.parents.set(idx, Some(parent));
    }

    /// Removes every mark and every parent.
    pub fn clear(&mut self)
        ensures
            final(self).cell_count() == old(self).cell_count(),
            final(self).parent_cells().len() == old(self).parent_cells().len(),
            final(self).wf() == old(self).wf(),
            forall|i: int| 0 <= i < final(self).cell_count() ==> #[trigger] final(self).mark_cells()[i] == CellMark::Unmarked,
            forall|i: int|
                0 <= i < final(self).parent_cells().len() ==> #[trigger] final(self).parent_cells()[i] is None,
    {
        let n = self.marks.len();
        let mut i: usize = 0;
        while i < n
            invariant
                n == self.mark_cells().len(),
                n == old(self).mark_cells().len(),
                self.parents@ == old(self).parents@,
                i <= n,
                forall|j: int| 0 <= j < i ==> #[trigger] self.mark_cells()[j] == CellMark::Unmarked,
            decreases n - i,
        {
            self.marks.set(i, CellMark::Unmarked);
            i = i + 1;
        }
        let m = self.parents.len();
        let mut i: usize = 0;
        while i < m
            invariant
                m == self.parents@.len(),
                m == old(self).parents@.len(),
                n == self.mark_cells().len(),
                n == old(self).mark_cells().len(),
                i <= m,
                forall|j: int| 0 <= j < n ==> #[trigger] self.mark_cells()[j] == CellMark::Unmarked,
                forall|j: int| 0 <= j < i ==> #[trigger] self.parents@[j] is None,
            decreases m - i,
        {
            self.parents.set(i, None);
            i = i + 1;
        }
    }
}

} // verus!
