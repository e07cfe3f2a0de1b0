use vstd::prelude::*;

use crate::wall_count::{lemma_open_flag_count, open_flag_count};

use std::collections::HashSet;

use super::BuildStrategy;
use crate::rng::{time_seed, xorshift, xorshift_next};
use crate::forest::{joined, lemma_joined_grow, lemma_joined_step, lemma_joined_symmetric, lemma_joined_transitive, walk};
use crate::types::{outer_walls_same, Dir, Maze, Vec2i, cell_of, step_toward};

verus! {

broadcast use vstd::std_specs::hash::group_hash_axioms;

#[derive(Clone, Copy, PartialEq, Eq, Structural, Debug)]
pub enum Phase {
    Horizontal,
    Vertical,
}

/// Row by row, never backtracking, with memory for one row: first merge adjacent cells of
/// different sets at random (carving east; in the last row every such pair), then carve
/// south at random, at least once per set.
pub struct EllerGen {
    row_sets: Vec<usize>,
    next_row: Vec<usize>,
    sets_with_south: HashSet<usize>,
    next_set: usize,
    y: usize,
    x: usize,
    phase: Phase,
    seed: u32,
    w: usize,
    h: usize,
    done: bool,
    /// The first set number handed out in the current downward pass.
    pass_start: Ghost<int>,
}

/// The labels of `row` after every `from` in it became `into`, where `into` occurs in `row`
/// and differs from `from`, are those of `row` without `from`.
proof fn lemma_merged_labels(row: Seq<usize>, merged: Seq<usize>, from: usize, into: usize)
    requires
        merged.len() == row.len(),
        forall|i: int|
            0 <= i < row.len() ==> #[trigger] merged[i] == if row[i] == from {
                into
            } else {
                row[i]
            },
        row.contains(from),
        row.contains(into),
        from != into,
    ensures
        merged.to_set() == row.to_set().remove(from),
        merged.to_set().len() + 1 == row.to_set().len(),
{
    assert forall|l: usize| merged.to_set().contains(l) <==> row.to_set().remove(from).contains(
        l,
    ) by {
        if merged.contains(l) {
            let i = choose|i: int| 0 <= i < merged.len() && merged[i] == l;
            assert(merged[i] == l);
            if row[i] == from {
                assert(l == into);
            } else {
                assert(row[i] == l);
            }
        }
        if l != from && row.contains(l) {
            let i = choose|i: int| 0 <= i < row.len() && row[i] == l;
            assert(merged[i] == l);
        }
    }
    assert(merged.to_set() =~= row.to_set().remove(from));
    vstd::seq_lib::seq_to_set_is_finite(row);
}

/// Setting entry `x` of `s` to `v` adds `v` to the labels of the first `x` entries.
proof fn lemma_extend_prefix(s: Seq<usize>, x: int, v: usize)
    requires
        0 <= x < s.len(),
    ensures
        s.update(x, v).take(x + 1).to_set() == s.take(x).to_set().insert(v),
        s.update(x, v).take(x) == s.take(x),
        s.take(x).to_set().finite(),
{
    assert(s.update(x, v).take(x + 1) =~= s.take(x) + seq![v]);
    Seq::lemma_to_set_insert_commutes(s.take(x), v);
    assert(s.update(x, v).take(x) =~= s.take(x));
    vstd::seq_lib::seq_to_set_is_finite(s.take(x));
}

/// Cells of row `y` with the same set in `row` are joined by walks.
#[verifier::opaque]
pub open spec fn row_walked(m: Maze, row: Seq<usize>, w: int, y: int) -> bool {
    forall|i: int, j: int|
        #![trigger row[i], row[j]]
        0 <= i < w && 0 <= j < w && row[i] == row[j] ==> joined(m, cell_of(i, y), cell_of(j, y))
}

/// Some cell of row `y` is joined to `p`.
pub open spec fn reaches_row(m: Maze, p: Vec2i, w: int, y: int) -> bool {
    exists|i: int| 0 <= i < w && #[trigger] joined(m, p, cell_of(i, y))
}

/// Every cell above row `y` is joined to a cell of row `y`.
#[verifier::opaque]
pub open spec fn rows_above_reach(m: Maze, w: int, y: int) -> bool {
    forall|p: Vec2i| #[trigger] m.contains(p) && p.y < y ==> reaches_row(m, p, w, y)
}

/// In the first `x` cells of the next row, a set that has gone down sits below a cell of
/// the same set, joined to it; any other set occurs there once.
#[verifier::opaque]
pub open spec fn below_walked(m: Maze, row: Seq<usize>, next: Seq<usize>, south: Set<usize>, x: int, y: int) -> bool {
    &&& forall|j: int|
        0 <= j < x && south.contains(#[trigger] next[j]) ==> next[j] == row[j] && joined(
            m,
            cell_of(j, y),
            cell_of(j, y + 1),
        )
    &&& forall|i: int, j: int|
        #![trigger next[i], next[j]]
        0 <= i < x && 0 <= j < x && next[i] == next[j] && !south.contains(next[i]) ==> i == j
}

/// Opening more passages keeps all three properties.
proof fn lemma_walks_grow(m0: Maze, m1: Maze, row: Seq<usize>, next: Seq<usize>, south: Set<usize>, w: int, x: int, y: int)
    requires
        m1.w == m0.w,
        m1.h == m0.h,
        m0.open_edges().subset_of(m1.open_edges()),
    ensures
        row_walked(m0, row, w, y) ==> row_walked(m1, row, w, y),
        rows_above_reach(m0, w, y) ==> rows_above_reach(m1, w, y),
        below_walked(m0, row, next, south, x, y) ==> below_walked(m1, row, next, south, x, y),
{
    reveal(row_walked);
    reveal(rows_above_reach);
    reveal(below_walked);
    if row_walked(m0, row, w, y) {
        assert forall|i: int, j: int|
            #![trigger row[i], row[j]]
            0 <= i < w && 0 <= j < w && row[i] == row[j] implies joined(m1, cell_of(i, y), cell_of(j, y)) by {
            lemma_joined_grow(m0, m1, cell_of(i, y), cell_of(j, y));
        }
    }
    if rows_above_reach(m0, w, y) {
        assert forall|p: Vec2i| #[trigger] m1.contains(p) && p.y < y implies reaches_row(m1, p, w, y) by {
            assert(m0.contains(p));
            let i = choose|i: int| 0 <= i < w && #[trigger] joined(m0, p, cell_of(i, y));
            lemma_joined_grow(m0, m1, p, cell_of(i, y));
        }
    }
    if below_walked(m0, row, next, south, x, y) {
        assert forall|j: int|
            0 <= j < x && south.contains(#[trigger] next[j]) implies next[j] == row[j] && joined(
            m1,
            cell_of(j, y),
            cell_of(j, y + 1),
        ) by {
            lemma_joined_grow(m0, m1, cell_of(j, y), cell_of(j, y + 1));
        }
    }
}

/// Merging set `b` (at column `x + 1`) into set `a` (at column `x`) across the open wall
/// between the two cells keeps the row walked.
proof fn lemma_row_merge(m: Maze, row: Seq<usize>, merged: Seq<usize>, w: int, y: int, x: int)
    requires
        m.dims_ok(),
        w == m.w,
        0 <= y < m.h,
        0 <= x,
        x + 1 < w,
        row.len() == w,
        merged.len() == w,
        row[x] != row[x + 1],
        forall|i: int|
            0 <= i < w ==> #[trigger] merged[i] == if row[i] == row[x + 1] {
                row[x]
            } else {
                row[i]
            },
        row_walked(m, row, w, y),
        m.open_edges().contains(m.edge_key(cell_of(x, y), Dir::E)),
    ensures
        row_walked(m, merged, w, y),
{
    reveal(row_walked);
    let a = row[x];
    let b = row[x + 1];
    let ca = cell_of(x, y);
    let cb = cell_of(x + 1, y);
    assert(step_toward(ca, Dir::E) == cb);
    lemma_joined_step(m, ca, Dir::E);
    assert forall|i: int, j: int|
        #![trigger merged[i], merged[j]]
        0 <= i < w && 0 <= j < w && merged[i] == merged[j] implies joined(m, cell_of(i, y), cell_of(j, y)) by {
        let ci = cell_of(i, y);
        let cj = cell_of(j, y);
        assert(row[x] == a && row[x + 1] == b);
        if (row[i] == b) == (row[j] == b) {
            assert(row[i] == row[j]);
        } else if row[i] == b {
            assert(row[j] == a);
            assert(joined(m, ci, cb));
            assert(joined(m, ca, cj));
            lemma_joined_transitive(m, ci, cb, ca);
            lemma_joined_transitive(m, ci, ca, cj);
        } else {
            assert(row[i] == a);
            assert(joined(m, ci, ca));
            assert(joined(m, cb, cj));
            lemma_joined_transitive(m, ci, ca, cb);
            lemma_joined_transitive(m, ci, cb, cj);
        }
    }
}

/// Carving south from column `x`, which keeps its set below, extends the walked part of
/// the next row by one cell.
proof fn lemma_below_carve(m: Maze, row: Seq<usize>, next: Seq<usize>, south: Set<usize>, x: int, y: int, pass_start: int)
    requires
        m.dims_ok(),
        0 <= x < m.w,
        next.len() == m.w,
        row.len() == m.w,
        0 <= y,
        y + 1 < m.h,
        below_walked(m, row, next, south, x, y),
        m.open_edges().contains(m.edge_key(cell_of(x, y), Dir::S)),
        forall|i: int| 0 <= i < x ==> south.contains(#[trigger] next[i]) || pass_start <= next[i],
        row[x] < pass_start,
    ensures
        below_walked(m, row, next.update(x, row[x]), south.insert(row[x]), x + 1, y),
{
    reveal(below_walked);
    let n2 = next.update(x, row[x]);
    let s2 = south.insert(row[x]);
    assert(step_toward(cell_of(x, y), Dir::S) == cell_of(x, y + 1));
    lemma_joined_step(m, cell_of(x, y), Dir::S);
    assert forall|j: int|
        0 <= j < x + 1 && s2.contains(#[trigger] n2[j]) implies n2[j] == row[j] && joined(
        m,
        cell_of(j, y),
        cell_of(j, y + 1),
    ) by {
        if j < x {
            assert(n2[j] == next[j]);
            if !south.contains(next[j]) {
                assert(next[j] == row[x]);
                assert(pass_start <= next[j]);
            }
        }
    }
    assert forall|i: int, j: int|
        #![trigger n2[i], n2[j]]
        0 <= i < x + 1 && 0 <= j < x + 1 && n2[i] == n2[j] && !s2.contains(n2[i]) implies i == j by {
        if i < x && j < x {
            assert(next[i] == n2[i] && next[j] == n2[j]);
        }
    }
}

/// Giving column `x` of the next row a set number that neither has gone down nor occurs
/// there yet extends the walked part by one cell.
proof fn lemma_below_fresh(m: Maze, row: Seq<usize>, next: Seq<usize>, south: Set<usize>, x: int, y: int, v: usize)
    requires
        0 <= x < next.len(),
        below_walked(m, row, next, south, x, y),
        !south.contains(v),
        forall|i: int| 0 <= i < x ==> #[trigger] next[i] != v,
    ensures
        below_walked(m, row, next.update(x, v), south, x + 1, y),
{
    reveal(below_walked);
    let n2 = next.update(x, v);
    assert forall|j: int|
        0 <= j < x + 1 && south.contains(#[trigger] n2[j]) implies n2[j] == row[j] && joined(
        m,
        cell_of(j, y),
        cell_of(j, y + 1),
    ) by {
        if j < x {
            assert(n2[j] == next[j]);
        }
    }
    assert forall|i: int, j: int|
        #![trigger n2[i], n2[j]]
        0 <= i < x + 1 && 0 <= j < x + 1 && n2[i] == n2[j] && !south.contains(n2[i]) implies i == j by {
        if i < x && j < x {
            assert(next[i] == n2[i] && next[j] == n2[j]);
        } else if i < x {
            assert(next[i] == n2[i]);
        } else if j < x {
            assert(next[j] == n2[j]);
        }
    }
}

/// A row whose sets are all different is walked.
proof fn lemma_row_walked_distinct(m: Maze, row: Seq<usize>, w: int, y: int)
    requires
        forall|i: int, j: int| 0 <= i < w && 0 <= j < w && row[i] == row[j] ==> i == j,
    ensures
        row_walked(m, row, w, y),
{
    reveal(row_walked);
    assert forall|i: int, j: int|
        #![trigger row[i], row[j]]
        0 <= i < w && 0 <= j < w && row[i] == row[j] implies joined(m, cell_of(i, y), cell_of(j, y)) by {
        assert(i == j);
        assert(walk(m, cell_of(i, y), cell_of(j, y), 0));
    }
}

/// No cell of the grid lies above the first row.
proof fn lemma_rows_above_first(m: Maze, w: int)
    ensures
        rows_above_reach(m, w, 0),
{
    reveal(rows_above_reach);
}

/// Before the first cell of the next row is filled, there is nothing below to walk.
proof fn lemma_below_empty(m: Maze, row: Seq<usize>, next: Seq<usize>, south: Set<usize>, y: int)
    ensures
        below_walked(m, row, next, south, 0, y),
{
    reveal(below_walked);
}

/// When every set of row `y` has gone down, the next row is walked and every cell above
/// it reaches it.
proof fn lemma_next_row_walked(m: Maze, row: Seq<usize>, next: Seq<usize>, south: Set<usize>, w: int, y: int)
    requires
        m.dims_ok(),
        w == m.w,
        0 <= y,
        y + 1 < m.h,
        row.len() == w,
        next.len() == w,
        row_walked(m, row, w, y),
        rows_above_reach(m, w, y),
        below_walked(m, row, next, south, w, y),
        south == row.to_set(),
        south.subset_of(next.to_set()),
    ensures
        row_walked(m, next, w, y + 1),
        rows_above_reach(m, w, y + 1),
{
    reveal(row_walked);
    reveal(rows_above_reach);
    reveal(below_walked);
    assert forall|i: int, j: int|
        #![trigger next[i], next[j]]
        0 <= i < w && 0 <= j < w && next[i] == next[j] implies joined(m, cell_of(i, y + 1), cell_of(j, y + 1)) by {
        if south.contains(next[i]) {
            assert(next[i] == row[i] && next[j] == row[j]);
            assert(row[i] == row[j]);
            assert(joined(m, cell_of(i, y), cell_of(j, y)));
            assert(joined(m, cell_of(i, y), cell_of(i, y + 1)));
            assert(joined(m, cell_of(j, y), cell_of(j, y + 1)));
            lemma_joined_symmetric(m, cell_of(i, y), cell_of(i, y + 1));
            lemma_joined_transitive(m, cell_of(i, y + 1), cell_of(i, y), cell_of(j, y));
            lemma_joined_transitive(m, cell_of(i, y + 1), cell_of(j, y), cell_of(j, y + 1));
        } else {
            assert(i == j);
            assert(walk(m, cell_of(i, y + 1), cell_of(j, y + 1), 0));
        }
    }
    assert forall|p: Vec2i| #[trigger] m.contains(p) && p.y < y + 1 implies reaches_row(m, p, w, y + 1) by {
        let i = if p.y < y {
            choose|i: int| 0 <= i < w && #[trigger] joined(m, p, cell_of(i, y))
        } else {
            p.x as int
        };
        if p.y == y {
            assert(p == cell_of(i, y));
            assert(walk(m, p, cell_of(i, y), 0));
        }
        assert(joined(m, p, cell_of(i, y)));
        assert(row.to_set().contains(row[i]));
        assert(next.to_set().contains(row[i]));
        let j = choose|j: int| 0 <= j < next.len() && next[j] == row[i];
        assert(south.contains(next[j]));
        assert(next[j] == row[j]);
        assert(joined(m, cell_of(i, y), cell_of(j, y)));
        assert(joined(m, cell_of(j, y), cell_of(j, y + 1)));
        lemma_joined_transitive(m, p, cell_of(i, y), cell_of(j, y));
        lemma_joined_transitive(m, p, cell_of(j, y), cell_of(j, y + 1));
    }
}

/// Cell `x` is the last of its set in the row.
pub open spec fn last_of_set(sets: Seq<usize>, x: int) -> bool {
    !exists|j: int| x < j < sets.len() && sets[j] == sets[x]
}

/// The merging pass of a row before the last, from column `x` with the generator in state
/// `s`: each pair of neighbours in different sets draws the next state, and the first draw
/// whose lowest bit is 0 merges that pair. Gives the column merged, if any, and the state
/// after the draws.
pub open spec fn merge_scan(sets: Seq<usize>, w: int, x: int, s: u32) -> (Option<int>, u32)
    decreases w - x,
{
    if x < 0 || x + 1 >= w {
        (None, s)
    } else if sets[x] != sets[x + 1] {
        let s1 = xorshift_next(s);
        if s1 & 1 == 0 {
            (Some(x), s1)
        } else {
            merge_scan(sets, w, x + 1, s1)
        }
    } else {
        merge_scan(sets, w, x + 1, s)
    }
}

/// The downward pass from column `x`, `south` holding the sets that have already gone
/// down: the last cell of a set that has not gone down carves without a draw; any other cell
/// draws the next state and carves when its lowest bit is 0. Gives the column carved, if any,
/// and the state after the draws.
pub open spec fn down_scan(sets: Seq<usize>, south: Set<usize>, w: int, x: int, s: u32) -> (Option<int>, u32)
    decreases w - x,
{
    if x < 0 || x >= w {
        (None, s)
    } else if last_of_set(sets, x) && !south.contains(sets[x]) {
        (Some(x), s)
    } else {
        let s1 = xorshift_next(s);
        if s1 & 1 == 0 {
            (Some(x), s1)
        } else {
            down_scan(sets, south, w, x + 1, s1)
        }
    }
}

/// What a step of the downward pass of row `row` leaves, given the outcome `scan` of
/// `down_scan`: a carve south at the column found, or the next row begun.
pub open spec fn down_post(after: EllerGen, row: int, scan: (Option<int>, u32), updated: Seq<Vec2i>) -> bool {
    match scan {
        (Some(c), s) => {
            &&& updated =~= seq![cell_of(c, row), cell_of(c, row + 1)]
            &&& after.seed_state() == s
            &&& after.phase_now() == Phase::Vertical
            &&& after.row() == row
            &&& after.column() == c + 1
        },
        (None, s) => {
            &&& updated.len() == 0
            &&& after.seed_state() == s
            &&& after.phase_now() == Phase::Horizontal
            &&& after.row() == row + 1
            &&& after.column() == 0
        },
    }
}

impl EllerGen {
    pub closed spec fn sets(&self) -> Seq<usize> {
        self.row_sets@
    }

    pub closed spec fn row(&self) -> int {
        self.y as int
    }

    pub closed spec fn column(&self) -> int {
        self.x as int
    }

    pub closed spec fn phase_now(&self) -> Phase {
        self.phase
    }

    pub closed spec fn seed_state(&self) -> u32 {
        self.seed
    }

    /// The sets of the current row that have already carved south in this pass.
    pub closed spec fn south_sets(&self) -> Set<usize> {
        self.sets_with_south@
    }

    /// The sets given so far to the cells of the next row.
    pub closed spec fn next_sets(&self) -> Seq<usize> {
        self.next_row@
    }

    /// The next set number to hand out.
    pub closed spec fn next_label(&self) -> int {
        self.next_set as int
    }

    /// The width of the grid.
    pub closed spec fn grid_width(&self) -> int {
        self.w as int
    }

    /// The height of the grid.
    pub closed spec fn grid_height(&self) -> int {
        self.h as int
    }

    /// A builder at the start of the first row, whose cells are in sets `0..w`.
    pub open spec fn fresh(&self, maze: &Maze) -> bool {
        &&& self.sets() == Seq::new(maze.w as nat, |i: int| i as usize)
        &&& self.next_sets().len() == maze.w
        &&& self.next_label() == maze.w
        &&& self.row() == 0
        &&& self.column() == 0
        &&& self.phase_now() == Phase::Horizontal
        &&& self.grid_width() == maze.w
        &&& self.grid_height() == maze.h
        &&& self.is_done() == (maze.h == 0)
    }

    /// Seeds the builder from the clock.
    pub fn new(maze: &Maze) -> (r: Self)
        requires
            maze.wf(),
        ensures
            r.fresh(maze),
            maze.open_edges() == Set::<int>::empty() ==> r.inv(maze),
    {
        Self::new_with_seed(maze, time_seed())
    }

    pub fn new_with_seed(maze: &Maze, seed: u32) -> (r: Self)
        requires
            maze.wf(),
        ensures
            r.fresh(maze),
            r.seed_state() == seed,
            maze.open_edges() == Set::<int>::empty() ==> r.inv(maze),
    {
        let w = maze.w;
        let mut row_sets: Vec<usize> = Vec::new();
        let mut i: usize = 0;
        while i < w
            invariant
                i <= w,
                row_sets@ == Seq::new(i as nat, |j: int| j as usize),
            decreases w - i,
        {
            row_sets.push(i);
            i = i + 1;
            assert(row_sets@ =~= Seq::new(i as nat, |j: int| j as usize));
        }
        let r = Self {
            row_sets,
            next_row: vec![0; w],
            sets_with_south: HashSet::new(),
            next_set: w,
            y: 0,
            x: 0,
            phase: Phase::Horizontal,
            seed,
            w,
            h: maze.h,
            done: maze.h == 0,
            pass_start: Ghost(w as int),
        };
        proof {
            assert(r.next_set <= (r.y + 1) * r.w) by (nonlinear_arith)
                requires
                    r.next_set == r.w,
                    r.y == 0,
            ;
            assert(r.y * r.w == 0) by (nonlinear_arith)
                requires
                    r.y == 0,
            ;
            let s = r.row_sets@;
            assert(s.no_duplicates());
            s.unique_seq_to_set();
            if maze.open_edges() == Set::<int>::empty() {
                assert(maze.open_edges().len() == 0);
                lemma_row_walked_distinct(*maze, s, w as int, 0);
                lemma_rows_above_first(*maze, w as int);
            }
        }
        r
    }

    /// Moves every cell of set `from` in the current row into set `into`.
    pub fn merge_sets(&mut self, from: usize, into: usize)
        ensures
            final(self).sets().len() == old(self).sets().len(),
            forall|i: int|
                0 <= i < old(self).sets().len() ==> #[trigger] final(self).sets()[i] == if old(
                    self,
                ).sets()[i] == from {
                    into
                } else {
                    old(self).sets()[i]
                },
            final(self).row() == old(self).row(),
            final(self).column() == old(self).column(),
            final(self).phase_now() == old(self).phase_now(),
            final(self).seed_state() == old(self).seed_state(),
            final(self).same_but_sets(old(self)),
    {
        let n = self.row_sets.len();
        let mut i: usize = 0;
        while i < n
            invariant
                n == self.row_sets@.len(),
                n == old(self).row_sets@.len(),
                i <= n,
                forall|j: int|
                    0 <= j < n ==> #[trigger] self.row_sets@[j] == if j < i && old(self).row_sets@[j]
                        == from {
                        into
                    } else {
                        old(self).row_sets@[j]
                    },
                self.same_but_sets(old(self)),
            decreases n - i,
        {
            if self.row_sets[i] == from {
                self.row_sets.set(i, into);
            }
            i = i + 1;
        }
    }

    /// Everything but the current row's sets is the same as in `other`.
    pub closed spec fn same_but_sets(&self, other: &Self) -> bool {
        &&& self.next_row == other.next_row
        &&& self.sets_with_south == other.sets_with_south
        &&& self.next_set == other.next_set
        &&& self.y == other.y
        &&& self.x == other.x
        &&& self.phase == other.phase
        &&& self.seed == other.seed
        &&& self.w == other.w
        &&& self.h == other.h
        &&& self.done == other.done
        &&& self.pass_start == other.pass_start
    }

    /// No cell east of `x` in the current row shares its set.
    pub fn last_of_set_in_row(&self, x: usize) -> (b: bool)
        requires
            x < self.sets().len(),
        ensures
            b == !exists|j: int| x < j < self.sets().len() && self.sets()[j] == self.sets()[x as int],
    {
        let set = self.row_sets[x];
        let n = self.row_sets.len();
        let mut j: usize = x + 1;
        while j < n
            invariant
                n == self.row_sets@.len(),
                x < j <= self.row_sets@.len(),
                set == self.row_sets@[x as int],
                forall|k: int| x < k < j ==> self.row_sets@[k] != set,
            decreases self.row_sets@.len() - j,
        {
            if self.row_sets[j] == set {
                assert(self.sets()[j as int] == self.sets()[x as int]);
                return false;
            }
            j = j + 1;
        }
        true
    }

    /// Every open passage lies above the current row, or in it: an east wall of one of the
    /// first `east_end` cells, or a south wall of one of the first `south_end` cells.
    closed spec fn edges_within(&self, maze: &Maze, east_end: int, south_end: int) -> bool {
        forall|k: int| #[trigger]
            maze.open_edges().contains(k) ==> k < 2 * (self.y * self.w) || (k % 2 == 0 && k < 2 * (
            self.y * self.w + east_end)) || (k % 2 == 1 && k < 2 * (self.y * self.w + south_end))
    }

    /// While merging along row `y` at column `x`: each passage so far has joined two sets,
    /// so passages and sets of the current row together number the cells of rows `0..=y`;
    /// in the last row the cells up to `x` are already one set.
    closed spec fn across_ok(&self, maze: &Maze) -> bool {
        &&& self.edges_within(maze, self.x as int, 0)
        &&& maze.open_edges().len() + self.row_sets@.to_set().len() == self.y * self.w + self.w
        &&& self.y + 1 == self.h ==> forall|i: int|
            0 <= i <= self.x && i < self.w ==> #[trigger] self.row_sets@[i] == self.row_sets@[0]
    }

    /// While going down from row `y` at column `x`: the cells of the next row before `x`
    /// hold either a set that has gone down (all of which occur there) or a new set number
    /// from this pass; every set of the current row before `x` has gone down or occurs
    /// again at `x` or later.
    closed spec fn down_ok(&self, maze: &Maze) -> bool {
        let row = self.row_sets@;
        let below = self.next_row@.take(self.x as int);
        let south = self.sets_with_south@;
        &&& self.edges_within(maze, self.w as int, self.x as int)
        &&& maze.open_edges().len() + row.to_set().len() + (self.next_set - self.pass_start@)
            == self.y * self.w + self.w + self.x
        &&& self.pass_start@ <= self.next_set
        &&& forall|i: int| 0 <= i < self.w ==> #[trigger] row[i] < self.pass_start@
        &&& south.finite()
        &&& south.subset_of(row.to_set())
        &&& south.subset_of(below.to_set())
        &&& forall|i: int|
            0 <= i < self.x ==> south.contains(#[trigger] self.next_row@[i]) || (self.pass_start@
                <= self.next_row@[i] < self.next_set)
        &&& below.to_set().len() == south.len() + (self.next_set - self.pass_start@)
        &&& forall|i: int|
            0 <= i < self.x ==> south.contains(#[trigger] row[i]) || exists|j: int|
                self.x <= j < self.w && row[j] == row[i]
    }

    /// After the last row: one set spans it.
    closed spec fn finished(&self) -> bool {
        &&& self.phase == Phase::Vertical
        &&& self.x == 0
        &&& self.y + 1 == self.h
        &&& self.pass_start@ == self.next_set
        &&& forall|i: int| 0 <= i < self.w ==> #[trigger] self.row_sets@[i] == self.row_sets@[0]
    }

    /// Merges the cell at the current column with its eastern neighbour, of another set:
    /// carves the wall between them and moves on one column.
    fn join_east(&mut self, maze: &mut Maze) -> (updated: Vec<Vec2i>)
        requires
            old(self).inv(old(maze)),
            old(self).phase == Phase::Horizontal,
            !old(self).done,
            old(self).x + 1 < old(self).w,
            old(self).row_sets@[old(self).x as int] != old(self).row_sets@[old(self).x + 1],
        ensures
            final(self).seed == old(self).seed,
            outer_walls_same(*old(maze), *final(maze)),
            final(self).inv(final(maze)),
            final(self).phase == Phase::Horizontal,
            !final(self).done,
            final(self).y == old(self).y,
            final(self).x == old(self).x + 1,
            final(maze).w == old(maze).w,
            final(maze).h == old(maze).h,
            updated@.len() == 2,
            updated@[0] == (Vec2i { x: old(self).x as i32, y: old(self).y as i32 }),
            updated@[1] == step_toward(updated@[0], Dir::E),
            final(maze).open_edges() == old(maze).open_edges().insert(
                old(maze).edge_key(updated@[0], Dir::E),
            ),
    {
        let x = self.x;
        let a = self.row_sets[x];
        let b = self.row_sets[x + 1];
        let ghost pre = *self;
        self.x = x + 1;
        self.merge_sets(b, a);
        let cell = Vec2i { x: x as i32, y: self.y as i32 };
        proof {
            maze.lemma_contains_coords_ok(cell);
        }
        let ghost m0 = *maze;
        maze.carve(cell, Dir::E);
        proof {
            let row = pre.row_sets@;
            let merged = self.row_sets@;
            assert(row[x as int] == a && row[x + 1] == b);
            assert(row.contains(b));
            assert(row.contains(a));
            lemma_merged_labels(row, merged, b, a);
            let k0 = m0.edge_key(cell, Dir::E);
            assert(m0.index_of(cell) == self.y * self.w + x);
            assert(k0 == 2 * (self.y * self.w + x));
            m0.lemma_open_edges_finite();
            assert(!m0.open_edges().contains(k0));
            assert(maze.open_edges().len() == m0.open_edges().len() + 1);
            assert forall|i: int| 0 <= i < self.w implies #[trigger] merged[i] < self.next_set by {
                assert(row[i] < self.next_set);
            }
            if self.y + 1 == self.h {
                assert forall|i: int| 0 <= i <= self.x && i < self.w implies #[trigger] merged[i]
                    == merged[0] by {
                    assert(row[0] == row[x as int]);
                    if i <= x {
                        assert(row[i] == row[0]);
                    }
                }
            }
            assert(self.edges_within(&*maze, self.x as int, 0));
            assert(m0.open_edges().subset_of(maze.open_edges()));
            lemma_walks_grow(
                m0,
                *maze,
                row,
                pre.next_row@,
                pre.sets_with_south@,
                self.w as int,
                x as int,
                self.y as int,
            );
            assert(cell == cell_of(x as int, self.y as int));
            lemma_row_merge(*maze, row, merged, self.w as int, self.y as int, x as int);
        }
        vec![cell, maze.neighbor(cell, Dir::E)]
    }

    /// Carves south from the cell at the current column, which keeps its set in the next
    /// row, and moves on one column.
    fn carve_down(&mut self, maze: &mut Maze) -> (updated: Vec<Vec2i>)
        requires
            old(self).inv(old(maze)),
            old(self).phase == Phase::Vertical,
            !old(self).done,
            old(self).x < old(self).w,
        ensures
            final(self).seed == old(self).seed,
            outer_walls_same(*old(maze), *final(maze)),
            final(self).inv(final(maze)),
            final(self).phase == Phase::Vertical,
            !final(self).done,
            final(self).y == old(self).y,
            final(self).x == old(self).x + 1,
            final(maze).w == old(maze).w,
            final(maze).h == old(maze).h,
            updated@.len() == 2,
            updated@[0] == (Vec2i { x: old(self).x as i32, y: old(self).y as i32 }),
            updated@[1] == step_toward(updated@[0], Dir::S),
            final(maze).open_edges() == old(maze).open_edges().insert(
                old(maze).edge_key(updated@[0], Dir::S),
            ),
    {
        let x = self.x;
        let set = self.row_sets[x];
        let ghost pre = *self;
        self.sets_with_south.insert(set);
        self.next_row.set(x, set);
        self.x = x + 1;
        let cell = Vec2i { x: x as i32, y: self.y as i32 };
        proof {
            maze.lemma_contains_coords_ok(cell);
        }
        let ghost m0 = *maze;
        maze.carve(cell, Dir::S);
        proof {
            let row = pre.row_sets@;
            let south = pre.sets_with_south@;
            let below = pre.next_row@.take(x as int);
            lemma_extend_prefix(pre.next_row@, x as int, set);
            assert(self.next_row@ == pre.next_row@.update(x as int, set));
            assert(row.contains(set));
            let k0 = m0.edge_key(cell, Dir::S);
            assert(m0.index_of(cell) == self.y * self.w + x);
            assert(k0 == 2 * (self.y * self.w + x) + 1);
            m0.lemma_open_edges_finite();
            assert(!m0.open_edges().contains(k0));
            assert(maze.open_edges().len() == m0.open_edges().len() + 1);
            if south.contains(set) {
                assert(below.to_set().insert(set) =~= below.to_set());
                assert(self.sets_with_south@ =~= south);
            } else {
                assert(!below.to_set().contains(set)) by {
                    if below.contains(set) {
                        let i = choose|i: int| 0 <= i < below.len() && below[i] == set;
                        assert(pre.next_row@[i] == set);
                    }
                }
            }
            let below2 = self.next_row@.take(self.x as int);
            assert forall|i: int| 0 <= i < self.x implies self.sets_with_south@.contains(
                #[trigger] self.next_row@[i],
            ) || (self.pass_start@ <= self.next_row@[i] < self.next_set) by {
                if i < x {
                    assert(pre.next_row@[i] == self.next_row@[i]);
                }
            }
            assert forall|i: int| 0 <= i < self.x implies self.sets_with_south@.contains(
                #[trigger] row[i],
            ) || exists|j: int| self.x <= j < self.w && row[j] == row[i] by {
                if i < x && !south.contains(row[i]) {
                    let j = choose|j: int| x <= j < self.w && row[j] == row[i];
                    if j == x {
                        assert(row[i] == set);
                    } else {
                        assert(self.x <= j < self.w && row[j] == row[i]);
                    }
                }
            }
            assert(self.sets_with_south@.subset_of(below2.to_set())) by {
                assert forall|s: usize| self.sets_with_south@.contains(s) implies below2.to_set().contains(
                    s,
                ) by {
                    if s != set {
                        assert(south.contains(s));
                        assert(below.to_set().contains(s));
                    }
                }
            }
            assert(self.edges_within(&*maze, self.w as int, self.x as int));
            assert(m0.open_edges().subset_of(maze.open_edges()));
            lemma_walks_grow(
                m0,
                *maze,
                row,
                pre.next_row@,
                south,
                self.w as int,
                x as int,
                self.y as int,
            );
            assert(cell == cell_of(x as int, self.y as int));
            assert forall|i: int| 0 <= i < x implies south.contains(#[trigger] pre.next_row@[i])
                || pre.pass_start@ <= pre.next_row@[i] by {}
            lemma_below_carve(*maze, row, pre.next_row@, south, x as int, self.y as int, pre.pass_start@);
            assert(self.sets_with_south@ == south.insert(row[x as int]));
        }
        vec![cell, maze.neighbor(cell, Dir::S)]
    }

    /// Gives the cell below the current column a set of its own and moves on one column;
    /// allowed unless the current cell closes its set in this row without any of the set
    /// having gone down.
    fn open_below(&mut self, maze: &Maze)
        requires
            old(self).inv(maze),
            old(self).phase == Phase::Vertical,
            !old(self).done,
            old(self).x < old(self).w,
            old(self).sets_with_south@.contains(old(self).row_sets@[old(self).x as int])
                || exists|j: int|
                old(self).x < j < old(self).w && #[trigger] old(self).row_sets@[j] == old(
                    self,
                ).row_sets@[old(self).x as int],
        ensures
            final(self).seed == old(self).seed,
            final(self).row_sets@ == old(self).row_sets@,
            final(self).sets_with_south@ == old(self).sets_with_south@,
            final(self).inv(maze),
            final(self).phase == Phase::Vertical,
            !final(self).done,
            final(self).y == old(self).y,
            final(self).x == old(self).x + 1,
    {
        let x = self.x;
        let ghost pre = *self;
        proof {
            assert((self.y + 1) * self.w + x + 1 <= usize::MAX) by (nonlinear_arith)
                requires
                    self.y + 2 <= self.h,
                    x < self.w,
                    self.w * self.h <= usize::MAX,
            ;
        }
        self.next_row.set(x, self.next_set);
        self.next_set = self.next_set + 1;
        self.x = x + 1;
        proof {
            let row = pre.row_sets@;
            let south = pre.sets_with_south@;
            let below = pre.next_row@.take(x as int);
            let v = pre.next_set;
            lemma_extend_prefix(pre.next_row@, x as int, v);
            assert(!below.to_set().contains(v)) by {
                if below.contains(v) {
                    let i = choose|i: int| 0 <= i < below.len() && below[i] == v;
                    assert(pre.next_row@[i] == v);
                    if south.contains(v) {
                        assert(row.to_set().contains(v));
                        let j = choose|j: int| 0 <= j < row.len() && row[j] == v;
                        assert(row[j] < pre.pass_start@);
                    }
                }
            }
            let below2 = self.next_row@.take(self.x as int);
            assert forall|i: int| 0 <= i < self.x implies south.contains(
                #[trigger] self.next_row@[i],
            ) || (self.pass_start@ <= self.next_row@[i] < self.next_set) by {
                if i < x {
                    assert(pre.next_row@[i] == self.next_row@[i]);
                }
            }
            assert forall|i: int| 0 <= i < self.x implies south.contains(#[trigger] row[i])
                || exists|j: int| self.x <= j < self.w && row[j] == row[i] by {
                if !south.contains(row[i]) {
                    if i < x {
                        let j = choose|j: int| x <= j < self.w && row[j] == row[i];
                        if j == x {
                            let j2 = choose|j2: int| x < j2 < self.w && row[j2] == row[x as int];
                            assert(self.x <= j2 < self.w && row[j2] == row[i]);
                        } else {
                            assert(self.x <= j < self.w && row[j] == row[i]);
                        }
                    } else {
                        let j2 = choose|j2: int| x < j2 < self.w && row[j2] == row[x as int];
                        assert(self.x <= j2 < self.w && row[j2] == row[i]);
                    }
                }
            }
            assert(south.subset_of(below2.to_set()));
            assert(self.edges_within(&*maze, self.w as int, self.x as int));
            assert(!south.contains(v)) by {
                if south.contains(v) {
                    assert(row.to_set().contains(v));
                    let j = choose|j: int| 0 <= j < row.len() && row[j] == v;
                    assert(row[j] < pre.pass_start@);
                }
            }
            assert forall|i: int| 0 <= i < x implies #[trigger] pre.next_row@[i] != v by {
                if south.contains(pre.next_row@[i]) {
                    assert(row.to_set().contains(pre.next_row@[i]));
                    let j = choose|j: int| 0 <= j < row.len() && row[j] == pre.next_row@[i];
                    assert(row[j] < pre.pass_start@);
                }
            }
            lemma_below_fresh(*maze, row, pre.next_row@, south, x as int, self.y as int, v);
        }
    }

    /// The downward pass is over: the next row becomes the current one.
    fn next_row_down(&mut self, maze: &Maze)
        requires
            old(self).inv(maze),
            old(self).phase == Phase::Vertical,
            !old(self).done,
            old(self).x == old(self).w,
        ensures
            final(self).seed == old(self).seed,
            final(self).inv(maze),
            final(self).phase == Phase::Horizontal,
            !final(self).done,
            final(self).y == old(self).y + 1,
            final(self).x == 0,
    {
        let ghost pre = *self;
        proof {
            let row = pre.row_sets@;
            let south = pre.sets_with_south@;
            assert(south =~= row.to_set()) by {
                assert forall|l: usize| row.to_set().contains(l) implies south.contains(l) by {
                    let i = choose|i: int| 0 <= i < row.len() && row[i] == l;
                    assert(south.contains(row[i]));
                }
            }
            assert(pre.next_row@.take(pre.w as int) =~= pre.next_row@);
            assert((pre.y + 1) * pre.w == pre.y * pre.w + pre.w) by (nonlinear_arith);
            lemma_next_row_walked(*maze, row, pre.next_row@, south, pre.w as int, pre.y as int);
        }
        std::mem::swap(&mut self.row_sets, &mut self.next_row);
        self.y = self.y + 1;
        self.x = 0;
        self.phase = Phase::Horizontal;
        proof {
            assert(self.next_set <= (self.y + 1) * self.w) by (nonlinear_arith)
                requires
                    self.next_set <= self.y * self.w + self.w,
            ;
            let row2 = self.row_sets@;
            assert forall|i: int| 0 <= i < self.w implies #[trigger] row2[i] < self.next_set by {
                if pre.sets_with_south@.contains(row2[i]) {
                    assert(pre.row_sets@.to_set().contains(row2[i]));
                    let j = choose|j: int| 0 <= j < pre.row_sets@.len() && pre.row_sets@[j] == row2[i];
                    assert(pre.row_sets@[j] < pre.pass_start@);
                }
            }
            assert(self.edges_within(&*maze, 0, 0));
        }
    }
}

impl BuildStrategy for EllerGen {
    /// Both rows have one set per column inside the grid and every set number is below the
    /// next one to hand out; passages and sets are counted as in `across_ok` and `down_ok`
    /// for the current phase; the builder is done only after the last row, which is then
    /// one set.
    closed spec fn inv(&self, maze: &Maze) -> bool {
        &&& maze.wf()
        &&& self.w == maze.w
        &&& self.h == maze.h
        &&& self.row_sets@.len() == self.w
        &&& self.next_row@.len() == self.w
        &&& self.x <= self.w
        &&& !self.done ==> self.y < self.h
        &&& self.phase == Phase::Vertical && !self.done ==> self.y + 1 < self.h
        &&& self.next_set <= (self.y + 1) * self.w + if self.phase == Phase::Vertical {
            self.x as int
        } else {
            0int
        }
        &&& forall|i: int| 0 <= i < self.w ==> #[trigger] self.row_sets@[i] < self.next_set
        &&& self.phase == Phase::Horizontal ==> self.across_ok(maze)
        &&& self.phase == Phase::Vertical ==> self.down_ok(maze)
        &&& self.done ==> self.h == 0 || self.finished()
        &&& row_walked(*maze, self.row_sets@, self.w as int, self.y as int)
        &&& rows_above_reach(*maze, self.w as int, self.y as int)
        &&& self.phase == Phase::Vertical ==> below_walked(
            *maze,
            self.row_sets@,
            self.next_row@,
            self.sets_with_south@,
            self.x as int,
            self.y as int,
        )
    }

    closed spec fn is_done(&self) -> bool {
        self.done
    }

    fn name(&self) -> (s: &'static str)
        ensures
            s@ == "Eller's"@,
    {
        "Eller's"
    }

    fn done(&self) -> (b: bool) {
        self.done
    }

    /// Makes the next merge or downward decision that carves a wall and returns the two
    /// cells; at the end of a phase moves on to the next phase or row and returns nothing.
    fn step(&mut self, maze: &mut Maze) -> (updated: Vec<Vec2i>)
        ensures
            updated@.len() == 0 || updated@.len() == 2,
            updated@.len() == 0 ==> final(maze).grid@ == old(maze).grid@,
            updated@.len() == 2 ==> {
                &&& updated@[0].y == old(self).row()
                &&& (updated@[1] == step_toward(updated@[0], Dir::E) && final(maze).open_edges()
                    == old(maze).open_edges().insert(old(maze).edge_key(updated@[0], Dir::E))) || (
                updated@[1] == step_toward(updated@[0], Dir::S) && final(maze).open_edges()
                    == old(maze).open_edges().insert(old(maze).edge_key(updated@[0], Dir::S)))
            },
            old(self).is_done() ==> updated@.len() == 0 && *final(self) == *old(self) && *final(maze)
                == *old(maze),
            !old(self).is_done() && updated@.len() == 0 ==> {
                ||| final(self).is_done() && old(self).row() + 1 == old(maze).h
                ||| {
                    &&& !final(self).is_done()
                    &&& final(self).row() == old(self).row() + 1
                    &&& final(self).column() == 0
                    &&& final(self).phase_now() == Phase::Horizontal
                }
            },
            updated@.len() == 2 ==> {
                &&& !final(self).is_done()
                &&& final(self).row() == old(self).row()
                &&& updated@[0] == cell_of(final(self).column() - 1, old(self).row())
                &&& (updated@[1] == step_toward(updated@[0], Dir::E)) == (final(self).phase_now()
                    == Phase::Horizontal)
                &&& final(self).phase_now() == old(self).phase_now() ==> updated@[0].x >= old(
                    self,
                ).column()
                &&& old(self).phase_now() == Phase::Vertical ==> final(self).phase_now() == Phase::Vertical
            },
            !old(self).is_done() && old(self).phase_now() == Phase::Horizontal && old(self).row() + 1
                == old(maze).h ==> {
                let sets = old(self).sets();
                let end = if updated@.len() == 2 { updated@[0].x as int } else { old(maze).w - 1 };
                &&& forall|c: int| old(self).column() <= c < end ==> #[trigger] sets[c] == sets[c + 1]
                &&& updated@.len() == 2 ==> sets[end] != sets[end + 1]
                &&& final(self).seed_state() == old(self).seed_state()
            },
            !old(self).is_done() && old(self).phase_now() == Phase::Horizontal && old(self).row() + 1
                < old(maze).h ==> match merge_scan(
                old(self).sets(),
                old(maze).w as int,
                old(self).column(),
                old(self).seed_state(),
            ) {
                (Some(c), s1) => {
                    &&& updated@ =~= seq![cell_of(c, old(self).row()), cell_of(c + 1, old(self).row())]
                    &&& final(self).seed_state() == s1
                    &&& final(self).phase_now() == Phase::Horizontal
                    &&& final(self).column() == c + 1
                },
                (None, s1) => down_post(
                    *final(self),
                    old(self).row(),
                    down_scan(old(self).sets(), Set::empty(), old(maze).w as int, 0, s1),
                    updated@,
                ),
            },
            !old(self).is_done() && old(self).phase_now() == Phase::Vertical ==> down_post(
                *final(self),
                old(self).row(),
                down_scan(
                    old(self).sets(),
                    old(self).south_sets(),
                    old(maze).w as int,
                    old(self).column(),
                    old(self).seed_state(),
                ),
                updated@,
            ),
    {
        if self.done {
            return Vec::new();
        }
        let last_row = self.y + 1 == self.h;
        if self.phase == Phase::Horizontal {
            let ghost ht = merge_scan(self.row_sets@, self.w as int, self.x as int, self.seed);
            while self.x + 1 < self.w
                invariant
                    !last_row ==> merge_scan(self.row_sets@, self.w as int, self.x as int, self.seed) == ht,
                    ht == merge_scan(old(self).row_sets@, old(self).w as int, old(self).x as int, old(self).seed),
                    last_row ==> self.seed == old(self).seed,
                    self.w == old(self).w,
                    self.inv(maze),
                    !self.done,
                    !old(self).done,
                    self.phase == Phase::Horizontal,
                    old(self).phase == Phase::Horizontal,
                    self.y == old(self).y,
                    self.x >= old(self).x,
                    self.row_sets@ == old(self).row_sets@,
                    last_row ==> forall|c: int|
                        old(self).x <= c < self.x ==> #[trigger] self.row_sets@[c] == self.row_sets@[c + 1],
                    maze.grid@ == old(maze).grid@,
                    maze.w == old(maze).w,
                    maze.h == old(maze).h,
                    last_row == (self.y + 1 == self.h),
                decreases self.w - self.x,
            {
                let x = self.x;
                let a = self.row_sets[x];
                let b = self.row_sets[x + 1];
                let ghost s_before = self.seed;
                if a != b && (last_row || xorshift(&mut self.seed) & 1 == 0) {
                    assert(!last_row ==> merge_scan(self.row_sets@, self.w as int, x as int, s_before) == (
                        Some(x as int),
                        self.seed,
                    ));
                    return self.join_east(maze);
                }
                assert(!last_row ==> merge_scan(self.row_sets@, self.w as int, x as int, s_before)
                    == merge_scan(self.row_sets@, self.w as int, x + 1, self.seed));
                self.x = x + 1;
                proof {
                    if last_row {
                        assert forall|i: int| 0 <= i <= self.x && i < self.w implies #[trigger] self.row_sets@[i]
                            == self.row_sets@[0] by {
                            assert(self.row_sets@[x as int] == self.row_sets@[0]);
                        }
                    }
                    assert(self.edges_within(&*maze, self.x as int, 0));
                }
            }
            assert(!last_row ==> merge_scan(self.row_sets@, self.w as int, self.x as int, self.seed) == (
                None::<int>,
                self.seed,
            ));
            self.x = 0;
            self.sets_with_south.clear();
            self.phase = Phase::Vertical;
            proof {
                self.pass_start = Ghost(self.next_set as int);
                lemma_below_empty(*maze, self.row_sets@, self.next_row@, self.sets_with_south@, self.y as int);
                let below = self.next_row@.take(0);
                assert(below.to_set() =~= Set::<usize>::empty());
                assert(self.edges_within(&*maze, self.w as int, 0));
                if last_row {
                    assert forall|i: int| 0 <= i < self.w implies #[trigger] self.row_sets@[i]
                        == self.row_sets@[0] by {
                        assert(self.row_sets@[i] == self.row_sets@[0]);
                    }
                }
            }
        }
        if self.phase == Phase::Vertical && !last_row {
            let ghost vt = down_scan(self.row_sets@, self.sets_with_south@, self.w as int, self.x as int, self.seed);
            let ghost rs_v = self.row_sets@;
            let ghost south_v = self.sets_with_south@;
            let ghost s_v0 = self.seed;
            assert(old(self).phase == Phase::Horizontal ==> south_v =~= Set::<usize>::empty());
            while self.x < self.w
                invariant
                    old(self).phase == Phase::Vertical ==> vt == down_scan(
                        old(self).row_sets@,
                        old(self).sets_with_south@,
                        old(self).w as int,
                        old(self).x as int,
                        old(self).seed,
                    ),
                    old(self).phase == Phase::Horizontal ==> merge_scan(
                        old(self).row_sets@,
                        old(self).w as int,
                        old(self).x as int,
                        old(self).seed,
                    ) == (None::<int>, s_v0) && vt == down_scan(
                        old(self).row_sets@,
                        Set::empty(),
                        old(self).w as int,
                        0,
                        s_v0,
                    ),
                    down_scan(rs_v, south_v, self.w as int, self.x as int, self.seed) == vt,
                    self.row_sets@ == rs_v,
                    self.sets_with_south@ == south_v,
                    self.w == old(self).w,
                    self.inv(maze),
                    !self.done,
                    !old(self).done,
                    self.phase == Phase::Vertical,
                    self.y == old(self).y,
                    self.y + 1 < self.h,
                    old(self).phase == Phase::Vertical ==> self.x >= old(self).x,
                    maze.grid@ == old(maze).grid@,
                    maze.w == old(maze).w,
                    maze.h == old(maze).h,
                decreases self.w - self.x,
            {
                let x = self.x;
                let set = self.row_sets[x];
                let is_last = self.last_of_set_in_row(x);
                let must_carve = is_last && !self.sets_with_south.contains(&set);
                let ghost s_before = self.seed;
                assert(self.sets() == rs_v);
                assert(is_last == last_of_set(rs_v, x as int));
                if must_carve || xorshift(&mut self.seed) & 1 == 0 {
                    assert(down_scan(rs_v, south_v, self.w as int, x as int, s_before) == (
                        Some(x as int),
                        self.seed,
                    ));
                    return self.carve_down(maze);
                }
                assert(down_scan(rs_v, south_v, self.w as int, x as int, s_before) == down_scan(
                    rs_v,
                    south_v,
                    self.w as int,
                    x + 1,
                    self.seed,
                ));
                self.open_below(maze);
            }
            self.next_row_down(maze);
        }
        if last_row {
            self.done = true;
        }
        Vec::new()
    }
}

impl EllerGen {
    /// Once done, on a grid of at least one cell that started with every wall standing,
    /// the maze is a spanning tree: it has exactly one passage fewer than cells, and a walk
    /// joins any two cells.
    pub proof fn lemma_done_is_perfect(&self, maze: &Maze)
        requires
            self.inv(maze),
            self.is_done(),
            maze.w >= 1,
            maze.h >= 1,
        ensures
            maze.open_edges().len() == maze.cell_count() - 1,
            maze.outer_walls_closed() ==> open_flag_count(*maze) == 2 * (maze.cell_count() - 1),
            forall|p: Vec2i, q: Vec2i|
                maze.contains(p) && maze.contains(q) ==> #[trigger] joined(*maze, p, q),
    {
        let row = self.row_sets@;
        let w = self.w as int;
        let y = self.y as int;
        assert forall|p: Vec2i, q: Vec2i| maze.contains(p) && maze.contains(q) implies #[trigger] joined(
            *maze,
            p,
            q,
        ) by {
            reveal(row_walked);
            reveal(rows_above_reach);
            let i = if p.y < y {
                choose|i: int| 0 <= i < w && #[trigger] joined(*maze, p, cell_of(i, y))
            } else {
                p.x as int
            };
            let j = if q.y < y {
                choose|j: int| 0 <= j < w && #[trigger] joined(*maze, q, cell_of(j, y))
            } else {
                q.x as int
            };
            if p.y == y {
                assert(p == cell_of(i, y));
                assert(walk(*maze, p, cell_of(i, y), 0));
            }
            if q.y == y {
                assert(q == cell_of(j, y));
                assert(walk(*maze, q, cell_of(j, y), 0));
            }
            assert(joined(*maze, p, cell_of(i, y)));
            assert(joined(*maze, q, cell_of(j, y)));
            assert(row[i] == row[0] && row[j] == row[0]);
            assert(joined(*maze, cell_of(i, y), cell_of(j, y)));
            lemma_joined_symmetric(*maze, q, cell_of(j, y));
            lemma_joined_transitive(*maze, p, cell_of(i, y), cell_of(j, y));
            lemma_joined_transitive(*maze, p, cell_of(j, y), q);
        }
        assert(row.to_set() =~= set![row[0]]) by {
            assert forall|l: usize| row.to_set().contains(l) implies l == row[0] by {
                let i = choose|i: int| 0 <= i < row.len() && row[i] == l;
                assert(row[i] == row[0]);
            }
            assert(row.contains(row[0]));
        }
        assert(self.y * self.w + self.w == maze.cell_count()) by (nonlinear_arith)
            requires
                self.y + 1 == self.h,
                self.w == maze.w,
                self.h == maze.h,
        ;
        if maze.outer_walls_closed() {
            lemma_open_flag_count(*maze);
        }
    }
}

} // verus!
