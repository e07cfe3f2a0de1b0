//! Counting the open wall flags of a grid: once every wall facing out of the grid stands,
//! each open passage between two cells accounts for exactly two open flags.
use vstd::prelude::*;

use crate::builders::origin_shift::lemma_cell_at_index;
use crate::types::{Dir, Maze, Vec2i, outer_walls_same, step_toward};

verus! {

/// How many of the four wall flags of cell number `i` are open.
pub open spec fn open_flags_at(m: Maze, i: int) -> int {
    (if m.wall_at(i, Dir::N) { 0int } else { 1int }) + (if m.wall_at(i, Dir::E) { 0int } else { 1int })
        + (if m.wall_at(i, Dir::S) { 0int } else { 1int }) + (if m.wall_at(i, Dir::W) { 0int } else { 1int })
}

/// How many wall flags of the first `k` cells are open.
pub open spec fn open_flags_upto(m: Maze, k: int) -> int
    decreases k,
{
    if k <= 0 {
        0
    } else {
        open_flags_upto(m, k - 1) + open_flags_at(m, k - 1)
    }
}

/// How many wall flags of the whole grid are open.
pub open spec fn open_flag_count(m: Maze) -> int {
    open_flags_upto(m, m.cell_count())
}

/// Cell number `i` has an open wall in direction `d` towards a cell of the grid.
pub open spec fn open_toward(m: Maze, i: int, d: Dir) -> bool {
    m.contains(step_toward(m.cell_at(i), d)) && !m.wall_at(i, d)
}

/// The cells below `k` with an open wall in direction `d` towards a cell of the grid.
pub open spec fn open_set(m: Maze, d: Dir, k: int) -> Set<int> {
    Set::new(|i: int| 0 <= i < k && open_toward(m, i, d))
}

/// One cell more adds one to the set of `d`-openings exactly when that cell has one.
proof fn lemma_open_set_step(m: Maze, d: Dir, k: int)
    requires
        0 <= k,
        open_set(m, d, k).finite(),
    ensures
        open_set(m, d, k + 1).finite(),
        open_set(m, d, k + 1).len() == open_set(m, d, k).len() + if open_toward(m, k, d) {
            1int
        } else {
            0int
        },
{
    if open_toward(m, k, d) {
        assert(open_set(m, d, k + 1) =~= open_set(m, d, k).insert(k));
    } else {
        assert(open_set(m, d, k + 1) =~= open_set(m, d, k));
    }
}

/// With the outer walls standing, the open flags of the first `k` cells are those of the four
/// sets of openings.
proof fn lemma_flags_by_direction(m: Maze, k: int)
    requires
        m.dims_ok(),
        m.outer_walls_closed(),
        0 <= k <= m.cell_count(),
    ensures
        open_set(m, Dir::N, k).finite(),
        open_set(m, Dir::E, k).finite(),
        open_set(m, Dir::S, k).finite(),
        open_set(m, Dir::W, k).finite(),
        open_flags_upto(m, k) == open_set(m, Dir::N, k).len() + open_set(m, Dir::E, k).len() + open_set(
            m,
            Dir::S,
            k,
        ).len() + open_set(m, Dir::W, k).len(),
    decreases k,
{
    if k == 0 {
        assert(open_set(m, Dir::N, 0) =~= Set::empty());
        assert(open_set(m, Dir::E, 0) =~= Set::empty());
        assert(open_set(m, Dir::S, 0) =~= Set::empty());
        assert(open_set(m, Dir::W, 0) =~= Set::empty());
    } else {
        let i = k - 1;
        lemma_flags_by_direction(m, i);
        lemma_open_set_step(m, Dir::N, i);
        lemma_open_set_step(m, Dir::E, i);
        lemma_open_set_step(m, Dir::S, i);
        lemma_open_set_step(m, Dir::W, i);
        lemma_cell_at_index(m, i);
        let p = m.cell_at(i);
        assert(m.wall_of(p, Dir::N) == m.wall_at(i, Dir::N));
        assert(m.wall_of(p, Dir::E) == m.wall_at(i, Dir::E));
        assert(m.wall_of(p, Dir::S) == m.wall_at(i, Dir::S));
        assert(m.wall_of(p, Dir::W) == m.wall_at(i, Dir::W));
    }
}

/// Each opening westward is the opening eastward of the cell to its west.
proof fn lemma_west_is_east(m: Maze)
    requires
        m.wf(),
        open_set(m, Dir::E, m.cell_count()).finite(),
    ensures
        open_set(m, Dir::W, m.cell_count()).finite(),
        open_set(m, Dir::W, m.cell_count()).len() == open_set(m, Dir::E, m.cell_count()).len(),
{
    let n = m.cell_count();
    let e = open_set(m, Dir::E, n);
    let wset = open_set(m, Dir::W, n);
    let f = |j: int| j + 1;
    assert forall|i: int| #[trigger] wset.contains(i) implies e.map(f).contains(i) by {
        lemma_cell_at_index(m, i);
        let p = m.cell_at(i);
        let q = step_toward(p, Dir::W);
        let j = m.index_of(q);
        m.lemma_contains_coords_ok(q);
        lemma_cell_at_index(m, j);
        m.lemma_index_of_injective(q, m.cell_at(j));
        assert(step_toward(q, Dir::E) == p);
        assert(m.wall_of(q, Dir::E) == m.wall_of(p, Dir::W));
        assert(e.contains(j));
        assert(f(j) == i);
    }
    assert forall|i: int| #[trigger] e.map(f).contains(i) implies wset.contains(i) by {
        let j = choose|j: int| e.contains(j) && i == f(j);
        lemma_cell_at_index(m, j);
        let q = m.cell_at(j);
        let p = step_toward(q, Dir::E);
        m.lemma_contains_coords_ok(p);
        assert(m.index_of(p) == i);
        lemma_cell_at_index(m, i);
        m.lemma_index_of_injective(p, m.cell_at(i));
        assert(step_toward(p, Dir::W) == q);
        assert(m.wall_of(q, Dir::E) == m.wall_of(p, Dir::W));
    }
    assert(e.map(f) =~= wset);
    vstd::set_lib::lemma_map_size(e, wset, f);
}

/// Each opening northward is the opening southward of the cell above it.
proof fn lemma_north_is_south(m: Maze)
    requires
        m.wf(),
        open_set(m, Dir::S, m.cell_count()).finite(),
    ensures
        open_set(m, Dir::N, m.cell_count()).finite(),
        open_set(m, Dir::N, m.cell_count()).len() == open_set(m, Dir::S, m.cell_count()).len(),
{
    let n = m.cell_count();
    let w = m.w as int;
    let s = open_set(m, Dir::S, n);
    let nset = open_set(m, Dir::N, n);
    let f = |j: int| j + w;
    assert forall|i: int| #[trigger] nset.contains(i) implies s.map(f).contains(i) by {
        lemma_cell_at_index(m, i);
        let p = m.cell_at(i);
        let q = step_toward(p, Dir::N);
        let j = m.index_of(q);
        m.lemma_contains_coords_ok(q);
        lemma_cell_at_index(m, j);
        m.lemma_index_of_injective(q, m.cell_at(j));
        assert(step_toward(q, Dir::S) == p);
        assert(m.wall_of(q, Dir::S) == m.wall_of(p, Dir::N));
        assert(j == (q.y as int) * w + q.x);
        assert(i == (p.y as int) * w + p.x);
        assert(q.y * w + w == (q.y + 1) * w) by (nonlinear_arith);
        assert(s.contains(j));
        assert(f(j) == i);
    }
    assert forall|i: int| #[trigger] s.map(f).contains(i) implies nset.contains(i) by {
        let j = choose|j: int| s.contains(j) && i == f(j);
        lemma_cell_at_index(m, j);
        let q = m.cell_at(j);
        let p = step_toward(q, Dir::S);
        m.lemma_contains_coords_ok(p);
        assert(j == (q.y as int) * w + q.x);
        assert(q.y * w + w == (q.y + 1) * w) by (nonlinear_arith);
        assert(m.index_of(p) == i);
        lemma_cell_at_index(m, i);
        m.lemma_index_of_injective(p, m.cell_at(i));
        assert(step_toward(p, Dir::N) == q);
        assert(m.wall_of(q, Dir::S) == m.wall_of(p, Dir::N));
    }
    assert(s.map(f) =~= nset);
    vstd::set_lib::lemma_map_size(s, nset, f);
}

/// The open passages are the eastward openings (named by even numbers) and the southward
/// ones (named by odd numbers).
proof fn lemma_edges_are_east_and_south(m: Maze)
    requires
        m.dims_ok(),
        open_set(m, Dir::E, m.cell_count()).finite(),
        open_set(m, Dir::S, m.cell_count()).finite(),
    ensures
        m.open_edges().len() == open_set(m, Dir::E, m.cell_count()).len() + open_set(
            m,
            Dir::S,
            m.cell_count(),
        ).len(),
{
    let n = m.cell_count();
    let e = open_set(m, Dir::E, n);
    let s = open_set(m, Dir::S, n);
    let fe = |i: int| 2 * i;
    let fs = |i: int| 2 * i + 1;
    let ke = e.map(fe);
    let ks = s.map(fs);
    assert forall|k: int| #[trigger] m.open_edges().contains(k) implies (ke + ks).contains(k) by {
        m.lemma_key_decode(k);
        let i = k / 2;
        lemma_cell_at_index(m, i);
        if k % 2 == 0 {
            assert(fe(i) == k);
            assert(e.contains(i));
        } else {
            assert(fs(i) == k);
            assert(s.contains(i));
        }
    }
    assert forall|k: int| #[trigger] (ke + ks).contains(k) implies m.open_edges().contains(k) by {
        if ke.contains(k) {
            let i = choose|i: int| e.contains(i) && k == fe(i);
            lemma_cell_at_index(m, i);
            m.lemma_key_decode(k);
            assert(k / 2 == i);
        } else {
            let i = choose|i: int| s.contains(i) && k == fs(i);
            lemma_cell_at_index(m, i);
            m.lemma_key_decode(k);
            assert(k / 2 == i);
        }
    }
    assert(m.open_edges() =~= ke + ks);
    vstd::set_lib::lemma_map_size(e, ke, fe);
    vstd::set_lib::lemma_map_size(s, ks, fs);
    assert(ke.disjoint(ks)) by {
        assert forall|k: int| ke.contains(k) implies !ks.contains(k) by {
            let i = choose|i: int| e.contains(i) && k == fe(i);
            if ks.contains(k) {
                let j = choose|j: int| s.contains(j) && k == fs(j);
                assert(2 * i == 2 * j + 1);
            }
        }
    }
    vstd::set_lib::lemma_set_disjoint_lens(ke, ks);
}

/// With every wall facing out of the grid standing, the open wall flags number twice the
/// open passages between cells.
pub proof fn lemma_open_flag_count(m: Maze)
    requires
        m.wf(),
        m.outer_walls_closed(),
    ensures
        open_flag_count(m) == 2 * m.open_edges().len(),
{
    lemma_flags_by_direction(m, m.cell_count());
    lemma_west_is_east(m);
    lemma_north_is_south(m);
    lemma_edges_are_east_and_south(m);
}

/// A grid whose outer walls stand keeps them standing through steps that keep its outer walls.
pub proof fn lemma_outer_walls_stay_closed(m0: Maze, m1: Maze)
    requires
        m0.outer_walls_closed(),
        outer_walls_same(m0, m1),
        m0.w == m1.w,
        m0.h == m1.h,
    ensures
        m1.outer_walls_closed(),
{
    assert forall|p: Vec2i, e: Dir|
        #![trigger m1.wall_of(p, e)]
        m1.contains(p) && !m1.contains(step_toward(p, e)) implies m1.wall_of(p, e) by {
        assert(m0.wall_of(p, e));
    }
}

} // verus!
