//! Counting arguments shared by the builders that grow a maze one cell at a time:
//! the passages carved so far join visited cells only, and there is one passage fewer
//! than there are visited cells.
use vstd::prelude::*;

use crate::types::{Dir, Maze, Vec2i, opposite_dir, step_toward};

verus! {

/// The indices at which `v` holds `true`.
pub open spec fn marked(v: Seq<bool>) -> Set<int> {
    Set::new(|i: int| 0 <= i < v.len() && v[i])
}

pub proof fn lemma_marked_bounds(v: Seq<bool>)
    ensures
        marked(v).finite(),
        marked(v).len() <= v.len(),
        marked(v).subset_of(vstd::set_lib::set_int_range(0, v.len() as int)),
{
    vstd::set_lib::lemma_int_range(0, v.len() as int);
    assert(marked(v).subset_of(vstd::set_lib::set_int_range(0, v.len() as int)));
    vstd::set_lib::lemma_len_subset(marked(v), vstd::set_lib::set_int_range(0, v.len() as int));
}

/// Marking a fresh index adds exactly that index.
pub proof fn lemma_marked_insert(v: Seq<bool>, i: int)
    requires
        0 <= i < v.len(),
        !v[i],
    ensures
        marked(v.update(i, true)) == marked(v).insert(i),
        marked(v.update(i, true)).len() == marked(v).len() + 1,
        marked(v).len() < v.len(),
{
    lemma_marked_bounds(v);
    assert(marked(v.update(i, true)) =~= marked(v).insert(i));
    vstd::set_lib::lemma_int_range(0, v.len() as int);
    assert(marked(v).insert(i).subset_of(vstd::set_lib::set_int_range(0, v.len() as int)));
    vstd::set_lib::lemma_len_subset(
        marked(v).insert(i),
        vstd::set_lib::set_int_range(0, v.len() as int),
    );
}

/// When every index is marked, all `v.len()` of them are.
pub proof fn lemma_marked_all(v: Seq<bool>)
    requires
        forall|i: int| 0 <= i < v.len() ==> v[i],
    ensures
        marked(v).len() == v.len(),
{
    vstd::set_lib::lemma_int_range(0, v.len() as int);
    assert(marked(v) =~= vstd::set_lib::set_int_range(0, v.len() as int));
}

/// When `v.len()` indices are marked, every index is.
pub proof fn lemma_marked_full(v: Seq<bool>, i: int)
    requires
        marked(v).len() == v.len(),
        0 <= i < v.len(),
    ensures
        v[i],
{
    lemma_marked_bounds(v);
    if !v[i] {
        let r = vstd::set_lib::set_int_range(0, v.len() as int);
        vstd::set_lib::lemma_int_range(0, v.len() as int);
        assert(marked(v).subset_of(r.remove(i)));
        vstd::set_lib::lemma_len_subset(marked(v), r.remove(i));
    }
}

/// A walk of at most `n` steps from `p` to `q`, each step through an open passage of `m`.
pub open spec fn walk(m: Maze, p: Vec2i, q: Vec2i, n: nat) -> bool
    decreases n,
{
    p == q || (n > 0 && exists|d: Dir|
        #![trigger step_toward(p, d)]
        m.contains(step_toward(p, d)) && m.open_edges().contains(m.edge_key(p, d)) && walk(
            m,
            step_toward(p, d),
            q,
            (n - 1) as nat,
        ))
}

/// Some walk through open passages leads from `p` to `q`.
pub open spec fn joined(m: Maze, p: Vec2i, q: Vec2i) -> bool {
    exists|n: nat| walk(m, p, q, n)
}

/// Opening more passages keeps every walk.
pub proof fn lemma_walk_grow(m: Maze, m2: Maze, p: Vec2i, q: Vec2i, n: nat)
    requires
        walk(m, p, q, n),
        m2.w == m.w,
        m2.h == m.h,
        m.open_edges().subset_of(m2.open_edges()),
    ensures
        walk(m2, p, q, n),
    decreases n,
{
    if p != q {
        let d = choose|d: Dir|
            #![trigger step_toward(p, d)]
            m.contains(step_toward(p, d)) && m.open_edges().contains(m.edge_key(p, d)) && walk(
                m,
                step_toward(p, d),
                q,
                (n - 1) as nat,
            );
        lemma_walk_grow(m, m2, step_toward(p, d), q, (n - 1) as nat);
        assert(m2.contains(step_toward(p, d)) && m2.open_edges().contains(m2.edge_key(p, d)));
    }
}

/// A walk to `q` followed by one open passage out of `q`.
pub proof fn lemma_walk_append(m: Maze, p: Vec2i, q: Vec2i, n: nat, d: Dir)
    requires
        walk(m, p, q, n),
        m.contains(step_toward(q, d)),
        m.open_edges().contains(m.edge_key(q, d)),
    ensures
        walk(m, p, step_toward(q, d), n + 1),
    decreases n,
{
    let r = step_toward(q, d);
    if p == q {
        assert(walk(m, r, r, 0));
        assert(walk(m, p, r, 1));
        assert(walk(m, p, r, n + 1)) by {
            assert(walk(m, r, r, n));
        }
    } else {
        let e = choose|e: Dir|
            #![trigger step_toward(p, e)]
            m.contains(step_toward(p, e)) && m.open_edges().contains(m.edge_key(p, e)) && walk(
                m,
                step_toward(p, e),
                q,
                (n - 1) as nat,
            );
        lemma_walk_append(m, step_toward(p, e), q, (n - 1) as nat, d);
        assert(walk(m, step_toward(p, e), r, n));
    }
}

/// A walk from `p` to `q` followed by a walk from `q` to `r` is a walk from `p` to `r`.
pub proof fn lemma_walk_concat(m: Maze, p: Vec2i, q: Vec2i, r: Vec2i, n1: nat, n2: nat)
    requires
        walk(m, p, q, n1),
        walk(m, q, r, n2),
    ensures
        walk(m, p, r, n1 + n2),
    decreases n1,
{
    if p == q {
        lemma_walk_longer(m, q, r, n2, n1 + n2);
    } else {
        let e = choose|e: Dir|
            #![trigger step_toward(p, e)]
            m.contains(step_toward(p, e)) && m.open_edges().contains(m.edge_key(p, e)) && walk(
                m,
                step_toward(p, e),
                q,
                (n1 - 1) as nat,
            );
        lemma_walk_concat(m, step_toward(p, e), q, r, (n1 - 1) as nat, n2);
        assert(walk(m, step_toward(p, e), r, (n1 + n2 - 1) as nat));
    }
}

/// A walk taken backwards is a walk.
pub proof fn lemma_walk_reverse(m: Maze, p: Vec2i, q: Vec2i, n: nat)
    requires
        m.dims_ok(),
        m.contains(p),
        walk(m, p, q, n),
    ensures
        walk(m, q, p, n),
    decreases n,
{
    if p != q {
        let e = choose|e: Dir|
            #![trigger step_toward(p, e)]
            m.contains(step_toward(p, e)) && m.open_edges().contains(m.edge_key(p, e)) && walk(
                m,
                step_toward(p, e),
                q,
                (n - 1) as nat,
            );
        let p1 = step_toward(p, e);
        lemma_walk_reverse(m, p1, q, (n - 1) as nat);
        m.lemma_contains_coords_ok(p);
        crate::builders::origin_shift::lemma_edge_key_back(m, p, e);
        lemma_walk_append(m, q, p1, (n - 1) as nat, opposite_dir(e));
    }
}

/// `joined` is symmetric between cells of the grid.
pub proof fn lemma_joined_symmetric(m: Maze, p: Vec2i, q: Vec2i)
    requires
        m.dims_ok(),
        m.contains(p),
        joined(m, p, q),
    ensures
        joined(m, q, p),
{
    let n = choose|n: nat| walk(m, p, q, n);
    lemma_walk_reverse(m, p, q, n);
}

/// `joined` is transitive.
pub proof fn lemma_joined_transitive(m: Maze, p: Vec2i, q: Vec2i, r: Vec2i)
    requires
        joined(m, p, q),
        joined(m, q, r),
    ensures
        joined(m, p, r),
{
    let n1 = choose|n: nat| walk(m, p, q, n);
    let n2 = choose|n: nat| walk(m, q, r, n);
    lemma_walk_concat(m, p, q, r, n1, n2);
}

/// Any two cells of the grid are joined by a walk.
#[verifier::opaque]
pub open spec fn grid_joined(m: Maze) -> bool {
    forall|p: Vec2i, q: Vec2i| m.contains(p) && m.contains(q) ==> #[trigger] joined(m, p, q)
}

/// Opening more passages keeps the grid connected.
pub proof fn lemma_grid_joined_grow(m: Maze, m2: Maze)
    requires
        grid_joined(m),
        m2.w == m.w,
        m2.h == m.h,
        m.open_edges().subset_of(m2.open_edges()),
    ensures
        grid_joined(m2),
{
    reveal(grid_joined);
    assert forall|p: Vec2i, q: Vec2i| m2.contains(p) && m2.contains(q) implies #[trigger] joined(
        m2,
        p,
        q,
    ) by {
        assert(joined(m, p, q));
        lemma_joined_grow(m, m2, p, q);
    }
}

/// Opening more passages keeps every pair joined.
pub proof fn lemma_joined_grow(m: Maze, m2: Maze, p: Vec2i, q: Vec2i)
    requires
        joined(m, p, q),
        m2.w == m.w,
        m2.h == m.h,
        m.open_edges().subset_of(m2.open_edges()),
    ensures
        joined(m2, p, q),
{
    let n = choose|n: nat| walk(m, p, q, n);
    lemma_walk_grow(m, m2, p, q, n);
}

/// Two neighbours across an open passage are joined, both ways.
pub proof fn lemma_joined_step(m: Maze, p: Vec2i, d: Dir)
    requires
        m.dims_ok(),
        m.contains(p),
        m.contains(step_toward(p, d)),
        m.open_edges().contains(m.edge_key(p, d)),
    ensures
        joined(m, p, step_toward(p, d)),
        joined(m, step_toward(p, d), p),
{
    let q = step_toward(p, d);
    assert(walk(m, q, q, 0));
    assert(walk(m, p, q, 1));
    lemma_walk_reverse(m, p, q, 1);
}

/// A walk of at most `n` steps is one of at most `n2` steps, for `n2` at least `n`.
pub proof fn lemma_walk_longer(m: Maze, p: Vec2i, q: Vec2i, n: nat, n2: nat)
    requires
        walk(m, p, q, n),
        n <= n2,
    ensures
        walk(m, p, q, n2),
    decreases n,
{
    if p != q {
        let e = choose|e: Dir|
            #![trigger step_toward(p, e)]
            m.contains(step_toward(p, e)) && m.open_edges().contains(m.edge_key(p, e)) && walk(
                m,
                step_toward(p, e),
                q,
                (n - 1) as nat,
            );
        lemma_walk_longer(m, step_toward(p, e), q, (n - 1) as nat, (n2 - 1) as nat);
    }
}

/// The passages of `m` form a tree grown from the cells marked in `v`: every open passage
/// joins two marked cells, any two marked cells are joined by a walk, and there is one
/// passage fewer than marked cells.
pub open spec fn grown_tree(m: Maze, v: Seq<bool>) -> bool {
    &&& v.len() == m.cell_count()
    &&& forall|k: int| #[trigger]
        m.open_edges().contains(k) ==> {
            &&& 0 <= m.key_ends(k).0 < v.len()
            &&& 0 <= m.key_ends(k).1 < v.len()
            &&& v[m.key_ends(k).0]
            &&& v[m.key_ends(k).1]
        }
    &&& m.open_edges().len() + 1 == marked(v).len()
    &&& marked_joined(m, v)
}

/// Any two cells marked in `v` are joined by a walk.
#[verifier::opaque]
pub open spec fn marked_joined(m: Maze, v: Seq<bool>) -> bool {
    forall|p: Vec2i, q: Vec2i|
        #![trigger v[m.index_of(p)], v[m.index_of(q)]]
        m.contains(p) && m.contains(q) && v[m.index_of(p)] && v[m.index_of(q)] ==> joined(m, p, q)
}

/// The tree of a fresh maze is the single marked start cell.
pub proof fn lemma_grown_tree_start(m: Maze, v: Seq<bool>, i: int)
    requires
        m.dims_ok(),
        v.len() == m.cell_count(),
        0 <= i < v.len(),
        forall|j: int| 0 <= j < v.len() ==> v[j] == (j == i),
        m.open_edges() == Set::<int>::empty(),
    ensures
        grown_tree(m, v),
{
    assert(marked(v) =~= set![i]);
    reveal(marked_joined);
    assert forall|p: Vec2i, q: Vec2i|
        #![trigger v[m.index_of(p)], v[m.index_of(q)]]
        m.contains(p) && m.contains(q) && v[m.index_of(p)] && v[m.index_of(q)] implies joined(
        m,
        p,
        q,
    ) by {
        m.lemma_contains_coords_ok(p);
        m.lemma_contains_coords_ok(q);
        m.lemma_index_of_injective(p, q);
        assert(walk(m, p, q, 0));
    }
}

/// Carving from a marked cell into an unmarked neighbour grows the tree by one cell.
pub proof fn lemma_grown_tree_extend(m: Maze, v: Seq<bool>, m2: Maze, a: Vec2i, d: Dir)
    requires
        m.wf(),
        grown_tree(m, v),
        m.contains(a),
        m.contains(step_toward(a, d)),
        v[m.index_of(a)],
        !v[m.index_of(step_toward(a, d))],
        m2.w == m.w,
        m2.h == m.h,
        m2.open_edges() == m.open_edges().insert(m.edge_key(a, d)),
    ensures
        grown_tree(m2, v.update(m.index_of(step_toward(a, d)), true)),
        marked(v.update(m.index_of(step_toward(a, d)), true)).len() == marked(v).len() + 1,
{
    let b = step_toward(a, d);
    let key = m.edge_key(a, d);
    m.lemma_edge_key(a, d);
    m.lemma_contains_coords_ok(b);
    m.lemma_open_edges_finite();
    lemma_marked_insert(v, m.index_of(b));
    assert(!m.open_edges().contains(key));
    let v2 = v.update(m.index_of(b), true);
    m.lemma_contains_coords_ok(a);
    assert forall|k: int| #[trigger] m2.open_edges().contains(k) implies {
        &&& 0 <= m2.key_ends(k).0 < v2.len()
        &&& 0 <= m2.key_ends(k).1 < v2.len()
        &&& v2[m2.key_ends(k).0]
        &&& v2[m2.key_ends(k).1]
    } by {
        assert(m2.key_ends(k) == m.key_ends(k));
        if k != key {
            assert(m.open_edges().contains(k));
        }
    }
    lemma_grown_tree_extend_joined(m, v, m2, a, d);
}

/// The walks of a grown tree after carving from a marked cell `a` into an unmarked
/// neighbour: old walks stay, and the new cell is one step from `a`.
proof fn lemma_grown_tree_extend_joined(m: Maze, v: Seq<bool>, m2: Maze, a: Vec2i, d: Dir)
    requires
        m.wf(),
        grown_tree(m, v),
        m.contains(a),
        m.contains(step_toward(a, d)),
        v[m.index_of(a)],
        !v[m.index_of(step_toward(a, d))],
        m2.w == m.w,
        m2.h == m.h,
        m2.open_edges() == m.open_edges().insert(m.edge_key(a, d)),
    ensures
        marked_joined(m2, v.update(m.index_of(step_toward(a, d)), true)),
{
    reveal(marked_joined);
    let b = step_toward(a, d);
    let v2 = v.update(m.index_of(b), true);
    m.lemma_contains_coords_ok(a);
    m.lemma_contains_coords_ok(b);
    crate::builders::origin_shift::lemma_edge_key_back(m, a, d);
    let od = opposite_dir(d);
    assert(step_toward(b, od) == a);
    assert(m2.open_edges().contains(m2.edge_key(a, d)));
    assert(m2.open_edges().contains(m2.edge_key(b, od)));
    assert(m.open_edges().subset_of(m2.open_edges()));
    assert forall|p: Vec2i, q: Vec2i|
        #![trigger v2[m2.index_of(p)], v2[m2.index_of(q)]]
        m2.contains(p) && m2.contains(q) && v2[m2.index_of(p)] && v2[m2.index_of(q)] implies joined(
        m2,
        p,
        q,
    ) by {
        m.lemma_contains_coords_ok(p);
        m.lemma_contains_coords_ok(q);
        if p != b && m.index_of(p) == m.index_of(b) {
            m.lemma_index_of_injective(p, b);
        }
        if q != b && m.index_of(q) == m.index_of(b) {
            m.lemma_index_of_injective(q, b);
        }
        if p == b && q == b {
            assert(walk(m2, p, q, 0));
        } else if p == b {
            assert(v[m.index_of(a)] && v[m.index_of(q)]);
            assert(joined(m, a, q));
            let n = choose|n: nat| walk(m, a, q, n);
            lemma_walk_grow(m, m2, a, q, n);
            assert(walk(m2, b, q, n + 1));
        } else if q == b {
            assert(v[m.index_of(p)] && v[m.index_of(a)]);
            assert(joined(m, p, a));
            let n = choose|n: nat| walk(m, p, a, n);
            lemma_walk_grow(m, m2, p, a, n);
            lemma_walk_append(m2, p, a, n, d);
        } else {
            assert(v[m.index_of(p)] && v[m.index_of(q)]);
            assert(joined(m, p, q));
            let n = choose|n: nat| walk(m, p, q, n);
            lemma_walk_grow(m, m2, p, q, n);
        }
    }
}

/// A finished tree that reaches every cell has `w * h - 1` passages, and a walk joins
/// any two cells.
pub proof fn lemma_grown_tree_complete(m: Maze, v: Seq<bool>)
    requires
        m.dims_ok(),
        grown_tree(m, v),
        marked(v).len() == m.cell_count(),
    ensures
        m.open_edges().len() == m.cell_count() - 1,
        forall|p: Vec2i, q: Vec2i| m.contains(p) && m.contains(q) ==> #[trigger] joined(m, p, q),
{
    reveal(marked_joined);
    assert forall|p: Vec2i, q: Vec2i| m.contains(p) && m.contains(q) implies #[trigger] joined(
        m,
        p,
        q,
    ) by {
        m.lemma_contains_coords_ok(p);
        m.lemma_contains_coords_ok(q);
        lemma_marked_full(v, m.index_of(p));
        lemma_marked_full(v, m.index_of(q));
    }
}

/// Every neighbour of `p` inside the grid is marked in `v`.
pub open spec fn saturated(m: Maze, v: Seq<bool>, p: Vec2i) -> bool {
    forall|d: Dir| #[trigger]
        m.contains(step_toward(p, d)) ==> v[m.index_of(step_toward(p, d))]
}

/// Every marked cell that is not waiting in `pending` has all its neighbours marked.
pub open spec fn settled_except(m: Maze, v: Seq<bool>, pending: Seq<Vec2i>) -> bool {
    forall|p: Vec2i|
        #![trigger saturated(m, v, p)]
        m.contains(p) && v[m.index_of(p)] && !pending.contains(p) ==> saturated(m, v, p)
}

pub proof fn lemma_saturated_monotone(m: Maze, v: Seq<bool>, i: int, p: Vec2i)
    requires
        saturated(m, v, p),
        m.dims_ok(),
        v.len() == m.cell_count(),
        0 <= i < v.len(),
    ensures
        saturated(m, v.update(i, true), p),
{
    assert forall|d: Dir| #[trigger] m.contains(step_toward(p, d)) implies v.update(i, true)[m.index_of(step_toward(p, d))] by {
        m.lemma_contains_coords_ok(step_toward(p, d));
    }
}

/// Marking one more cell keeps every settled cell settled.
pub proof fn lemma_settled_mark(m: Maze, v: Seq<bool>, pending: Seq<Vec2i>, i: int, pending2: Seq<Vec2i>)
    requires
        settled_except(m, v, pending),
        m.dims_ok(),
        v.len() == m.cell_count(),
        0 <= i < v.len(),
        forall|p: Vec2i| #[trigger] pending.contains(p) ==> pending2.contains(p),
        forall|p: Vec2i| m.contains(p) && m.index_of(p) == i ==> #[trigger] pending2.contains(p),
    ensures
        settled_except(m, v.update(i, true), pending2),
{
    assert forall|p: Vec2i|
        #![trigger saturated(m, v.update(i, true), p)]
        m.contains(p) && v.update(i, true)[m.index_of(p)] && !pending2.contains(p) implies saturated(m, v.update(i, true), p) by {
        m.lemma_contains_coords_ok(p);
        assert(!pending.contains(p));
        assert(saturated(m, v, p));
        lemma_saturated_monotone(m, v, i, p);
    }
}

/// In a grid whose top-left cell is marked, if every marked cell has all its neighbours
/// marked, then every cell is marked.
pub proof fn lemma_saturated_covers(m: Maze, v: Seq<bool>)
    requires
        m.dims_ok(),
        v.len() == m.cell_count(),
        m.cell_count() >= 1,
        v[0],
        forall|p: Vec2i| m.contains(p) && v[m.index_of(p)] ==> #[trigger] saturated(m, v, p),
    ensures
        forall|i: int| 0 <= i < m.cell_count() ==> v[i],
{
    assert forall|i: int| 0 <= i < m.cell_count() implies v[i] by {
        let w = m.w as int;
        let h = m.h as int;
        assert(w > 0) by (nonlinear_arith)
            requires
                0 <= i < w * h,
                h >= 0,
        ;
        crate::types::lemma_index_decode(w, h, i);
        let p = m.cell_at(i);
        lemma_saturated_reaches(m, v, p.x as int, p.y as int);
    }
}

proof fn lemma_saturated_reaches(m: Maze, v: Seq<bool>, x: int, y: int)
    requires
        m.dims_ok(),
        v.len() == m.cell_count(),
        v[0],
        forall|p: Vec2i| m.contains(p) && v[m.index_of(p)] ==> #[trigger] saturated(m, v, p),
        0 <= x < m.w,
        0 <= y < m.h,
    ensures
        v[y * m.w + x],
    decreases x + y,
{
    if x == 0 && y == 0 {
        m.lemma_origin_index();
    } else if y > 0 {
        lemma_saturated_reaches(m, v, x, y - 1);
        let p = Vec2i { x: x as i32, y: (y - 1) as i32 };
        m.lemma_contains_coords_ok(p);
        assert(saturated(m, v, p));
        assert(m.contains(step_toward(p, Dir::S)));
        assert(step_toward(p, Dir::S) == Vec2i { x: x as i32, y: y as i32 });
    } else {
        lemma_saturated_reaches(m, v, x - 1, y);
        let p = Vec2i { x: (x - 1) as i32, y: y as i32 };
        m.lemma_contains_coords_ok(p);
        assert(saturated(m, v, p));
        assert(m.contains(step_toward(p, Dir::E)));
    }
}

/// Settledness depends on the grid's size only, not on its walls.
pub proof fn lemma_settled_same_dims(m: Maze, m2: Maze, v: Seq<bool>, pending: Seq<Vec2i>)
    requires
        m.w == m2.w,
        m.h == m2.h,
        settled_except(m, v, pending),
    ensures
        settled_except(m2, v, pending),
{
    assert forall|p: Vec2i|
        #![trigger saturated(m2, v, p)]
        m2.contains(p) && v[m2.index_of(p)] && !pending.contains(p) implies saturated(m2, v, p) by {
        assert(saturated(m, v, p));
        assert forall|d: Dir| #[trigger] m2.contains(step_toward(p, d)) implies v[m2.index_of(step_toward(p, d))] by {
            assert(m.contains(step_toward(p, d)));
        }
    }
}

/// How many of the first `i` entries of `v` are `false`.
pub open spec fn count_unmarked(v: Seq<bool>, i: int) -> int
    decreases i,
{
    if i <= 0 {
        0
    } else {
        count_unmarked(v, i - 1) + if v[i - 1] {
            0int
        } else {
            1int
        }
    }
}

spec fn marked_below(v: Seq<bool>, i: int) -> Set<int> {
    Set::new(|j: int| 0 <= j < i && v[j])
}

proof fn lemma_count_unmarked_upto(v: Seq<bool>, i: int)
    requires
        0 <= i <= v.len(),
    ensures
        marked_below(v, i).finite(),
        marked_below(v, i).len() + count_unmarked(v, i) == i,
    decreases i,
{
    if i == 0 {
        assert(marked_below(v, 0) =~= Set::<int>::empty());
    } else {
        lemma_count_unmarked_upto(v, i - 1);
        if v[i - 1] {
            assert(marked_below(v, i) =~= marked_below(v, i - 1).insert(i - 1));
        } else {
            assert(marked_below(v, i) =~= marked_below(v, i - 1));
        }
    }
}

/// The unmarked entries are exactly those not counted in `marked(v)`.
pub proof fn lemma_count_unmarked(v: Seq<bool>)
    ensures
        count_unmarked(v, v.len() as int) == v.len() - marked(v).len(),
{
    lemma_count_unmarked_upto(v, v.len() as int);
    assert(marked_below(v, v.len() as int) =~= marked(v));
}

/// Some wall of `p` towards a cell of the grid is open.
pub open spec fn has_opening(m: Maze, p: Vec2i) -> bool {
    exists|d: Dir| m.contains(step_toward(p, d)) && !#[trigger] m.wall_of(p, d)
}

/// Once two cells are marked, every marked cell has an open wall.
pub open spec fn linked(m: Maze, v: Seq<bool>) -> bool {
    marked(v).len() >= 2 ==> forall|p: Vec2i|
        #![trigger m.index_of(p)]
        m.contains(p) && v[m.index_of(p)] ==> has_opening(m, p)
}

/// Carving from a marked cell into an unmarked neighbour keeps every marked cell linked
/// and links the new one.
pub proof fn lemma_linked_extend(m: Maze, v: Seq<bool>, m2: Maze, a: Vec2i, d: Dir)
    requires
        m.wf(),
        m2.wf(),
        m2.w == m.w,
        m2.h == m.h,
        linked(m, v),
        v.len() == m.cell_count(),
        m.contains(a),
        m.contains(step_toward(a, d)),
        v[m.index_of(a)],
        !v[m.index_of(step_toward(a, d))],
        marked(v).len() >= 1,
        forall|p: Vec2i, e: Dir|
            #![trigger m2.wall_of(p, e)]
            m2.contains(p) ==> m2.wall_of(p, e) == if (p == a && e == d) || (p == step_toward(a, d)
                && e == opposite_dir(d)) {
                false
            } else {
                m.wall_of(p, e)
            },
    ensures
        linked(m2, v.update(m.index_of(step_toward(a, d)), true)),
{
    let b = step_toward(a, d);
    let v2 = v.update(m.index_of(b), true);
    m.lemma_contains_coords_ok(b);
    m.lemma_contains_coords_ok(a);
    lemma_marked_insert(v, m.index_of(b));
    assert(step_toward(b, opposite_dir(d)) == a);
    assert forall|p: Vec2i|
        #![trigger m2.index_of(p)]
        m2.contains(p) && v2[m2.index_of(p)] implies has_opening(m2, p) by {
        m.lemma_contains_coords_ok(p);
        if p == a {
            assert(!m2.wall_of(p, d));
        } else if p == b {
            assert(!m2.wall_of(p, opposite_dir(d)));
        } else {
            if m.index_of(p) == m.index_of(b) {
                m.lemma_index_of_injective(p, b);
            }
            assert(v[m.index_of(p)]);
            if marked(v).len() < 2 {
                assert(marked(v).contains(m.index_of(a)));
                assert(marked(v).contains(m.index_of(p)));
                if m.index_of(p) == m.index_of(a) {
                    m.lemma_index_of_injective(p, a);
                }
                lemma_marked_bounds(v);
                assert(marked(v).remove(m.index_of(a)).contains(m.index_of(p)));
                assert(marked(v).remove(m.index_of(a)).len() >= 1);
            }
            assert(has_opening(m, p));
            let e = choose|e: Dir| m.contains(step_toward(p, e)) && !#[trigger] m.wall_of(p, e);
            assert(!m2.wall_of(p, e));
        }
    }
}

} // verus!
