use vstd::prelude::*;

use crate::wall_count::{lemma_open_flag_count, open_flag_count};

use super::{BuildStrategy, neighbor_pick, random_neighbor, seed_after_pick};
use crate::rng::time_seed;
use crate::forest::{joined, lemma_joined_step, lemma_joined_symmetric, lemma_joined_transitive, walk};
use crate::types::{outer_walls_same, Dir, Maze, Vec2i, coords_ok, dir_at, dir_from_index, opposite_dir, step_toward};

verus! {

/// The wall between cell `i` and the neighbour that `par[i]` points to.
pub open spec fn parent_key(m: Maze, par: Seq<Option<Dir>>, i: int) -> int {
    m.edge_key(m.cell_at(i), par[i]->0)
}

/// The walls between each cell with index below `hi` that has a parent and that parent.
pub open spec fn tree_keys(m: Maze, par: Seq<Option<Dir>>, hi: int) -> Set<int> {
    Set::new(
        |k: int|
            exists|i: int| 0 <= i < hi && par[i] is Some && k == #[trigger] parent_key(m, par, i),
    )
}

/// One parent entry per cell, every parent is a neighbouring cell of the grid, and no two
/// cells are each other's parent.
pub open spec fn parents_ok(m: Maze, par: Seq<Option<Dir>>) -> bool {
    &&& par.len() == m.cell_count()
    &&& forall|i: int|
        #![trigger par[i]]
        0 <= i < m.cell_count() && par[i] is Some ==> m.contains(
            step_toward(m.cell_at(i), par[i]->0),
        )
    &&& forall|i: int|
        #![trigger par[i]]
        0 <= i < m.cell_count() && par[i] is Some ==> {
            let j = m.index_of(step_toward(m.cell_at(i), par[i]->0));
            !(par[j] is Some && step_toward(m.cell_at(j), par[j]->0) == m.cell_at(i))
        }
}

/// The index of the parent of cell `i`.
pub open spec fn parent_index(m: Maze, par: Seq<Option<Dir>>, i: int) -> int {
    m.index_of(step_toward(m.cell_at(i), par[i]->0))
}

/// Following parents from cell `i` reaches cell `o` within `k` steps.
pub open spec fn climbs(m: Maze, par: Seq<Option<Dir>>, i: int, o: int, k: nat) -> bool
    decreases k,
{
    i == o || (k > 0 && par[i] is Some && climbs(m, par, parent_index(m, par, i), o, (k - 1) as nat))
}

/// Following parents from cell `i` reaches cell `o`.
pub open spec fn climbs_to(m: Maze, par: Seq<Option<Dir>>, i: int, o: int) -> bool {
    exists|k: nat| #[trigger] climbs(m, par, i, o, k)
}

/// From every cell, following parents reaches cell `o`.
#[verifier::opaque]
pub open spec fn all_climb(m: Maze, par: Seq<Option<Dir>>, o: int) -> bool {
    forall|i: int| 0 <= i < m.cell_count() ==> #[trigger] climbs_to(m, par, i, o)
}

/// Moving the root from `o` to its neighbour `j` (which takes `o` as child and loses its
/// own parent) keeps every climb, one step longer at most.
pub proof fn lemma_climbs_shift(m: Maze, par: Seq<Option<Dir>>, o: int, d: Dir, i: int, k: nat)
    requires
        m.dims_ok(),
        parents_ok(m, par),
        0 <= o < par.len(),
        0 <= i < par.len(),
        0 <= m.index_of(step_toward(m.cell_at(o), d)) < par.len(),
        climbs(m, par, i, o, k),
    ensures
        ({
            let j = m.index_of(step_toward(m.cell_at(o), d));
            climbs(m, par.update(o, Some(d)).update(j, None), i, j, k + 1)
        }),
    decreases k,
{
    let j = m.index_of(step_toward(m.cell_at(o), d));
    let par2 = par.update(o, Some(d)).update(j, None);
    if i == j {
    } else if i == o {
        assert(par2[o] == Some(d));
        assert(parent_index(m, par2, o) == j);
        assert(climbs(m, par2, j, j, k));
    } else {
        let pi = parent_index(m, par, i);
        assert(par2[i] == par[i]);
        assert(parent_index(m, par2, i) == pi);
        assert(m.contains(step_toward(m.cell_at(i), par[i]->0)));
        m.lemma_contains_coords_ok(step_toward(m.cell_at(i), par[i]->0));
        lemma_climbs_shift(m, par, o, d, pi, (k - 1) as nat);
    }
}

/// A climb through parents whose walls are all open is a walk.
pub proof fn lemma_climbs_joined(m: Maze, maze: Maze, par: Seq<Option<Dir>>, i: int, o: int, k: nat)
    requires
        m.dims_ok(),
        maze.dims_ok(),
        maze.w == m.w,
        maze.h == m.h,
        parents_ok(m, par),
        0 <= i < m.cell_count(),
        0 <= o < m.cell_count(),
        climbs(m, par, i, o, k),
        tree_keys(m, par, m.cell_count()).subset_of(maze.open_edges()),
    ensures
        joined(maze, m.cell_at(i), m.cell_at(o)),
    decreases k,
{
    if i == o {
        assert(walk(maze, m.cell_at(i), m.cell_at(o), 0));
    } else {
        let pi = parent_index(m, par, i);
        let c = m.cell_at(i);
        let d = par[i]->0;
        assert(par[i] is Some);
        lemma_cell_at_index(m, i);
        assert(m.contains(step_toward(c, d)));
        m.lemma_contains_coords_ok(step_toward(c, d));
        lemma_cell_at_index(m, pi);
        m.lemma_index_of_injective(m.cell_at(pi), step_toward(c, d));
        assert(tree_keys(m, par, m.cell_count()).contains(parent_key(m, par, i)));
        assert(maze.open_edges().contains(maze.edge_key(c, d)));
        lemma_joined_step(maze, c, d);
        lemma_climbs_joined(m, maze, par, pi, o, (k - 1) as nat);
        lemma_joined_transitive(maze, c, m.cell_at(pi), m.cell_at(o));
    }
}

/// Moving the root to a neighbour keeps every cell climbing to the root.
pub proof fn lemma_all_climb_shift(m: Maze, par: Seq<Option<Dir>>, o: int, d: Dir)
    requires
        m.dims_ok(),
        parents_ok(m, par),
        all_climb(m, par, o),
        0 <= o < par.len(),
        0 <= m.index_of(step_toward(m.cell_at(o), d)) < par.len(),
    ensures
        all_climb(
            m,
            par.update(o, Some(d)).update(m.index_of(step_toward(m.cell_at(o), d)), None),
            m.index_of(step_toward(m.cell_at(o), d)),
        ),
{
    reveal(all_climb);
    let j = m.index_of(step_toward(m.cell_at(o), d));
    let par2 = par.update(o, Some(d)).update(j, None);
    assert forall|i: int| 0 <= i < m.cell_count() implies #[trigger] climbs_to(m, par2, i, j) by {
        assert(climbs_to(m, par, i, o));
        let k = choose|k: nat| #[trigger] climbs(m, par, i, o, k);
        lemma_climbs_shift(m, par, o, d, i, k);
    }
}

/// When the parents' walls are all open and every cell climbs to the root, a walk joins
/// any two cells.
pub proof fn lemma_all_climb_joined(m: Maze, maze: Maze, par: Seq<Option<Dir>>, o: int)
    requires
        m.dims_ok(),
        maze.dims_ok(),
        maze.w == m.w,
        maze.h == m.h,
        parents_ok(m, par),
        all_climb(m, par, o),
        0 <= o < m.cell_count(),
        tree_keys(m, par, m.cell_count()).subset_of(maze.open_edges()),
    ensures
        forall|p: Vec2i, q: Vec2i| maze.contains(p) && maze.contains(q) ==> #[trigger] joined(maze, p, q),
{
    reveal(all_climb);
    assert forall|p: Vec2i, q: Vec2i| maze.contains(p) && maze.contains(q) implies #[trigger] joined(
        maze,
        p,
        q,
    ) by {
        m.lemma_contains_coords_ok(p);
        m.lemma_contains_coords_ok(q);
        let i = m.index_of(p);
        let j = m.index_of(q);
        lemma_cell_at_index(m, i);
        lemma_cell_at_index(m, j);
        lemma_cell_at_index(m, o);
        m.lemma_index_of_injective(m.cell_at(i), p);
        m.lemma_index_of_injective(m.cell_at(j), q);
        assert(climbs_to(m, par, i, o));
        assert(climbs_to(m, par, j, o));
        let ki = choose|k: nat| #[trigger] climbs(m, par, i, o, k);
        let kj = choose|k: nat| #[trigger] climbs(m, par, j, o, k);
        lemma_climbs_joined(m, maze, par, i, o, ki);
        lemma_climbs_joined(m, maze, par, j, o, kj);
        lemma_joined_symmetric(maze, q, m.cell_at(o));
        lemma_joined_transitive(maze, p, m.cell_at(o), q);
    }
}

/// The position of cell `(x, y)` along the snake: rows in order, even rows west to east,
/// odd rows east to west.
pub open spec fn snake_pos(w: int, x: int, y: int) -> int {
    y * w + if y % 2 == 0 {
        x
    } else {
        w - 1 - x
    }
}

/// In the snake, the parent of every cell but the first is the cell before it.
pub proof fn lemma_snake_climbs(m: Maze, par: Seq<Option<Dir>>, i: int)
    requires
        m.dims_ok(),
        m.w >= 1,
        par.len() == m.cell_count(),
        par[0] is None,
        forall|t: int|
            1 <= t < m.cell_count() ==> #[trigger] par[t] == Some(
                snake_dir(m.w as int, m.cell_at(t).x as int, m.cell_at(t).y as int),
            ),
        0 <= i < m.cell_count(),
    ensures
        climbs(m, par, i, 0, snake_pos(m.w as int, m.cell_at(i).x as int, m.cell_at(i).y as int) as nat),
    decreases snake_pos(m.w as int, m.cell_at(i).x as int, m.cell_at(i).y as int),
{
    let w = m.w as int;
    lemma_cell_at_index(m, i);
    let c = m.cell_at(i);
    let x = c.x as int;
    let y = c.y as int;
    assert(i == y * w + x);
    assert(0 <= y * w) by (nonlinear_arith)
        requires
            0 <= y,
            0 <= w,
    ;
    let s = snake_pos(w, x, y);
    if i == 0 {
    } else {
        assert(y >= 1 || x >= 1) by {
            if y == 0 {
                assert(y * w == 0) by (nonlinear_arith)
                    requires
                        y == 0,
                ;
            }
        }
        let d = snake_dir(w, x, y);
        assert(par[i] == Some(d));
        let q = step_toward(c, d);
        assert(m.contains(q)) by {
            if y % 2 == 0 && x == 0 {
                assert(y >= 1);
            }
        }
        m.lemma_contains_coords_ok(q);
        let j = m.index_of(q);
        lemma_cell_at_index(m, j);
        m.lemma_index_of_injective(m.cell_at(j), q);
        assert(parent_index(m, par, i) == j);
        let qx = q.x as int;
        let qy = q.y as int;
        assert(snake_pos(w, qx, qy) + 1 == s) by {
            if y % 2 == 0 && x == 0 {
                assert((y - 1) % 2 == 1);
                assert((y - 1) * w + w == y * w) by (nonlinear_arith);
            } else if y % 2 == 1 && x == w - 1 {
                assert((y - 1) % 2 == 0);
                assert((y - 1) * w + w == y * w) by (nonlinear_arith);
            }
        }
        assert(0 <= qy * w) by (nonlinear_arith)
            requires
                0 <= qy,
                0 <= w,
        ;
        lemma_snake_climbs(m, par, j);
        assert(j != 0 ==> par[j] == Some(snake_dir(w, qx, qy)));
    }
}

/// Every cell of the snake climbs to the first.
pub proof fn lemma_snake_all_climb(m: Maze, par: Seq<Option<Dir>>)
    requires
        m.dims_ok(),
        m.w >= 1,
        par.len() == m.cell_count(),
        par[0] is None,
        forall|t: int|
            1 <= t < m.cell_count() ==> #[trigger] par[t] == Some(
                snake_dir(m.w as int, m.cell_at(t).x as int, m.cell_at(t).y as int),
            ),
    ensures
        all_climb(m, par, 0),
{
    reveal(all_climb);
    assert forall|i: int| 0 <= i < m.cell_count() implies #[trigger] climbs_to(m, par, i, 0) by {
        lemma_snake_climbs(m, par, i);
        lemma_cell_at_index(m, i);
        let c = m.cell_at(i);
        assert(snake_pos(m.w as int, c.x as int, c.y as int) >= 0) by {
            assert(0 <= c.y * m.w) by (nonlinear_arith)
                requires
                    0 <= c.y,
                    0 <= m.w,
            ;
        }
    }
}

/// The one cell without a parent is the cell with index `o`.
pub open spec fn rooted_at(m: Maze, par: Seq<Option<Dir>>, o: int) -> bool {
    forall|i: int| 0 <= i < m.cell_count() ==> (#[trigger] par[i] is None <==> i == o)
}

/// The direction from `(x, y)` to its parent in the snake-shaped tree that the generator
/// starts from: even rows run west to the start of the row, odd rows run east, and the
/// first cell of each row hangs from the row above.
pub open spec fn snake_dir(w: int, x: int, y: int) -> Dir {
    if y % 2 == 0 && x == 0 {
        Dir::N
    } else if y % 2 == 1 && x == w - 1 {
        Dir::N
    } else if y % 2 == 0 {
        Dir::W
    } else {
        Dir::E
    }
}

/// 1 when the step from `p` towards `d` reaches a cell of the grid not yet visited.
pub open spec fn unvisited_toward(m: Maze, v: Seq<bool>, p: Vec2i, d: Dir) -> int {
    if m.contains(step_toward(p, d)) && !v[m.index_of(step_toward(p, d))] {
        1
    } else {
        0
    }
}

/// How many neighbours of `p` in the grid are not yet visited.
pub open spec fn unvisited_degree(m: Maze, v: Seq<bool>, p: Vec2i) -> int {
    unvisited_toward(m, v, p, Dir::N) + unvisited_toward(m, v, p, Dir::E) + unvisited_toward(
        m,
        v,
        p,
        Dir::S,
    ) + unvisited_toward(m, v, p, Dir::W)
}

/// `p` is one step from `q` in a direction with index `k` or more.
pub open spec fn reached_from(q: Vec2i, p: Vec2i, k: int) -> bool {
    ||| k <= 0 && step_toward(q, Dir::N) == p
    ||| k <= 1 && step_toward(q, Dir::E) == p
    ||| k <= 2 && step_toward(q, Dir::S) == p
    ||| k <= 3 && step_toward(q, Dir::W) == p
}

/// 1 when cell `i` is unvisited and still has an unvisited neighbour (by its counter).
pub open spec fn open_flag(v: Seq<bool>, cnt: Seq<usize>, i: int) -> int {
    if !v[i] && cnt[i] > 0 {
        1
    } else {
        0
    }
}

/// How many of the first `i` cells are unvisited and have an unvisited neighbour.
pub open spec fn open_unvisited_count(m: Maze, v: Seq<bool>, i: int) -> int
    decreases i,
{
    if i <= 0 {
        0
    } else {
        open_unvisited_count(m, v, i - 1) + if !v[i - 1] && unvisited_degree(m, v, m.cell_at(i - 1)) > 0 {
            1int
        } else {
            0int
        }
    }
}

/// Counting by the stored counters agrees with counting by the neighbours themselves.
proof fn lemma_counters_count(m: Maze, v: Seq<bool>, cnt: Seq<usize>, i: int)
    requires
        0 <= i <= v.len(),
        v.len() == cnt.len(),
        forall|t: int| 0 <= t < v.len() && !v[t] ==> #[trigger] cnt[t] == unvisited_degree(m, v, m.cell_at(t)),
    ensures
        non_isolated_count(v, cnt, i) == open_unvisited_count(m, v, i),
    decreases i,
{
    if i > 0 {
        lemma_counters_count(m, v, cnt, i - 1);
        if !v[i - 1] {
            assert(cnt[i - 1] == unvisited_degree(m, v, m.cell_at(i - 1)));
        }
    }
}

/// How many of the first `i` cells are unvisited with an unvisited neighbour.
pub open spec fn non_isolated_count(v: Seq<bool>, cnt: Seq<usize>, i: int) -> int
    decreases i,
{
    if i <= 0 {
        0
    } else {
        non_isolated_count(v, cnt, i - 1) + open_flag(v, cnt, i - 1)
    }
}

pub proof fn lemma_cell_at_index(m: Maze, i: int)
    requires
        m.dims_ok(),
        0 <= i < m.cell_count(),
    ensures
        m.contains(m.cell_at(i)),
        m.index_of(m.cell_at(i)) == i,
        coords_ok(m.cell_at(i)),
{
    m.lemma_key_decode(2 * i);
    assert((2 * i) / 2 == i);
    m.lemma_contains_coords_ok(m.cell_at(i));
}

/// Stepping back from a neighbour names the same wall.
pub proof fn lemma_edge_key_back(m: Maze, p: Vec2i, d: Dir)
    requires
        coords_ok(p),
    ensures
        step_toward(step_toward(p, d), opposite_dir(d)) == p,
        m.edge_key(step_toward(p, d), opposite_dir(d)) == m.edge_key(p, d),
{
}

/// Stepping from `q` in the `k`-th direction: whether `p` lies there or in a later one.
pub proof fn lemma_reached_next(q: Vec2i, p: Vec2i, k: int, d: Dir)
    requires
        0 <= k < 4,
        d == dir_from_index(k),
        coords_ok(q),
    ensures
        reached_from(q, p, k) == (reached_from(q, p, k + 1) || step_toward(q, d) == p),
        step_toward(q, d) == p ==> !reached_from(q, p, k + 1),
{
}

/// Two different cells with parents have different walls to their parents.
pub proof fn lemma_parent_keys_distinct(m: Maze, par: Seq<Option<Dir>>, i: int, j: int)
    requires
        m.wf(),
        parents_ok(m, par),
        0 <= i < m.cell_count(),
        0 <= j < m.cell_count(),
        i != j,
        par[i] is Some,
        par[j] is Some,
    ensures
        parent_key(m, par, i) != parent_key(m, par, j),
{
    let p = m.cell_at(i);
    let q = m.cell_at(j);
    lemma_cell_at_index(m, i);
    lemma_cell_at_index(m, j);
    let d = par[i]->0;
    let e = par[j]->0;
    let p2 = step_toward(p, d);
    let q2 = step_toward(q, e);
    assert(m.contains(p2));
    assert(m.contains(q2));
    m.lemma_edge_key(p, d);
    m.lemma_edge_key(q, e);
    if parent_key(m, par, i) == parent_key(m, par, j) {
        if m.index_of(p) == m.index_of(q2) {
            m.lemma_index_of_injective(p, q2);
            m.lemma_index_of_injective(p2, q);
            assert(m.index_of(p2) == j);
            assert(false);
        }
    }
}

/// The walls to the parents of the cells below `hi` are as many as those cells, less the
/// root if it is among them.
pub proof fn lemma_tree_keys_count(m: Maze, par: Seq<Option<Dir>>, o: int, hi: int)
    requires
        m.wf(),
        parents_ok(m, par),
        rooted_at(m, par, o),
        0 <= o < m.cell_count(),
        0 <= hi <= m.cell_count(),
    ensures
        tree_keys(m, par, hi).finite(),
        tree_keys(m, par, hi).len() == hi - if o < hi {
            1int
        } else {
            0int
        },
    decreases hi,
{
    if hi == 0 {
        assert(tree_keys(m, par, 0) =~= Set::<int>::empty());
    } else {
        let i = hi - 1;
        lemma_tree_keys_count(m, par, o, i);
        assert(par[i] is None <==> i == o);
        lemma_tree_keys_extend(m, par, i);
        if i != o {
            if tree_keys(m, par, i).contains(parent_key(m, par, i)) {
                let t = choose|t: int|
                    0 <= t < i && par[t] is Some && parent_key(m, par, i) == #[trigger] parent_key(
                        m,
                        par,
                        t,
                    );
                lemma_parent_keys_distinct(m, par, t, i);
            }
        }
    }
}

/// A maze whose passages are the walls to the parents of a tree rooted at one cell has
/// exactly one passage fewer than cells.
pub proof fn lemma_tree_is_perfect(shape: Maze, m: Maze, par: Seq<Option<Dir>>, o: int)
    requires
        shape.wf(),
        m.w == shape.w,
        m.h == shape.h,
        parents_ok(shape, par),
        rooted_at(shape, par, o),
        0 <= o < shape.cell_count(),
        m.open_edges() === tree_keys(shape, par, shape.cell_count()),
    ensures
        m.open_edges().len() == m.cell_count() - 1,
{
    lemma_tree_keys_count(shape, par, o, shape.cell_count());
}

/// Marking `q` visited lowers the unvisited degree of each of its neighbours by one.
pub proof fn lemma_degree_visit(m: Maze, v: Seq<bool>, q: Vec2i, p: Vec2i)
    requires
        m.dims_ok(),
        m.contains(q),
        m.contains(p),
        v.len() == m.cell_count(),
        !v[m.index_of(q)],
    ensures
        unvisited_degree(m, v.update(m.index_of(q), true), p) == unvisited_degree(m, v, p) - if reached_from(
            q,
            p,
            0,
        ) {
            1int
        } else {
            0int
        },
{
    m.lemma_contains_coords_ok(q);
    m.lemma_contains_coords_ok(p);
    let v2 = v.update(m.index_of(q), true);
    let qi = m.index_of(q);
    assert forall|d: Dir| #![trigger step_toward(p, d)] m.contains(step_toward(p, d)) implies (m.index_of(
        step_toward(p, d),
    ) == qi <==> step_toward(p, d) == q) by {
        m.lemma_contains_coords_ok(step_toward(p, d));
        if m.index_of(step_toward(p, d)) == qi {
            m.lemma_index_of_injective(step_toward(p, d), q);
        }
    }
    assert(reached_from(q, p, 0) <==> (step_toward(p, Dir::N) == q || step_toward(p, Dir::E) == q
        || step_toward(p, Dir::S) == q || step_toward(p, Dir::W) == q)) by {
        lemma_edge_key_back(m, p, Dir::N);
        lemma_edge_key_back(m, p, Dir::E);
        lemma_edge_key_back(m, p, Dir::S);
        lemma_edge_key_back(m, p, Dir::W);
        lemma_edge_key_back(m, q, Dir::N);
        lemma_edge_key_back(m, q, Dir::E);
        lemma_edge_key_back(m, q, Dir::S);
        lemma_edge_key_back(m, q, Dir::W);
    }
    let sn = step_toward(p, Dir::N);
    let se = step_toward(p, Dir::E);
    let ss = step_toward(p, Dir::S);
    let sw = step_toward(p, Dir::W);
    if m.contains(sn) {
        m.lemma_contains_coords_ok(sn);
    }
    if m.contains(se) {
        m.lemma_contains_coords_ok(se);
    }
    if m.contains(ss) {
        m.lemma_contains_coords_ok(ss);
    }
    if m.contains(sw) {
        m.lemma_contains_coords_ok(sw);
    }
    assert(m.contains(sn) ==> v2[m.index_of(sn)] == (v[m.index_of(sn)] || m.index_of(sn) == qi));
    assert(m.contains(se) ==> v2[m.index_of(se)] == (v[m.index_of(se)] || m.index_of(se) == qi));
    assert(m.contains(ss) ==> v2[m.index_of(ss)] == (v[m.index_of(ss)] || m.index_of(ss) == qi));
    assert(m.contains(sw) ==> v2[m.index_of(sw)] == (v[m.index_of(sw)] || m.index_of(sw) == qi));
}

pub proof fn lemma_count_change(
    v: Seq<bool>,
    c: Seq<usize>,
    v2: Seq<bool>,
    c2: Seq<usize>,
    j: int,
    i: int,
)
    requires
        0 <= j,
        forall|t: int| 0 <= t < i && t != j ==> v2[t] == v[t] && c2[t] == c[t],
    ensures
        non_isolated_count(v2, c2, i) == non_isolated_count(v, c, i) + if j < i {
            open_flag(v2, c2, j) - open_flag(v, c, j)
        } else {
            0int
        },
    decreases i,
{
    if i > 0 {
        lemma_count_change(v, c, v2, c2, j, i - 1);
    }
}

pub proof fn lemma_count_ge(v: Seq<bool>, c: Seq<usize>, j: int, i: int)
    requires
        0 <= j < i,
    ensures
        non_isolated_count(v, c, i) >= open_flag(v, c, j),
        non_isolated_count(v, c, i) >= 0,
    decreases i,
{
    if i - 1 > j {
        lemma_count_ge(v, c, j, i - 1);
    } else {
        lemma_count_nonneg(v, c, i - 1);
    }
}

pub proof fn lemma_count_nonneg(v: Seq<bool>, c: Seq<usize>, i: int)
    ensures
        0 <= non_isolated_count(v, c, i),
        non_isolated_count(v, c, i) <= if i < 0 {
            0
        } else {
            i
        },
    decreases i,
{
    if i > 0 {
        lemma_count_nonneg(v, c, i - 1);
    }
}

/// Origin shift: starts from a snake-shaped spanning tree in which every cell points to its
/// parent, carves it one wall at a time, then keeps moving the root (the origin) to a random
/// neighbour, turning the wall to the neighbour's old parent into the wall to the old origin.
/// Every shift leaves a perfect maze; the generator stops once every cell that the origin
/// has not visited is surrounded by visited cells.
pub struct OriginShift {
    origin: Vec2i,
    parent: Vec<Option<Dir>>,
    init_edges: Vec<(Vec2i, Dir)>,
    init_idx: usize,
    origin_visited: Vec<bool>,
    unvisited_neighbor_count: Vec<usize>,
    unvisited_non_isolated: usize,
    batch_size: usize,
    seed: u32,
    done: bool,
    /// The maze the generator was made for; only its size matters.
    shape: Ghost<Maze>,
}

/// `s` is the integer square root of `n`.
pub open spec fn is_root_of(s: int, n: int) -> bool {
    0 <= s && s * s <= n < (s + 1) * (s + 1)
}

/// The largest `r` with `r * r <= n`.
pub fn isqrt(n: usize) -> (r: usize)
    ensures
        r * r <= n < (r + 1) * (r + 1),
{
    let mut r: usize = 0;
    loop
        invariant
            r * r <= n,
            (r as int) < 0x1_0000_0000int,
        ensures
            r * r <= n < (r + 1) * (r + 1),
        decreases n - r,
    {
        let r1: u128 = (r as u128) + 1;
        assert(r1 * r1 <= 0x1_0000_0000_0000_0000u128) by (nonlinear_arith)
            requires
                r1 <= 0x1_0000_0000u128,
        ;
        if r1 * r1 > n as u128 {
            break;
        }
        assert(r + 1 <= n && (r as int) + 1 < 0x1_0000_0000int) by (nonlinear_arith)
            requires
                (r + 1) * (r + 1) <= n,
                (n as int) <= 0xffff_ffff_ffff_ffffint,
                r >= 0,
        ;
        r = r + 1;
    }
    r
}

impl OriginShift {
    pub closed spec fn origin_cell(&self) -> Vec2i {
        self.origin
    }

    pub closed spec fn parents(&self) -> Seq<Option<Dir>> {
        self.parent@
    }

    pub closed spec fn visited_cells(&self) -> Seq<bool> {
        self.origin_visited@
    }

    /// Everything but the walls: the parents form a tree rooted at the origin, while
    /// carving the origin is the top-left cell and the queued walls are the snake's, the
    /// origin is visited, each unvisited cell's counter is its number of unvisited neighbours,
    /// and `unvisited_non_isolated` counts the unvisited cells whose counter is positive.
    #[verifier::opaque]
    pub closed spec fn tree_ok(&self) -> bool {
        let g = self.shape@;
        let n = g.cell_count();
        &&& n >= 2
        &&& parents_ok(g, self.parent@)
        &&& g.contains(self.origin)
        &&& rooted_at(g, self.parent@, g.index_of(self.origin))
        &&& self.init_edges@.len() == n - 1
        &&& self.init_idx <= n - 1
        &&& self.init_idx < n - 1 ==> {
            &&& self.origin == Vec2i { x: 0, y: 0 }
            &&& forall|k: int|
                0 <= k < n - 1 ==> #[trigger] self.init_edges@[k] == (
                    g.cell_at(k + 1),
                    self.parent@[k + 1]->0,
                )
        }
        &&& self.origin_visited@[g.index_of(self.origin)]
        &&& self.done ==> self.init_idx == n - 1 && self.unvisited_non_isolated == 0
        &&& all_climb(g, self.parent@, g.index_of(self.origin))
    }

    /// Each unvisited cell's counter is its number of unvisited neighbours, and
    /// `unvisited_non_isolated` counts the unvisited cells whose counter is positive.
    #[verifier::opaque]
    pub closed spec fn counters_ok(&self) -> bool {
        let g = self.shape@;
        let n = g.cell_count();
        &&& self.origin_visited@.len() == n
        &&& self.unvisited_neighbor_count@.len() == n
        &&& forall|t: int|
            0 <= t < n && !self.origin_visited@[t] ==> #[trigger] self.unvisited_neighbor_count@[t]
                == unvisited_degree(g, self.origin_visited@, g.cell_at(t))
        &&& self.unvisited_non_isolated == non_isolated_count(
            self.origin_visited@,
            self.unvisited_neighbor_count@,
            n,
        )
    }

    /// Marks `cell` visited: its neighbours each lose an unvisited neighbour, and the count of
    /// unvisited cells that still have one is brought up to date.
    fn mark_visited(&mut self, maze: &Maze, cell: Vec2i)
        requires
            old(self).counters_ok(),
            old(self).shape@.wf(),
            maze.w == old(self).shape@.w,
            maze.h == old(self).shape@.h,
            maze.dims_ok(),
            maze.contains(cell),
            !old(self).origin_visited@[maze.index_of(cell)],
        ensures
            final(self).counters_ok(),
            final(self).origin_visited@ == old(self).origin_visited@.update(maze.index_of(cell), true),
            final(self).origin == old(self).origin,
            final(self).parent == old(self).parent,
            final(self).init_edges == old(self).init_edges,
            final(self).init_idx == old(self).init_idx,
            final(self).done == old(self).done,
            final(self).shape == old(self).shape,
            final(self).seed == old(self).seed,
            final(self).batch_size == old(self).batch_size,
    {
        let ghost g = self.shape@;
        let ghost n = g.cell_count();
        let ci = maze.idx(cell);
        proof {
            reveal(OriginShift::counters_ok);
            maze.lemma_contains_coords_ok(cell);
        }
        let ghost v0 = self.origin_visited@;
        let ghost c0 = self.unvisited_neighbor_count@;
        if self.unvisited_neighbor_count[ci] > 0 {
            proof {
                lemma_count_ge(v0, c0, ci as int, n);
            }
            self.unvisited_non_isolated = self.unvisited_non_isolated - 1;
        }
        self.origin_visited.set(ci, true);
        proof {
            lemma_count_change(v0, c0, self.origin_visited@, c0, ci as int, n);
            assert forall|p: Vec2i|
                #![trigger g.index_of(p)]
                g.contains(p) && !self.origin_visited@[g.index_of(p)] implies self.unvisited_neighbor_count@[g.index_of(p)]
                    == unvisited_degree(g, self.origin_visited@, p) + if reached_from(cell, p, 0) {
                    1int
                } else {
                    0int
                } by {
                let t = g.index_of(p);
                g.lemma_contains_coords_ok(p);
                lemma_cell_at_index(g, t);
                g.lemma_index_of_injective(g.cell_at(t), p);
                lemma_degree_visit(g, v0, cell, p);
            }
        }
        let mut k: usize = 0;
        while k < 4
            invariant
                k <= 4,
                g == self.shape@,
                n == g.cell_count(),
                g.wf(),
                maze.w == g.w,
                maze.h == g.h,
                maze.dims_ok(),
                maze.contains(cell),
                coords_ok(cell),
                self.origin_visited@ == v0.update(g.index_of(cell), true),
                self.origin_visited@.len() == n,
                self.unvisited_neighbor_count@.len() == n,
                self.origin == old(self).origin,
                self.parent == old(self).parent,
                self.init_edges == old(self).init_edges,
                self.init_idx == old(self).init_idx,
                self.done == old(self).done,
                self.shape == old(self).shape,
                self.seed == old(self).seed,
                self.batch_size == old(self).batch_size,
                self.unvisited_non_isolated == non_isolated_count(
                    self.origin_visited@,
                    self.unvisited_neighbor_count@,
                    n,
                ),
                forall|p: Vec2i|
                    #![trigger g.index_of(p)]
                    g.contains(p) && !self.origin_visited@[g.index_of(p)] ==> self.unvisited_neighbor_count@[g.index_of(p)]
                        == unvisited_degree(g, self.origin_visited@, p) + if reached_from(cell, p, k as int) {
                        1int
                    } else {
                        0int
                    },
            decreases 4 - k,
        {
            let d = dir_at(k);
            let nn = maze.neighbor(cell, d);
            if maze.in_bounds(nn) {
                let nn_idx = maze.idx(nn);
                if !self.origin_visited[nn_idx] {
                    proof {
                        maze.lemma_contains_coords_ok(nn);
                        lemma_reached_next(cell, nn, k as int, d);
                        assert(g.index_of(nn) == nn_idx);
                    }
                    let ghost v1 = self.origin_visited@;
                    let ghost c1 = self.unvisited_neighbor_count@;
                    let left = self.unvisited_neighbor_count[nn_idx] - 1;
                    self.unvisited_neighbor_count.set(nn_idx, left);
                    if left == 0 {
                        proof {
                            lemma_count_ge(v1, c1, nn_idx as int, n);
                        }
                        self.unvisited_non_isolated = self.unvisited_non_isolated - 1;
                    }
                    proof {
                        lemma_count_change(v1, c1, v1, self.unvisited_neighbor_count@, nn_idx as int, n);
                    }
                }
            }
            proof {
                assert forall|p: Vec2i|
                    #![trigger g.index_of(p)]
                    g.contains(p) && !self.origin_visited@[g.index_of(p)] implies self.unvisited_neighbor_count@[g.index_of(p)]
                        == unvisited_degree(g, self.origin_visited@, p) + if reached_from(cell, p, k + 1) {
                        1int
                    } else {
                        0int
                    } by {
                    lemma_reached_next(cell, p, k as int, d);
                    if g.contains(nn) && g.index_of(p) == g.index_of(nn) {
                        g.lemma_index_of_injective(p, nn);
                    }
                    if g.contains(nn) {
                        g.lemma_contains_coords_ok(p);
                        g.lemma_contains_coords_ok(nn);
                    }
                }
            }
            k = k + 1;
        }
        proof {
            reveal(OriginShift::counters_ok);
            assert forall|t: int|
                0 <= t < n && !self.origin_visited@[t] implies #[trigger] self.unvisited_neighbor_count@[t]
                    == unvisited_degree(g, self.origin_visited@, g.cell_at(t)) by {
                lemma_cell_at_index(g, t);
            }
        }
    }

    /// Moving on to the next wall of the snake keeps the tree in order.
    proof fn lemma_tree_ok_advance(self, next: Self)
        requires
            self.tree_ok(),
            self.counters_ok(),
            self.init_idx < self.init_edges@.len(),
            next.init_idx == self.init_idx + 1,
            next.origin == self.origin,
            next.parent == self.parent,
            next.init_edges == self.init_edges,
            next.origin_visited == self.origin_visited,
            next.unvisited_neighbor_count == self.unvisited_neighbor_count,
            next.unvisited_non_isolated == self.unvisited_non_isolated,
            next.done == self.done,
            next.shape == self.shape,
        ensures
            next.tree_ok(),
            next.counters_ok(),
    {
        reveal(OriginShift::tree_ok);
        reveal(OriginShift::counters_ok);
    }

    /// The walls of the snake-shaped first tree, in the order they are carved: each cell but
    /// the first with the direction of its parent.
    pub closed spec fn snake_walls(&self) -> Seq<(Vec2i, Dir)> {
        self.init_edges@
    }

    /// How many unvisited cells still have an unvisited neighbour; shifting stops when none do.
    pub closed spec fn open_unvisited(&self) -> int {
        self.unvisited_non_isolated as int
    }

    /// How many walls of the snake have been carved.
    pub closed spec fn snake_progress(&self) -> int {
        self.init_idx as int
    }

    /// The cell whose wall to its parent the snake carves next.
    pub closed spec fn next_snake_cell(&self) -> Vec2i {
        self.init_edges@[self.init_idx as int].0
    }

    /// The direction from `next_snake_cell` to its parent.
    pub closed spec fn next_snake_dir(&self) -> Dir {
        self.init_edges@[self.init_idx as int].1
    }

    pub closed spec fn seed_state(&self) -> u32 {
        self.seed
    }

    /// What one move of the origin does: the origin moves to the neighbour that
    /// `random_neighbor` picks (or stays where no draw fits), the parents turn to point at
    /// it, it is marked visited, and the walls change as `shift_wiring` says.
    pub open spec fn shift_post(self, after: Self, m0: Maze, m1: Maze, updated: Seq<Vec2i>) -> bool {
        &&& after.seed_state() == seed_after_pick(m0, self.origin_cell(), self.seed_state())
        &&& match neighbor_pick(m0, self.origin_cell(), self.seed_state()) {
            None => {
                &&& updated.len() == 0
                &&& m1 == m0
                &&& after.origin_cell() == self.origin_cell()
                &&& after.parents() == self.parents()
                &&& after.visited_cells() == self.visited_cells()
            },
            Some((d, n)) => {
                let ni = m0.index_of(n);
                &&& after.origin_cell() == n
                &&& after.parents() =~= self.parents().update(m0.index_of(self.origin_cell()), Some(d)).update(
                    ni,
                    None,
                )
                &&& after.visited_cells() =~= self.visited_cells().update(ni, true)
                &&& shift_wiring(m0, m1, self.origin_cell(), n, d, self.parents()[ni], updated)
            },
        }
    }

    /// The snake-shaped tree is fully carved and the origin is moving.
    pub closed spec fn shifting(&self) -> bool {
        self.init_idx == self.init_edges@.len()
    }

    pub closed spec fn batch(&self) -> usize {
        self.batch_size
    }

    /// Seeds the generator from the clock.
    pub fn new(maze: &Maze) -> (r: Self)
        requires
            maze.wf(),
            maze.open_edges() == Set::<int>::empty(),
            maze.cell_count() >= 2,
        ensures
            r.inv(maze),
            !r.is_done(),
    {
        Self::new_with_seed(maze, time_seed())
    }

    /// The snake-shaped tree over the grid (nothing carved yet), the origin at the top-left
    /// cell, which is the only visited one, and a batch size of a quarter of the square root
    /// of the number of cells.
    pub fn new_with_seed(maze: &Maze, seed: u32) -> (r: Self)
        requires
            maze.wf(),
            maze.open_edges() == Set::<int>::empty(),
            maze.cell_count() >= 2,
        ensures
            r.inv(maze),
            !r.is_done(),
            !r.shifting(),
            r.origin_cell() == (Vec2i { x: 0, y: 0 }),
            forall|i: int|
                1 <= i < maze.cell_count() ==> #[trigger] r.parents()[i] == Some(
                    snake_dir(maze.w as int, maze.cell_at(i).x as int, maze.cell_at(i).y as int),
                ),
            forall|i: int| 0 <= i < maze.cell_count() ==> #[trigger] r.visited_cells()[i] == (i == 0),
            exists|s: int| #[trigger] is_root_of(s, maze.cell_count()) && r.batch() == s / 4,
            r.seed_state() == seed,
            r.open_unvisited() == open_unvisited_count(*maze, r.visited_cells(), maze.cell_count()),
            r.parents()[0] is None,
            r.snake_progress() == 0,
            r.snake_walls().len() == maze.cell_count() - 1,
            forall|k: int|
                0 <= k < maze.cell_count() - 1 ==> #[trigger] r.snake_walls()[k] == (
                    maze.cell_at(k + 1),
                    snake_dir(maze.w as int, maze.cell_at(k + 1).x as int, maze.cell_at(k + 1).y as int),
                ),
    {
        let w = maze.w;
        let h = maze.h;
        let n = w * h;
        assert(w >= 1 && h >= 1) by (nonlinear_arith)
            requires
                w * h >= 2,
                h >= 0,
                w >= 0,
        ;
        let mut parent: Vec<Option<Dir>> = vec![None; n];
        let mut init_edges: Vec<(Vec2i, Dir)> = Vec::new();
        let mut i: usize = 1;
        while i < n
            invariant
                1 <= i <= n,
                n == maze.cell_count(),
                w == maze.w,
                h == maze.h,
                w >= 1,
                maze.wf(),
                parent@.len() == n,
                init_edges@.len() == i - 1,
                parent@[0] is None,
                forall|t: int| i <= t < n ==> #[trigger] parent@[t] is None,
                forall|t: int|
                    1 <= t < i ==> #[trigger] parent@[t] == Some(
                        snake_dir(w as int, maze.cell_at(t).x as int, maze.cell_at(t).y as int),
                    ),
                forall|k: int|
                    0 <= k < i - 1 ==> #[trigger] init_edges@[k] == (
                        maze.cell_at(k + 1),
                        snake_dir(w as int, maze.cell_at(k + 1).x as int, maze.cell_at(k + 1).y as int),
                    ),
            decreases n - i,
        {
            proof {
                lemma_cell_at_index(*maze, i as int);
                crate::types::lemma_index_decode(w as int, h as int, i as int);
            }
            let x = i % w;
            let y = i / w;
            let p = Vec2i { x: x as i32, y: y as i32 };
            assert(p == maze.cell_at(i as int));
            assert(p.x as int == x as int && p.y as int == y as int);
            let dir = if y % 2 == 0 && x == 0 {
                Dir::N
            } else if y % 2 == 1 && x == w - 1 {
                Dir::N
            } else if y % 2 == 0 {
                Dir::W
            } else {
                Dir::E
            };
            assert(dir == snake_dir(w as int, p.x as int, p.y as int));
            parent.set(i, Some(dir));
            init_edges.push((p, dir));
            i = i + 1;
        }
        let start = Vec2i { x: 0, y: 0 };
        proof {
            maze.lemma_origin_index();
            maze.lemma_contains_coords_ok(start);
        }
        // Every cell starts unvisited, so its counter is the number of its neighbours.
        let mut unvisited_neighbor_count: Vec<usize> = Vec::new();
        let ghost none_visited = Seq::new(n as nat, |t: int| false);
        let mut i: usize = 0;
        while i < n
            invariant
                i <= n,
                n == maze.cell_count(),
                w == maze.w,
                w >= 1,
                maze.wf(),
                none_visited == Seq::new(n as nat, |t: int| false),
                unvisited_neighbor_count@.len() == i,
                forall|t: int|
                    0 <= t < i ==> #[trigger] unvisited_neighbor_count@[t] == unvisited_degree(
                        *maze,
                        none_visited,
                        maze.cell_at(t),
                    ),
            decreases n - i,
        {
            proof {
                lemma_cell_at_index(*maze, i as int);
            }
            let p = Vec2i { x: (i % w) as i32, y: (i / w) as i32 };
            let mut c: usize = 0;
            let mut k: usize = 0;
            while k < 4
                invariant
                    k <= 4,
                    c <= k,
                    maze.wf(),
                    maze.contains(p),
                    coords_ok(p),
                    none_visited == Seq::new(n as nat, |t: int| false),
                    n == maze.cell_count(),
                    c == (if k > 0 { unvisited_toward(*maze, none_visited, p, Dir::N) } else { 0 })
                        + (if k > 1 { unvisited_toward(*maze, none_visited, p, Dir::E) } else { 0 })
                        + (if k > 2 { unvisited_toward(*maze, none_visited, p, Dir::S) } else { 0 })
                        + (if k > 3 { unvisited_toward(*maze, none_visited, p, Dir::W) } else { 0 }),
                decreases 4 - k,
            {
                let d = dir_at(k);
                let q = maze.neighbor(p, d);
                if maze.in_bounds(q) {
                    proof {
                        maze.lemma_contains_coords_ok(q);
                    }
                    c = c + 1;
                }
                k = k + 1;
            }
            unvisited_neighbor_count.push(c);
            i = i + 1;
        }
        let mut origin_visited = vec![false; n];
        assert(origin_visited@ =~= none_visited);
        origin_visited.set(0, true);
        // Visiting the start takes one unvisited neighbour from each of its neighbours.
        proof {
            assert forall|p: Vec2i|
                #![trigger maze.index_of(p)]
                maze.contains(p) && !origin_visited@[maze.index_of(p)] implies unvisited_neighbor_count@[maze.index_of(p)]
                    == unvisited_degree(*maze, origin_visited@, p) + if reached_from(start, p, 0) {
                    1int
                } else {
                    0int
                } by {
                let t = maze.index_of(p);
                maze.lemma_contains_coords_ok(p);
                lemma_cell_at_index(*maze, t);
                maze.lemma_index_of_injective(maze.cell_at(t), p);
                lemma_degree_visit(*maze, none_visited, start, p);
            }
        }
        let mut k: usize = 0;
        while k < 4
            invariant
                k <= 4,
                maze.wf(),
                n == maze.cell_count(),
                coords_ok(start),
                maze.contains(start),
                maze.index_of(start) == 0,
                origin_visited@ == none_visited.update(0, true),
                none_visited == Seq::new(n as nat, |t: int| false),
                unvisited_neighbor_count@.len() == n,
                forall|p: Vec2i|
                    #![trigger maze.index_of(p)]
                    maze.contains(p) && !origin_visited@[maze.index_of(p)] ==> unvisited_neighbor_count@[maze.index_of(p)]
                        == unvisited_degree(*maze, origin_visited@, p) + if reached_from(start, p, k as int) {
                        1int
                    } else {
                        0int
                    },
            decreases 4 - k,
        {
            let d = dir_at(k);
            let nb = maze.neighbor(start, d);
            if maze.in_bounds(nb) {
                let ni = maze.idx(nb);
                proof {
                    maze.lemma_contains_coords_ok(nb);
                    lemma_reached_next(start, nb, k as int, d);
                    assert(!origin_visited@[ni as int]) by {
                        if ni == 0 {
                            maze.lemma_index_of_injective(nb, start);
                        }
                    }
                }
                unvisited_neighbor_count.set(ni, unvisited_neighbor_count[ni] - 1);
            }
            proof {
                assert forall|p: Vec2i|
                    #![trigger maze.index_of(p)]
                    maze.contains(p) && !origin_visited@[maze.index_of(p)] implies unvisited_neighbor_count@[maze.index_of(p)]
                        == unvisited_degree(*maze, origin_visited@, p) + if reached_from(start, p, k + 1) {
                        1int
                    } else {
                        0int
                    } by {
                    lemma_reached_next(start, p, k as int, d);
                    if maze.contains(nb) && maze.index_of(p) == maze.index_of(nb) {
                        maze.lemma_index_of_injective(p, nb);
                    }
                    if maze.contains(nb) {
                        maze.lemma_contains_coords_ok(p);
                        maze.lemma_contains_coords_ok(nb);
                    }
                }
            }
            k = k + 1;
        }
        proof {
            assert forall|p: Vec2i|
                #![trigger maze.index_of(p)]
                maze.contains(p) && !origin_visited@[maze.index_of(p)] implies unvisited_neighbor_count@[maze.index_of(p)]
                    == unvisited_degree(*maze, origin_visited@, p) by {}
        }
        let mut unvisited_non_isolated: usize = 0;
        let mut i: usize = 0;
        while i < n
            invariant
                i <= n,
                origin_visited@.len() == n,
                unvisited_neighbor_count@.len() == n,
                unvisited_non_isolated == non_isolated_count(origin_visited@, unvisited_neighbor_count@, i as int),
                unvisited_non_isolated <= i,
            decreases n - i,
        {
            if !origin_visited[i] && unvisited_neighbor_count[i] > 0 {
                unvisited_non_isolated = unvisited_non_isolated + 1;
            }
            i = i + 1;
        }
        let root = isqrt(n);
        let r = Self {
            origin: start,
            parent,
            init_edges,
            init_idx: 0,
            origin_visited,
            unvisited_neighbor_count,
            unvisited_non_isolated,
            batch_size: root / 4,
            seed,
            done: false,
            shape: Ghost(*maze),
        };
        proof {
            reveal(OriginShift::tree_ok);
            reveal(OriginShift::counters_ok);
            lemma_snake_parents_ok(*maze, r.parent@);
            lemma_snake_all_climb(*maze, r.parent@);
            assert(tree_keys(*maze, r.parent@, 1) =~= Set::<int>::empty());
            assert forall|t: int| 0 <= t < n implies (#[trigger] r.parent@[t] is None <==> t == 0) by {}
            assert forall|t: int| 0 <= t < n && !r.origin_visited@[t] implies r.unvisited_neighbor_count@[t]
                == unvisited_degree(*maze, r.origin_visited@, maze.cell_at(t)) by {
                lemma_cell_at_index(*maze, t);
            }
            assert(is_root_of(root as int, n as int));
            lemma_counters_count(*maze, r.origin_visited@, r.unvisited_neighbor_count@, n as int);
        }
        r
    }

    /// How many steps the animation should run at once for this maze.
    pub fn step_hint(&self) -> (n: usize)
        ensures
            n == self.batch(),
    {
        self.batch_size
    }
}


impl BuildStrategy for OriginShift {
    /// The parents form a tree rooted at the origin whose walls to the first `init_idx + 1`
    /// cells are exactly the open passages (all of them once shifting); while carving, the
    /// origin is the top-left cell and the queued walls are the snake's; the origin is
    /// visited; each unvisited cell's counter is its number of unvisited neighbours, and
    /// `unvisited_non_isolated` counts the unvisited cells whose counter is positive.
    closed spec fn inv(&self, maze: &Maze) -> bool {
        let g = self.shape@;
        let n = g.cell_count();
        &&& maze.wf()
        &&& g.wf()
        &&& maze.w == g.w
        &&& maze.h == g.h
        &&& maze.open_edges() == tree_keys(g, self.parent@, self.init_idx + 1)
        &&& self.tree_ok()
        &&& self.counters_ok()
    }

    closed spec fn is_done(&self) -> bool {
        self.done
    }

    fn name(&self) -> (s: &'static str)
        ensures
            s@ == "Origin Shift"@,
    {
        "Origin Shift"
    }

    fn done(&self) -> (b: bool) {
        self.done
    }

    /// While carving, opens the next wall of the snake and returns its two cells. Then moves
    /// the origin to a random neighbour: unless the neighbour already hangs from the origin,
    /// the wall to the neighbour's parent is built and the wall between the two is carved,
    /// and the neighbour's old parent, the old origin and the neighbour are returned.
    fn step(&mut self, maze: &mut Maze) -> (updated: Vec<Vec2i>)
        ensures
            old(self).is_done() ==> updated@.len() == 0 && final(maze).grid@ == old(maze).grid@,
            !old(self).is_done() && old(self).shifting() ==> final(self).shifting()
                && final(maze).open_edges().len() == final(maze).cell_count() - 1
                && old(self).shift_post(*final(self), *old(maze), *final(maze), updated@)
                && (final(maze).open_edges() == old(maze).open_edges() || exists|closed: int, opened: int|
                old(maze).open_edges().contains(closed) && !old(maze).open_edges().contains(opened)
                    && final(maze).open_edges() == old(maze).open_edges().remove(closed).insert(opened)),
            !old(self).is_done() && !old(self).shifting() ==> updated@ == seq![
                old(self).next_snake_cell(),
                step_toward(old(self).next_snake_cell(), old(self).next_snake_dir()),
            ] && final(self).seed_state() == old(self).seed_state()
                && final(self).snake_progress() == old(self).snake_progress() + 1
                && final(maze).open_edges() === old(maze).open_edges().insert(
                old(maze).edge_key(old(self).next_snake_cell(), old(self).next_snake_dir()),
            ),
    {
        if self.done {
            return Vec::new();
        }
        let n = self.init_edges.len();
        let ghost g = self.shape@;
        assert(self.init_idx <= n && n == g.cell_count() - 1) by {
            reveal(OriginShift::tree_ok);
        }
        if self.init_idx < n {
            let (cell, dir) = self.carve_next_snake_wall(maze);
            return vec![cell, maze.neighbor(cell, dir)];
        }
        assert(self.shifting());
        let ghost before = *self;
        let ghost m_before = *maze;
        let updated = self.shift_origin(maze);
        proof {
            self.lemma_shifting_is_perfect(maze);
            before.lemma_shift_moves_one_wall(self, &m_before, maze, updated@);
        }
        updated
    }
}


impl OriginShift {
    /// Carves the next wall of the snake (see `step`).
    fn carve_next_snake_wall(&mut self, maze: &mut Maze) -> (carved: (Vec2i, Dir))
        requires
            old(self).inv(old(maze)),
            !old(self).shifting(),
            !old(self).is_done(),
        ensures
            outer_walls_same(*old(maze), *final(maze)),
            final(self).inv(final(maze)),
            final(maze).w == old(maze).w,
            final(maze).h == old(maze).h,
            carved == (old(self).next_snake_cell(), old(self).next_snake_dir()),
            coords_ok(carved.0),
            final(self).seed_state() == old(self).seed_state(),
            final(self).snake_progress() == old(self).snake_progress() + 1,
            final(maze).open_edges() === old(maze).open_edges().insert(
                old(maze).edge_key(old(self).next_snake_cell(), old(self).next_snake_dir()),
            ),
    {
        let ghost g = self.shape@;
        let n = self.init_edges.len();
        assert(self.init_idx < n && n == g.cell_count() - 1) by {
            reveal(OriginShift::tree_ok);
        }
        let (cell, dir) = self.init_edges[self.init_idx];
        let ghost k = self.init_idx as int;
        let ghost before = *self;
        assert(self.parent@[k + 1] is Some && cell == g.cell_at(k + 1) && dir == self.parent@[k
            + 1]->0 && g.contains(cell) && g.contains(step_toward(cell, dir))) by {
            reveal(OriginShift::tree_ok);
            lemma_cell_at_index(g, k + 1);
        }
        proof {
            g.lemma_contains_coords_ok(cell);
        }
        self.init_idx = self.init_idx + 1;
        let ghost m0 = *maze;
        open_wall(maze, cell, dir);
        proof {
            lemma_carve_snake(g, m0, *maze, self.parent@, k, cell, dir);
            before.lemma_tree_ok_advance(*self);
        }
        assert(before.next_snake_cell() == cell && before.next_snake_dir() == dir);
        assert(maze.open_edges() === m0.open_edges().insert(m0.edge_key(cell, dir)));
        assert(old(self).next_snake_cell() == cell && old(self).next_snake_dir() == dir);
        assert(maze.open_edges() === old(maze).open_edges().insert(
            old(maze).edge_key(old(self).next_snake_cell(), old(self).next_snake_dir()),
        ));
        assert(self.inv(maze));
        (cell, dir)
    }

    /// Moves the origin to a random neighbour (see `step`).
    fn shift_origin(&mut self, maze: &mut Maze) -> (updated: Vec<Vec2i>)
        requires
            old(self).inv(old(maze)),
            old(self).shifting(),
            !old(self).is_done(),
        ensures
            outer_walls_same(*old(maze), *final(maze)),
            final(self).inv(final(maze)),
            final(self).shifting(),
            final(maze).w == old(maze).w,
            final(maze).h == old(maze).h,
            old(self).shift_post(*final(self), *old(maze), *final(maze), updated@),
    {
        let ghost g = self.shape@;
        let n = self.init_edges.len();
        assert(n == g.cell_count() - 1) by {
            reveal(OriginShift::tree_ok);
        }
        let ghost before = *self;
        let ghost o = g.index_of(self.origin);
        assert(g.contains(self.origin) && rooted_at(g, self.parent@, o) && parents_ok(g, self.parent@)
            && self.origin_visited@[o] && n == g.cell_count() - 1 && self.init_idx == n) by {
            reveal(OriginShift::tree_ok);
        }
        assert(self.origin_visited@.len() == g.cell_count()) by {
            reveal(OriginShift::counters_ok);
        }
        proof {
            g.lemma_contains_coords_ok(self.origin);
            lemma_cell_at_index(g, o);
            g.lemma_index_of_injective(g.cell_at(o), self.origin);
        }
        let Some((dir_to_neighbor, neighbor)) = random_neighbor(maze, self.origin, &mut self.seed) else {
            assert(self.tree_ok() && self.counters_ok()) by {
                reveal(OriginShift::tree_ok);
                reveal(OriginShift::counters_ok);
            }
            return Vec::new();
        };
        let dir_to_origin = Maze::opposite(dir_to_neighbor);
        let oi = maze.idx(self.origin);
        let ni = maze.idx(neighbor);
        proof {
            lemma_shift_tree(g, self.parent@, o, dir_to_neighbor);
            g.lemma_contains_coords_ok(neighbor);
        }
        let ghost par0 = self.parent@;
        let ghost m0 = *maze;
        let points_back = match self.parent[ni] {
            Some(d) => d == dir_to_origin,
            None => false,
        };
        proof {
            if let Some(pd) = par0[ni as int] {
                assert(g.contains(step_toward(neighbor, pd))) by {
                    reveal(OriginShift::tree_ok);
                }
            }
            assert(step_toward(neighbor, dir_to_origin) == self.origin);
        }
        let updated = rewire_for_shift(maze, self.origin, neighbor, dir_to_neighbor, self.parent[ni]);
        assert(outer_walls_same(*old(maze), *maze));
        proof {
            if !points_back {
                assert(maze.open_edges() === m0.open_edges().remove(m0.edge_key(neighbor, par0[ni as int]->0)).insert(
                    m0.edge_key(neighbor, dir_to_origin),
                ));
            } else {
                assert(maze.open_edges() === m0.open_edges());
            }
        }
        self.parent.set(oi, Some(dir_to_neighbor));
        self.parent.set(ni, None);
        self.origin = neighbor;
        proof {
            assert(self.parent@ == par0.update(o, Some(dir_to_neighbor)).update(ni as int, None));
            assert(maze.open_edges() === tree_keys(g, self.parent@, g.cell_count()));
            assert(all_climb(g, par0, o)) by {
                reveal(OriginShift::tree_ok);
            }
            lemma_all_climb_shift(g, par0, o, dir_to_neighbor);
        }
        let ghost mid = *self;
        assert(mid.counters_ok()) by {
            reveal(OriginShift::counters_ok);
        }
        if !self.origin_visited[ni] {
            self.mark_visited(maze, neighbor);
            if self.unvisited_non_isolated == 0 {
                self.done = true;
            }
        }
        assert(self.counters_ok()) by {
            reveal(OriginShift::counters_ok);
        }
        assert(self.tree_ok()) by {
            reveal(OriginShift::tree_ok);
            assert(self.origin_visited@[g.index_of(self.origin)]);
        }
        assert(self.origin_visited@ == mid.origin_visited@.update(ni as int, true));
        updated
    }
}

/// How the walls change when the origin `o` moves to its neighbour `n` in direction `d`,
/// `pn` being the old parent direction of `n`: nothing changes if `n` already pointed back
/// to `o`; otherwise the passage from `n` to its old parent closes, the one from `n` to `o`
/// opens, and the cells around both are redrawn.
pub open spec fn shift_wiring(m0: Maze, m1: Maze, o: Vec2i, n: Vec2i, d: Dir, pn: Option<Dir>, updated: Seq<Vec2i>) -> bool {
    if pn == Some(opposite_dir(d)) {
        updated.len() == 0 && m1 == m0
    } else {
        match pn {
            Some(pd) => {
                &&& updated =~= seq![step_toward(n, pd), o, n]
                &&& m1.open_edges() =~= m0.open_edges().remove(m0.edge_key(n, pd)).insert(
                    m0.edge_key(n, opposite_dir(d)),
                )
            },
            None => {
                &&& updated =~= seq![o, n]
                &&& m1.open_edges() =~= m0.open_edges().insert(m0.edge_key(n, opposite_dir(d)))
            },
        }
    }
}

/// Rewires the walls for a move of the origin `o` to its neighbour `n` in direction `d`,
/// where `pn` is the old parent direction of `n`, and returns the cells to redraw.
fn rewire_for_shift(maze: &mut Maze, o: Vec2i, n: Vec2i, d: Dir, pn: Option<Dir>) -> (updated: Vec<Vec2i>)
    requires
        old(maze).wf(),
        old(maze).contains(o),
        old(maze).contains(n),
        step_toward(n, opposite_dir(d)) == o,
        pn matches Some(pd) ==> old(maze).contains(step_toward(n, pd)),
    ensures
        outer_walls_same(*old(maze), *final(maze)),
        final(maze).wf(),
        final(maze).w == old(maze).w,
        final(maze).h == old(maze).h,
        shift_wiring(*old(maze), *final(maze), o, n, d, pn, updated@),
{
    let toward_o = Maze::opposite(d);
    let points_back = match pn {
        Some(pd) => pd == toward_o,
        None => false,
    };
    let mut updated: Vec<Vec2i> = Vec::new();
    if points_back {
        return updated;
    }
    proof {
        maze.lemma_contains_coords_ok(n);
    }
    if let Some(pd) = pn {
        let old_parent = maze.neighbor(n, pd);
        maze.build(n, pd);
        updated.push(old_parent);
    }
    maze.carve(n, toward_o);
    updated.push(o);
    updated.push(n);
    updated
}

/// Opens the wall of `a` on side `d`; what the tree needs to know of it is how the set of
/// open passages changes.
fn open_wall(maze: &mut Maze, a: Vec2i, d: Dir)
    requires
        old(maze).wf(),
        old(maze).contains(a),
        old(maze).contains(step_toward(a, d)),
    ensures
        outer_walls_same(*old(maze), *final(maze)),
        final(maze).wf(),
        final(maze).w == old(maze).w,
        final(maze).h == old(maze).h,
        final(maze).open_edges() === old(maze).open_edges().insert(old(maze).edge_key(a, d)),
{
    maze.carve(a, d);
}

/// Closes the wall of `a` on side `d`; what the tree needs to know of it is how the set of
/// open passages changes.
fn close_wall(maze: &mut Maze, a: Vec2i, d: Dir)
    requires
        old(maze).wf(),
        old(maze).contains(a),
        old(maze).contains(step_toward(a, d)),
    ensures
        outer_walls_same(*old(maze), *final(maze)),
        final(maze).wf(),
        final(maze).w == old(maze).w,
        final(maze).h == old(maze).h,
        final(maze).open_edges() === old(maze).open_edges().remove(old(maze).edge_key(a, d)),
{
    maze.build(a, d);
}

impl OriginShift {
    /// Once the snake is carved, every state is a perfect maze: exactly `w * h - 1`
    /// passages, and a walk joins any two cells.
    pub proof fn lemma_shifting_is_perfect(&self, maze: &Maze)
        requires
            self.inv(maze),
            self.shifting(),
        ensures
            maze.open_edges().len() == maze.cell_count() - 1,
            maze.outer_walls_closed() ==> open_flag_count(*maze) == 2 * (maze.cell_count() - 1),
            forall|p: Vec2i, q: Vec2i|
                maze.contains(p) && maze.contains(q) ==> #[trigger] joined(*maze, p, q),
    {
        let g = self.shape@;
        let o = g.index_of(self.origin);
        assert(parents_ok(g, self.parent@) && rooted_at(g, self.parent@, o) && 0 <= o < g.cell_count()
            && self.init_idx + 1 == g.cell_count() && all_climb(g, self.parent@, o)) by {
            reveal(OriginShift::tree_ok);
            g.lemma_contains_coords_ok(self.origin);
        }
        assert(maze.open_edges() === tree_keys(g, self.parent@, g.cell_count()));
        lemma_tree_is_perfect(g, *maze, self.parent@, o);
        lemma_all_climb_joined(g, *maze, self.parent@, o);
        if maze.outer_walls_closed() {
            lemma_open_flag_count(*maze);
        }
    }

    /// A shift moves at most one wall: either no wall changes (the origin moves to a
    /// neighbour whose parent it was), or exactly one open wall is built and exactly one
    /// closed wall is carved.
    pub proof fn lemma_shift_moves_one_wall(&self, after: &Self, m0: &Maze, m1: &Maze, updated: Seq<Vec2i>)
        requires
            self.inv(m0),
            self.shifting(),
            after.inv(m1),
            after.shifting(),
            m1.w == m0.w,
            m1.h == m0.h,
            self.shift_post(*after, *m0, *m1, updated),
        ensures
            m1.open_edges() == m0.open_edges() || exists|closed: int, opened: int|
                m0.open_edges().contains(closed) && !m0.open_edges().contains(opened)
                    && m1.open_edges() == m0.open_edges().remove(closed).insert(opened),
    {
        self.lemma_shifting_is_perfect(m0);
        after.lemma_shifting_is_perfect(m1);
        m0.lemma_open_edges_finite();
        m1.lemma_open_edges_finite();
        let e0 = m0.open_edges();
        let e1 = m1.open_edges();
        match neighbor_pick(*m0, self.origin_cell(), self.seed_state()) {
            None => {},
            Some((d, n)) => {
                let pn = self.parents()[m0.index_of(n)];
                if pn == Some(opposite_dir(d)) {
                } else {
                    match pn {
                        Some(pd) => {
                            let a = m0.edge_key(n, pd);
                            let b = m0.edge_key(n, opposite_dir(d));
                            assert(e1 == e0.remove(a).insert(b));
                            if !e0.contains(a) {
                                assert(e0.remove(a) =~= e0);
                                if !e0.contains(b) {
                                    assert(e1.len() == e0.len() + 1);
                                }
                                assert(e1 =~= e0);
                            } else if a == b {
                                assert(e1 =~= e0);
                            } else {
                                assert(e0.remove(a).len() == e0.len() - 1);
                                if e0.contains(b) {
                                    assert(e0.remove(a).contains(b));
                                    assert(e1 =~= e0.remove(a));
                                    assert(false);
                                }
                                assert(e0.contains(a) && !e0.contains(b) && e1 == e0.remove(a).insert(b));
                            }
                        },
                        None => {
                            let b = m0.edge_key(n, opposite_dir(d));
                            assert(e1 == e0.insert(b));
                            if !e0.contains(b) {
                                assert(e1.len() == e0.len() + 1);
                            }
                            assert(e1 =~= e0);
                        },
                    }
                }
            },
        }
    }

    /// Once the snake is carved, every step leaves a perfect maze with its boundary closed:
    /// `w * h - 1` passages and a walk between any two cells; and the step either changes
    /// no wall, or builds exactly one wall that was open and carves exactly one that was
    /// closed.
    pub proof fn lemma_shift_step_keeps_perfect(
        &self,
        after: &Self,
        m0: &Maze,
        m1: &Maze,
        updated: Seq<Vec2i>,
    )
        requires
            self.inv(m0),
            self.shifting(),
            !self.is_done(),
            m0.outer_walls_closed(),
            after.inv(m1),
            after.shifting(),
            m1.w == m0.w,
            m1.h == m0.h,
            outer_walls_same(*m0, *m1),
            self.shift_post(*after, *m0, *m1, updated),
        ensures
            m1.outer_walls_closed(),
            m1.open_edges().len() == m1.cell_count() - 1,
            open_flag_count(*m1) == 2 * (m1.cell_count() - 1),
            forall|p: Vec2i, q: Vec2i|
                m1.contains(p) && m1.contains(q) ==> #[trigger] joined(*m1, p, q),
            m1.open_edges() == m0.open_edges() || exists|closed: int, opened: int|
                m0.open_edges().contains(closed) && !m0.open_edges().contains(opened)
                    && m1.open_edges() == m0.open_edges().remove(closed).insert(opened),
    {
        crate::wall_count::lemma_outer_walls_stay_closed(*m0, *m1);
        after.lemma_shifting_is_perfect(m1);
        self.lemma_shift_moves_one_wall(after, m0, m1, updated);
    }

    /// When the generator stops the maze is perfect, and every cell the origin never
    /// visited is surrounded by visited cells.
    pub proof fn lemma_done_is_perfect(&self, maze: &Maze)
        requires
            self.inv(maze),
            self.is_done(),
        ensures
            self.shifting(),
            maze.open_edges().len() == maze.cell_count() - 1,
            maze.outer_walls_closed() ==> open_flag_count(*maze) == 2 * (maze.cell_count() - 1),
            forall|p: Vec2i, q: Vec2i|
                maze.contains(p) && maze.contains(q) ==> #[trigger] joined(*maze, p, q),
            forall|p: Vec2i, d: Dir|
                maze.contains(p) && !self.visited_cells()[maze.index_of(p)] && maze.contains(
                    #[trigger] step_toward(p, d),
                ) ==> self.visited_cells()[maze.index_of(step_toward(p, d))],
    {
        reveal(OriginShift::tree_ok);
        reveal(OriginShift::counters_ok);
        self.lemma_shifting_is_perfect(maze);
        let g = self.shape@;
        let n = g.cell_count();
        assert forall|p: Vec2i, d: Dir|
            maze.contains(p) && !self.visited_cells()[maze.index_of(p)] && maze.contains(
                #[trigger] step_toward(p, d),
            ) implies self.visited_cells()[maze.index_of(step_toward(p, d))] by {
            let t = g.index_of(p);
            g.lemma_contains_coords_ok(p);
            lemma_cell_at_index(g, t);
            g.lemma_index_of_injective(g.cell_at(t), p);
            lemma_count_ge(self.origin_visited@, self.unvisited_neighbor_count@, t, n);
            assert(self.unvisited_neighbor_count@[t] == unvisited_degree(g, self.origin_visited@, p));
            assert(unvisited_toward(g, self.origin_visited@, p, d) == 0);
        }
        if maze.outer_walls_closed() {
            lemma_open_flag_count(*maze);
        }
    }
}

/// Moving the root from cell `o` to its neighbour `q` in direction `d`: `o` now hangs from
/// `q`, `q` loses its parent, and the walls to the parents lose the one from `q` to its old
/// parent and gain the one between `o` and `q`. The tree stays a tree rooted at `q`.
pub proof fn lemma_shift_tree(g: Maze, par: Seq<Option<Dir>>, o: int, d: Dir)
    requires
        g.wf(),
        parents_ok(g, par),
        rooted_at(g, par, o),
        0 <= o < g.cell_count(),
        g.contains(step_toward(g.cell_at(o), d)),
    ensures
        ({
            let p = g.cell_at(o);
            let q = step_toward(p, d);
            let j = g.index_of(q);
            let par2 = par.update(o, Some(d)).update(j, None);
            &&& 0 <= j < g.cell_count()
            &&& j != o
            &&& par[j] is Some
            &&& g.contains(step_toward(q, par[j]->0))
            &&& g.edge_key(q, opposite_dir(d)) == g.edge_key(p, d)
            &&& parents_ok(g, par2)
            &&& rooted_at(g, par2, j)
            &&& tree_keys(g, par2, g.cell_count()) == tree_keys(g, par, g.cell_count()).remove(
                g.edge_key(q, par[j]->0),
            ).insert(g.edge_key(p, d))
            &&& par[j] == Some(opposite_dir(d)) ==> tree_keys(g, par2, g.cell_count()) == tree_keys(
                g,
                par,
                g.cell_count(),
            )
        }),
{
    let n = g.cell_count();
    let p = g.cell_at(o);
    let q = step_toward(p, d);
    lemma_cell_at_index(g, o);
    g.lemma_contains_coords_ok(q);
    let j = g.index_of(q);
    lemma_cell_at_index(g, j);
    g.lemma_index_of_injective(g.cell_at(j), q);
    if j == o {
        g.lemma_index_of_injective(p, q);
    }
    assert(par[j] is Some);
    lemma_edge_key_back(g, p, d);
    let par2 = par.update(o, Some(d)).update(j, None);
    assert(rooted_at(g, par2, j));
    assert forall|i: int|
        #![trigger par2[i]]
        0 <= i < n && par2[i] is Some implies g.contains(step_toward(g.cell_at(i), par2[i]->0)) && ({
            let t = g.index_of(step_toward(g.cell_at(i), par2[i]->0));
            !(par2[t] is Some && step_toward(g.cell_at(t), par2[t]->0) == g.cell_at(i))
        }) by {
        if i != o {
            assert(par2[i] == par[i]);
            assert(par[i] is Some);
            let c = step_toward(g.cell_at(i), par[i]->0);
            assert(g.contains(c));
            let t = g.index_of(c);
            lemma_cell_at_index(g, i);
            g.lemma_contains_coords_ok(c);
            lemma_cell_at_index(g, t);
            if t == o {
                if g.cell_at(j) == g.cell_at(i) {
                    assert(false);
                }
            }
        }
    }
    let k_old = g.edge_key(q, par[j]->0);
    let ko = g.edge_key(p, d);
    assert(parent_key(g, par, j) == k_old);
    let a = tree_keys(g, par2, n);
    let b = tree_keys(g, par, n);
    assert forall|x: int| a.contains(x) implies b.remove(k_old).insert(ko).contains(x) by {
        let i = choose|i: int| 0 <= i < n && par2[i] is Some && x == #[trigger] parent_key(g, par2, i);
        if i != o {
            assert(par2[i] == par[i]);
            assert(parent_key(g, par2, i) == parent_key(g, par, i));
            assert(b.contains(x));
            lemma_parent_keys_distinct(g, par, i, j);
        }
    }
    assert forall|x: int| b.remove(k_old).insert(ko).contains(x) implies a.contains(x) by {
        if x == ko {
            assert(parent_key(g, par2, o) == ko);
        } else {
            let i = choose|i: int| 0 <= i < n && par[i] is Some && x == #[trigger] parent_key(g, par, i);
            assert(i != j);
            assert(par2[i] == par[i]);
            assert(parent_key(g, par2, i) == parent_key(g, par, i));
        }
    }
    assert(a =~= b.remove(k_old).insert(ko));
    if par[j] == Some(opposite_dir(d)) {
        assert(b.contains(k_old));
        assert(b.remove(k_old).insert(ko) =~= b);
    }
}

/// Carving the wall from cell `k + 1` to its parent extends the carved part of the tree by
/// that cell.
pub proof fn lemma_carve_snake(
    g: Maze,
    m0: Maze,
    m1: Maze,
    par: Seq<Option<Dir>>,
    k: int,
    cell: Vec2i,
    dir: Dir,
)
    requires
        m0.w == g.w,
        0 <= k,
        par[k + 1] == Some(dir),
        cell == g.cell_at(k + 1),
        m0.open_edges() === tree_keys(g, par, k + 1),
        m1.open_edges() === m0.open_edges().insert(m0.edge_key(cell, dir)),
    ensures
        m1.open_edges() === tree_keys(g, par, k + 2),
{
    lemma_tree_keys_extend(g, par, k + 1);
}

/// Taking one more cell into account adds its wall to its parent, if it has one.
pub proof fn lemma_tree_keys_extend(m: Maze, par: Seq<Option<Dir>>, i: int)
    requires
        0 <= i,
    ensures
        par[i] is Some ==> tree_keys(m, par, i + 1) == tree_keys(m, par, i).insert(parent_key(m, par, i)),
        par[i] is None ==> tree_keys(m, par, i + 1) == tree_keys(m, par, i),
{
    let a = tree_keys(m, par, i + 1);
    let b = tree_keys(m, par, i);
    assert forall|x: int| a.contains(x) implies b.contains(x) || (par[i] is Some && x == parent_key(m, par, i)) by {
        let t = choose|t: int| 0 <= t < i + 1 && par[t] is Some && x == #[trigger] parent_key(m, par, t);
        if t < i {
            assert(b.contains(x));
        }
    }
    assert forall|x: int| b.contains(x) implies a.contains(x) by {
        let t = choose|t: int| 0 <= t < i && par[t] is Some && x == #[trigger] parent_key(m, par, t);
        assert(0 <= t < i + 1);
    }
    if par[i] is Some {
        assert(a.contains(parent_key(m, par, i)));
        assert(a =~= b.insert(parent_key(m, par, i)));
    } else {
        assert(a =~= b);
    }
}

/// The snake-shaped tree is a valid parent array.
pub proof fn lemma_snake_parents_ok(m: Maze, par: Seq<Option<Dir>>)
    requires
        m.wf(),
        m.cell_count() >= 1,
        par.len() == m.cell_count(),
        par[0] is None,
        forall|t: int|
            1 <= t < m.cell_count() ==> #[trigger] par[t] == Some(
                snake_dir(m.w as int, m.cell_at(t).x as int, m.cell_at(t).y as int),
            ),
    ensures
        parents_ok(m, par),
{
    assert forall|i: int| 0 <= i < m.cell_count() && #[trigger] par[i] is Some implies m.contains(
        step_toward(m.cell_at(i), par[i]->0),
    ) && ({
        let j = m.index_of(step_toward(m.cell_at(i), par[i]->0));
        !(par[j] is Some && step_toward(m.cell_at(j), par[j]->0) == m.cell_at(i))
    }) by {
        lemma_cell_at_index(m, i);
        let p = m.cell_at(i);
        let q = step_toward(p, par[i]->0);
        if p.x == 0 && p.y == 0 {
            m.lemma_origin_index();
        }
        assert(m.contains(q));
        let j = m.index_of(q);
        m.lemma_contains_coords_ok(q);
        lemma_cell_at_index(m, j);
        m.lemma_index_of_injective(m.cell_at(j), q);
        if j == 0 {
            m.lemma_origin_index();
            m.lemma_index_of_injective(q, Vec2i { x: 0, y: 0 });
        }
    }
}

} // verus!
