use vstd::prelude::*;

use crate::wall_count::{lemma_open_flag_count, open_flag_count};

use super::BuildStrategy;
use crate::rng::{fy_shuffle_all, shuffle_with_seed, time_seed};
use crate::forest::{joined, lemma_walk_append, lemma_walk_concat, lemma_walk_grow, walk};
use crate::types::{Dir, Edge, Maze, Vec2i, opposite_dir, step_toward};

verus! {

/// The root reached from `x` by following `p`, where every step must climb to a higher
/// rank no greater than `mr` (which bounds the walk).
pub open spec fn root_of(p: Seq<usize>, r: Seq<nat>, mr: nat, x: int) -> int
    decreases mr - r[x],
{
    if 0 <= x < p.len() && p[x] != x && 0 <= p[x] < p.len() && r[x] < r[p[x] as int] <= mr {
        root_of(p, r, mr, p[x] as int)
    } else {
        x
    }
}

/// Parent pointers stay in range and climb strictly in rank, and no rank exceeds `mr`.
pub open spec fn forest_ok(p: Seq<usize>, r: Seq<nat>, mr: nat) -> bool {
    &&& p.len() == r.len()
    &&& forall|i: int| 0 <= i < p.len() ==> #[trigger] p[i] < p.len()
    &&& forall|i: int| 0 <= i < p.len() && p[i] != i ==> r[i] < r[p[i] as int]
    &&& forall|i: int| 0 <= i < p.len() ==> #[trigger] r[i] <= mr
}

pub proof fn lemma_root_of(p: Seq<usize>, r: Seq<nat>, mr: nat, x: int)
    requires
        forest_ok(p, r, mr),
        0 <= x < p.len(),
    ensures
        0 <= root_of(p, r, mr, x) < p.len(),
        p[root_of(p, r, mr, x)] == root_of(p, r, mr, x),
        root_of(p, r, mr, x) != x ==> r[x] < r[root_of(p, r, mr, x)],
        p[x] != x ==> root_of(p, r, mr, x) == root_of(p, r, mr, p[x] as int),
    decreases mr - r[x],
{
    if p[x] != x {
        assert(r[p[x] as int] <= mr);
        lemma_root_of(p, r, mr, p[x] as int);
    }
}

/// Pointing `x` straight at its root keeps the forest well formed and every root as it was.
pub proof fn lemma_root_compress(p: Seq<usize>, r: Seq<nat>, mr: nat, x: int, y: int)
    requires
        forest_ok(p, r, mr),
        0 <= x < p.len(),
        0 <= y < p.len(),
    ensures
        forest_ok(p.update(x, root_of(p, r, mr, x) as usize), r, mr),
        root_of(p.update(x, root_of(p, r, mr, x) as usize), r, mr, y) == root_of(p, r, mr, y),
    decreases mr - r[y],
{
    let t = root_of(p, r, mr, x);
    lemma_root_of(p, r, mr, x);
    let p2 = p.update(x, t as usize);
    assert(forest_ok(p2, r, mr));
    lemma_root_of(p, r, mr, y);
    if y == x {
        if t != x {
            lemma_root_of(p2, r, mr, t);
            lemma_root_of(p2, r, mr, x);
        }
    } else if p[y] != y {
        assert(r[p[y] as int] <= mr);
        lemma_root_compress(p, r, mr, x, p[y] as int);
        lemma_root_of(p2, r, mr, y);
    } else {
        lemma_root_of(p2, r, mr, y);
    }
}

/// Hanging root `b` under root `a` (with `a`'s rank raised above `b`'s) merges the two
/// trees: whatever had root `b` now has root `a`, every other root stays.
pub proof fn lemma_root_link(p: Seq<usize>, r: Seq<nat>, mr: nat, a: int, b: int, r2: Seq<nat>, mr2: nat, y: int)
    requires
        forest_ok(p, r, mr),
        0 <= a < p.len(),
        0 <= b < p.len(),
        a != b,
        p[a] == a,
        p[b] == b,
        r2 == r.update(a, if r[a] > r[b] { r[a] } else { r[b] + 1 }),
        mr2 == if mr >= r2[a] { mr } else { r2[a] },
        0 <= y < p.len(),
    ensures
        forest_ok(p.update(b, a as usize), r2, mr2),
        root_of(p.update(b, a as usize), r2, mr2, y) == if root_of(p, r, mr, y) == b {
            a
        } else {
            root_of(p, r, mr, y)
        },
    decreases mr - r[y],
{
    let p2 = p.update(b, a as usize);
    assert(forest_ok(p2, r2, mr2)) by {
        assert forall|i: int| 0 <= i < p2.len() && p2[i] != i implies r2[i] < r2[p2[i] as int] by {
            if i != b && p[i] == a {
                assert(r[i] < r[a]);
            }
        }
    }
    lemma_root_of(p, r, mr, y);
    lemma_root_of(p2, r2, mr2, y);
    if y == b {
        lemma_root_of(p2, r2, mr2, a);
    } else if p[y] != y {
        assert(r[p[y] as int] <= mr);
        lemma_root_link(p, r, mr, a, b, r2, mr2, p[y] as int);
    }
}

/// Disjoint sets over `0..n` with path compression.
pub struct Dsu {
    parent: Vec<usize>,
    rank: Ghost<Seq<nat>>,
    max_rank: Ghost<nat>,
}

impl Dsu {
    pub closed spec fn wf(&self) -> bool {
        forest_ok(self.parent@, self.rank@, self.max_rank@)
    }

    pub closed spec fn size(&self) -> int {
        self.parent@.len() as int
    }

    /// How far `x` is from the highest rank; every step towards a root lowers it.
    pub closed spec fn climb(&self, x: int) -> int {
        self.max_rank@ - self.rank@[x]
    }

    /// The element that `x` points to.
    pub closed spec fn parent_of(&self, x: int) -> int {
        self.parent@[x] as int
    }

    /// The representative of the set holding `x`.
    pub closed spec fn root(&self, x: int) -> int {
        root_of(self.parent@, self.rank@, self.max_rank@, x)
    }

    pub proof fn lemma_root_range(&self, x: int)
        requires
            self.wf(),
            0 <= x < self.size(),
        ensures
            0 <= self.root(x) < self.size(),
    {
        lemma_root_of(self.parent@, self.rank@, self.max_rank@, x);
    }

    /// `n` singleton sets.
    pub fn new(n: usize) -> (d: Self)
        ensures
            d.wf(),
            d.size() == n,
            forall|x: int| 0 <= x < n ==> #[trigger] d.root(x) == x,
    {
        let mut parent: Vec<usize> = Vec::new();
        let mut i: usize = 0;
        while i < n
            invariant
                i <= n,
                parent@.len() == i,
                forall|j: int| 0 <= j < i ==> parent@[j] == j,
            decreases n - i,
        {
            parent.push(i);
            i = i + 1;
        }
        let d = Dsu { parent, rank: Ghost(Seq::new(n as nat, |j: int| 0nat)), max_rank: Ghost(0) };
        assert forall|x: int| 0 <= x < n implies #[trigger] d.root(x) == x by {}
        d
    }

    /// The representative of `x`'s set; every element on the way is pointed straight at it.
    pub fn find(&mut self, x: usize) -> (r: usize)
        requires
            old(self).wf(),
            x < old(self).size(),
        ensures
            final(self).wf(),
            final(self).size() == old(self).size(),
            r == old(self).root(x as int),
            r < old(self).size(),
            old(self).parent_of(r as int) == r,
            final(self).parent_of(r as int) == r,
            final(self).parent_of(x as int) == r,
            forall|y: int| 0 <= y < old(self).size() ==> #[trigger] final(self).root(y) == old(self).root(y),
        decreases old(self).climb(x as int),
    {
        proof {
            lemma_root_of(self.parent@, self.rank@, self.max_rank@, x as int);
        }
        if self.parent[x] != x {
            let p = self.parent[x];
            assert(self.rank@[p as int] <= self.max_rank@);
            let ghost s0 = *self;
            let r = self.find(p);
            let ghost s1 = *self;
            let ghost mid = self.parent@;
            proof {
                assert(s1.root(x as int) == s0.root(x as int));
                assert(s0.root(x as int) == s0.root(p as int));
                assert(root_of(mid, self.rank@, self.max_rank@, x as int) == r);
            }
            self.parent.set(x, r);
            proof {
                assert forall|y: int| 0 <= y < mid.len() implies #[trigger] self.root(y) == s0.root(y) by {
                    lemma_root_compress(mid, self.rank@, self.max_rank@, x as int, y);
                    assert(s1.root(y) == s0.root(y));
                }
                lemma_root_compress(mid, self.rank@, self.max_rank@, x as int, 0);
                lemma_root_of(self.parent@, self.rank@, self.max_rank@, r as int);
                lemma_root_of(s0.parent@, s0.rank@, s0.max_rank@, r as int);
            }
        }
        self.parent[x]
    }

    /// Merges the sets of `a` and `b`: the representative of `a`'s set represents both.
    pub fn union(&mut self, a: usize, b: usize)
        requires
            old(self).wf(),
            a < old(self).size(),
            b < old(self).size(),
        ensures
            final(self).wf(),
            final(self).size() == old(self).size(),
            forall|y: int|
                0 <= y < old(self).size() ==> #[trigger] final(self).root(y) == if old(self).root(y)
                    == old(self).root(b as int) {
                    old(self).root(a as int)
                } else {
                    old(self).root(y)
                },
    {
        let ghost s0 = *self;
        let ra = self.find(a);
        let ghost s1 = *self;
        let rb = self.find(b);
        proof {
            assert(s1.root(a as int) == s0.root(a as int));
            assert(self.root(a as int) == s1.root(a as int));
            assert(s1.root(b as int) == s0.root(b as int));
            assert(self.root(b as int) == s1.root(b as int));
            lemma_root_of(self.parent@, self.rank@, self.max_rank@, a as int);
            lemma_root_of(self.parent@, self.rank@, self.max_rank@, b as int);
        }
        if ra != rb {
            let ghost p = self.parent@;
            let ghost r = self.rank@;
            let ghost mr = self.max_rank@;
            let ghost s2 = *self;
            self.parent.set(rb, ra);
            proof {
                let new_rank: nat = if r[ra as int] > r[rb as int] { r[ra as int] } else { r[rb as int] + 1 };
                let r2 = r.update(ra as int, new_rank);
                let mr2: nat = if mr >= new_rank { mr } else { new_rank };
                self.rank = Ghost(r2);
                self.max_rank = Ghost(mr2);
                assert forall|y: int| 0 <= y < p.len() implies #[trigger] self.root(y) == if s0.root(y) == s0.root(b as int) {
                    s0.root(a as int)
                } else {
                    s0.root(y)
                } by {
                    lemma_root_link(p, r, mr, ra as int, rb as int, r2, mr2, y);
                    assert(s2.root(y) == s1.root(y));
                    assert(s1.root(y) == s0.root(y));
                }
                lemma_root_link(p, r, mr, ra as int, rb as int, r2, mr2, 0);
            }
        } else {
            proof {
                assert forall|y: int| 0 <= y < s0.size() implies #[trigger] self.root(y) == if s0.root(y) == s0.root(b as int) {
                    s0.root(a as int)
                } else {
                    s0.root(y)
                } by {
                    assert(self.root(y) == s1.root(y));
                    assert(s1.root(y) == s0.root(y));
                }
            }
        }
    }
}

/// Any two cells of one set are joined by a walk through the open passages of `m`.
#[verifier::opaque]
pub open spec fn sets_walked(m: Maze, d: Dsu) -> bool {
    forall|i: int, j: int|
        #![trigger d.root(i), d.root(j)]
        0 <= i < d.size() && 0 <= j < d.size() && d.root(i) == d.root(j) ==> joined(
            m,
            m.cell_at(i),
            m.cell_at(j),
        )
}

/// Before any merge, with singleton sets, the sets are walked.
proof fn lemma_sets_walked_fresh(m: Maze, d: Dsu)
    requires
        forall|x: int| 0 <= x < d.size() ==> #[trigger] d.root(x) == x,
    ensures
        sets_walked(m, d),
{
    reveal(sets_walked);
    assert forall|i: int, j: int|
        #![trigger d.root(i), d.root(j)]
        0 <= i < d.size() && 0 <= j < d.size() && d.root(i) == d.root(j) implies joined(
        m,
        m.cell_at(i),
        m.cell_at(j),
    ) by {
        assert(walk(m, m.cell_at(i), m.cell_at(j), 0));
    }
}

/// Merging the sets of `a` and its neighbour `b` while opening the wall between them keeps
/// the sets walked.
proof fn lemma_sets_walked_union(m0: Maze, m1: Maze, d0: Dsu, d1: Dsu, a: Vec2i, dir: Dir)
    requires
        m0.wf(),
        sets_walked(m0, d0),
        d0.size() == m0.cell_count(),
        d1.size() == d0.size(),
        m0.contains(a),
        m0.contains(step_toward(a, dir)),
        m1.w == m0.w,
        m1.h == m0.h,
        m1.open_edges() == m0.open_edges().insert(m0.edge_key(a, dir)),
        forall|y: int|
            0 <= y < d0.size() ==> #[trigger] d1.root(y) == if d0.root(y) == d0.root(
                m0.index_of(step_toward(a, dir)),
            ) {
                d0.root(m0.index_of(a))
            } else {
                d0.root(y)
            },
    ensures
        sets_walked(m1, d1),
{
    reveal(sets_walked);
    let b = step_toward(a, dir);
    let ai = m0.index_of(a);
    let bi = m0.index_of(b);
    m0.lemma_contains_coords_ok(a);
    m0.lemma_contains_coords_ok(b);
    crate::builders::origin_shift::lemma_cell_at_index(m0, ai);
    crate::builders::origin_shift::lemma_cell_at_index(m0, bi);
    m0.lemma_index_of_injective(m0.cell_at(ai), a);
    m0.lemma_index_of_injective(m0.cell_at(bi), b);
    crate::builders::origin_shift::lemma_edge_key_back(m0, a, dir);
    let od = opposite_dir(dir);
    assert(step_toward(b, od) == a);
    assert(m1.open_edges().contains(m1.edge_key(a, dir)));
    assert(m1.open_edges().contains(m1.edge_key(b, od)));
    assert(m0.open_edges().subset_of(m1.open_edges()));
    assert forall|i: int, j: int|
        #![trigger d1.root(i), d1.root(j)]
        0 <= i < d1.size() && 0 <= j < d1.size() && d1.root(i) == d1.root(j) implies joined(
        m1,
        m1.cell_at(i),
        m1.cell_at(j),
    ) by {
        let p = m0.cell_at(i);
        let q = m0.cell_at(j);
        let bi_in = d0.root(i) == d0.root(bi);
        let bj_in = d0.root(j) == d0.root(bi);
        if bi_in == bj_in {
            assert(d0.root(i) == d0.root(j));
            assert(joined(m0, p, q));
            let n = choose|n: nat| walk(m0, p, q, n);
            lemma_walk_grow(m0, m1, p, q, n);
        } else if bi_in {
            assert(d0.root(i) == d0.root(bi));
            assert(d0.root(ai) == d0.root(j));
            assert(joined(m0, p, b));
            assert(joined(m0, a, q));
            let n1 = choose|n: nat| walk(m0, p, b, n);
            let n2 = choose|n: nat| walk(m0, a, q, n);
            lemma_walk_grow(m0, m1, p, b, n1);
            lemma_walk_grow(m0, m1, a, q, n2);
            lemma_walk_append(m1, p, b, n1, od);
            lemma_walk_concat(m1, p, a, q, n1 + 1, n2);
        } else {
            assert(d0.root(i) == d0.root(ai));
            assert(d0.root(bi) == d0.root(j));
            assert(joined(m0, p, a));
            assert(joined(m0, b, q));
            let n1 = choose|n: nat| walk(m0, p, a, n);
            let n2 = choose|n: nat| walk(m0, b, q, n);
            lemma_walk_grow(m0, m1, p, a, n1);
            lemma_walk_grow(m0, m1, b, q, n2);
            lemma_walk_append(m1, p, a, n1, dir);
            lemma_walk_concat(m1, p, b, q, n1 + 1, n2);
        }
    }
}

/// Sets with the same representatives are walked alike.
proof fn lemma_sets_walked_same_roots(m: Maze, d0: Dsu, d1: Dsu)
    requires
        sets_walked(m, d0),
        d1.size() == d0.size(),
        forall|y: int| 0 <= y < d0.size() ==> #[trigger] d1.root(y) == d0.root(y),
    ensures
        sets_walked(m, d1),
{
    reveal(sets_walked);
    assert forall|i: int, j: int|
        #![trigger d1.root(i), d1.root(j)]
        0 <= i < d1.size() && 0 <= j < d1.size() && d1.root(i) == d1.root(j) implies joined(
        m,
        m.cell_at(i),
        m.cell_at(j),
    ) by {
        assert(d0.root(i) == d0.root(j));
    }
}

/// The two cells of wall `e` lie in the same set.
pub open spec fn same_set_ends(m: Maze, d: Dsu, e: Edge) -> bool {
    d.root(m.index_of(e.pos)) == d.root(m.index_of(step_toward(e.pos, e.dir)))
}

/// Every interior wall of the grid (east and south walls with a cell behind them) is listed.
pub open spec fn all_walls_listed(m: Maze, edges: Seq<Edge>) -> bool {
    &&& forall|x: int, y: int|
        0 <= x < m.w && 0 <= y < m.h && x + 1 < m.w ==> #[trigger] has_wall_at(edges, x, y, Dir::E)
    &&& forall|x: int, y: int|
        0 <= x < m.w && 0 <= y < m.h && y + 1 < m.h ==> #[trigger] has_wall_at(edges, x, y, Dir::S)
}

/// The representatives of the sets holding the elements below `n`.
pub open spec fn representatives(d: Dsu, n: int) -> Set<int> {
    Set::new(|r: int| exists|i: int| 0 <= i < n && #[trigger] d.root(i) == r)
}

pub proof fn lemma_representatives_finite(d: Dsu, n: int)
    requires
        d.wf(),
        0 <= n <= d.size(),
    ensures
        representatives(d, n).finite(),
        representatives(d, n).subset_of(vstd::set_lib::set_int_range(0, d.size())),
{
    assert forall|r: int| #[trigger] representatives(d, n).contains(r) implies vstd::set_lib::set_int_range(
        0,
        d.size(),
    ).contains(r) by {
        let i = choose|i: int| 0 <= i < n && #[trigger] d.root(i) == r;
        d.lemma_root_range(i);
    }
    vstd::set_lib::lemma_int_range(0, d.size());
    vstd::set_lib::lemma_len_subset(representatives(d, n), vstd::set_lib::set_int_range(0, d.size()));
}

/// Fresh sets are singletons: as many representatives as elements, and a fresh maze has no
/// open wall.
pub proof fn lemma_fresh_count(m: Maze, d: Dsu)
    requires
        d.wf(),
        d.size() == m.cell_count(),
        forall|x: int| 0 <= x < m.cell_count() ==> #[trigger] d.root(x) == x,
        m.open_edges() == Set::<int>::empty(),
        m.cell_count() >= 0,
    ensures
        m.open_edges().len() + representatives(d, m.cell_count()).len() == m.cell_count(),
{
    let n = m.cell_count();
    assert forall|r: int| #[trigger] representatives(d, n).contains(r) == vstd::set_lib::set_int_range(0, n).contains(r) by {
        if 0 <= r < n {
            assert(d.root(r) == r);
        }
    }
    assert(representatives(d, n) =~= vstd::set_lib::set_int_range(0, n));
    vstd::set_lib::lemma_int_range(0, n);
}

/// When every representative equals that of element 0, there is exactly one.
pub proof fn lemma_one_representative(d: Dsu, n: int)
    requires
        n >= 1,
        forall|i: int| 0 <= i < n ==> #[trigger] d.root(i) == d.root(0),
    ensures
        representatives(d, n).len() == 1,
{
    assert(representatives(d, n) =~= set![d.root(0)]);
}

/// Merging the sets of `a` and `b` (which differ) removes `b`'s representative.
pub proof fn lemma_union_count(d0: Dsu, d1: Dsu, n: int, a: int, b: int)
    requires
        d0.wf(),
        0 <= n <= d0.size(),
        0 <= a < n,
        0 <= b < n,
        d0.root(a) != d0.root(b),
        forall|y: int|
            0 <= y < n ==> #[trigger] d1.root(y) == if d0.root(y) == d0.root(b) {
                d0.root(a)
            } else {
                d0.root(y)
            },
    ensures
        representatives(d1, n) == representatives(d0, n).remove(d0.root(b)),
        representatives(d0, n).contains(d0.root(b)),
{
    let r0 = representatives(d0, n);
    let r1 = representatives(d1, n);
    assert forall|r: int| r1.contains(r) implies r0.remove(d0.root(b)).contains(r) by {
        let i = choose|i: int| 0 <= i < n && #[trigger] d1.root(i) == r;
        if d0.root(i) == d0.root(b) {
            assert(d0.root(a) == r);
        } else {
            assert(d0.root(i) == r);
        }
    }
    assert forall|r: int| r0.remove(d0.root(b)).contains(r) implies r1.contains(r) by {
        let i = choose|i: int| 0 <= i < n && #[trigger] d0.root(i) == r;
        assert(d1.root(i) == r);
    }
    assert(r1 =~= r0.remove(d0.root(b)));
    assert(r0.contains(d0.root(b)));
}

/// Sets with the same representatives for every element have the same representatives.
pub proof fn lemma_same_roots(d0: Dsu, d1: Dsu, n: int)
    requires
        forall|y: int| 0 <= y < n ==> #[trigger] d1.root(y) == d0.root(y),
    ensures
        representatives(d1, n) == representatives(d0, n),
{
    assert forall|r: int| representatives(d1, n).contains(r) == representatives(d0, n).contains(r) by {
        if representatives(d1, n).contains(r) {
            let i = choose|i: int| 0 <= i < n && #[trigger] d1.root(i) == r;
            assert(d0.root(i) == r);
        }
        if representatives(d0, n).contains(r) {
            let i = choose|i: int| 0 <= i < n && #[trigger] d0.root(i) == r;
            assert(d1.root(i) == r);
        }
    }
    assert(representatives(d1, n) =~= representatives(d0, n));
}

/// Shuffling keeps every wall in the list.
pub proof fn lemma_shuffle_keeps_walls(m: Maze, edges: Seq<Edge>, seed: u32)
    requires
        all_walls_listed(m, edges),
    ensures
        all_walls_listed(m, fy_shuffle_all(edges, seed)),
{
    let s = fy_shuffle_all(edges, seed);
    if edges.len() > 0 {
        crate::rng::lemma_fy_shuffle_perm(edges, (edges.len() - 1) as nat, seed);
    }
    assert forall|x: int, y: int, d: Dir| has_wall_at(edges, x, y, d) implies #[trigger] has_wall_at(s, x, y, d) by {
        let k = choose|k: int| 0 <= k < edges.len() && edges[k].pos.x == x && edges[k].pos.y == y && edges[k].dir == d;
        assert(edges.contains(edges[k]));
        assert(s.contains(edges[k]));
        let j = choose|j: int| 0 <= j < s.len() && s[j] == edges[k];
        assert(s[j].pos.x == x && s[j].pos.y == y && s[j].dir == d);
    }
    assert forall|x: int, y: int|
        0 <= x < m.w && 0 <= y < m.h && x + 1 < m.w implies #[trigger] has_wall_at(s, x, y, Dir::E) by {
        assert(has_wall_at(edges, x, y, Dir::E));
    }
    assert forall|x: int, y: int|
        0 <= x < m.w && 0 <= y < m.h && y + 1 < m.h implies #[trigger] has_wall_at(s, x, y, Dir::S) by {
        assert(has_wall_at(edges, x, y, Dir::S));
    }
}

/// The interior walls of cell (`x`, `y`) of a `w` by `h` grid: east, then south.
pub open spec fn cell_walls(w: int, h: int, x: int, y: int) -> Seq<Edge> {
    let p = Vec2i { x: x as i32, y: y as i32 };
    (if x + 1 < w {
        seq![Edge { pos: p, dir: Dir::E }]
    } else {
        Seq::empty()
    }) + (if y + 1 < h {
        seq![Edge { pos: p, dir: Dir::S }]
    } else {
        Seq::empty()
    })
}

/// The interior walls of the first `x` cells of row `y`, in order.
pub open spec fn row_walls(w: int, h: int, y: int, x: int) -> Seq<Edge>
    decreases x,
{
    if x <= 0 {
        Seq::empty()
    } else {
        row_walls(w, h, y, x - 1) + cell_walls(w, h, x - 1, y)
    }
}

/// The interior walls of the first `y` rows, in row-major order.
pub open spec fn walls_above(w: int, h: int, y: int) -> Seq<Edge>
    decreases y,
{
    if y <= 0 {
        Seq::empty()
    } else {
        walls_above(w, h, y - 1) + row_walls(w, h, y - 1, w)
    }
}

/// Every interior wall of a `w` by `h` grid, in row-major order, east before south.
pub open spec fn row_major_walls(w: int, h: int) -> Seq<Edge> {
    walls_above(w, h, h)
}

/// Randomized Kruskal: opens the interior walls in a random order, each one only if it
/// separates two cells that are not yet connected.
pub struct KruskalGen {
    w: usize,
    edges: Vec<Edge>,
    dsu: Dsu,
    idx: usize,
}

/// The interior walls of a `w` by `h` grid, each named once by its western or northern
/// cell, in row-major order with the east wall of a cell before its south wall.
pub open spec fn interior_walls(m: Maze, edges: Seq<Edge>) -> bool {
    &&& forall|i: int|
        0 <= i < edges.len() ==> m.contains((#[trigger] edges[i]).pos) && (edges[i].dir == Dir::E
            || edges[i].dir == Dir::S) && m.contains(step_toward(edges[i].pos, edges[i].dir))
}

impl KruskalGen {
    pub closed spec fn walls(&self) -> Seq<Edge> {
        self.edges@
    }

    pub closed spec fn next_wall(&self) -> int {
        self.idx as int
    }

    /// The set representative of cell index `i`.
    pub closed spec fn set_of(&self, i: int) -> int {
        self.dsu.root(i)
    }

    /// Every interior wall of a `w` by `h` grid, once each, in row-major order with a
    /// cell's east wall before its south wall.
    pub fn build_edges(w: usize, h: usize) -> (edges: Vec<Edge>)
        requires
            w * h <= usize::MAX,
            w <= i32::MAX,
            h <= i32::MAX,
        ensures
            edges@ == row_major_walls(w as int, h as int),
            forall|i: int|
                0 <= i < edges@.len() ==> 0 <= (#[trigger] edges@[i]).pos.x < w && 0 <= edges@[i].pos.y < h
                    && (edges@[i].dir == Dir::E ==> edges@[i].pos.x + 1 < w) && (edges@[i].dir == Dir::S
                    ==> edges@[i].pos.y + 1 < h) && (edges@[i].dir == Dir::E || edges@[i].dir == Dir::S),
            forall|i: int, j: int|
                0 <= i < j < edges@.len() ==> wall_rank(w as int, #[trigger] edges@[i]) < wall_rank(
                    w as int,
                    #[trigger] edges@[j],
                ),
            forall|x: int, y: int|
                0 <= x < w && 0 <= y < h && x + 1 < w ==> #[trigger] has_wall_at(edges@, x, y, Dir::E),
            forall|x: int, y: int|
                0 <= x < w && 0 <= y < h && y + 1 < h ==> #[trigger] has_wall_at(edges@, x, y, Dir::S),
    {
        let mut edges: Vec<Edge> = Vec::new();
        let mut y: usize = 0;
        while y < h
            invariant
                y <= h,
                w * h <= usize::MAX,
                w <= i32::MAX,
                h <= i32::MAX,
                edges@ == walls_above(w as int, h as int, y as int),
                forall|i: int|
                    0 <= i < edges@.len() ==> 0 <= (#[trigger] edges@[i]).pos.x < w && 0 <= edges@[i].pos.y < y
                        && (edges@[i].dir == Dir::E ==> edges@[i].pos.x + 1 < w) && (edges@[i].dir
                        == Dir::S ==> edges@[i].pos.y + 1 < h) && (edges@[i].dir == Dir::E || edges@[i].dir
                        == Dir::S),
                forall|i: int, j: int|
                    0 <= i < j < edges@.len() ==> wall_rank(w as int, #[trigger] edges@[i]) < wall_rank(
                        w as int,
                        #[trigger] edges@[j],
                    ),
                forall|x: int, yy: int|
                    0 <= x < w && 0 <= yy < y && x + 1 < w ==> #[trigger] has_wall_at(edges@, x, yy, Dir::E),
                forall|x: int, yy: int|
                    0 <= x < w && 0 <= yy < y && yy + 1 < h ==> #[trigger] has_wall_at(edges@, x, yy, Dir::S),
            decreases h - y,
        {
            let mut x: usize = 0;
            while x < w
                invariant
                    y < h,
                    x <= w,
                    w * h <= usize::MAX,
                    w <= i32::MAX,
                    h <= i32::MAX,
                    edges@ == walls_above(w as int, h as int, y as int) + row_walls(
                        w as int,
                        h as int,
                        y as int,
                        x as int,
                    ),
                    forall|i: int|
                        0 <= i < edges@.len() ==> 0 <= (#[trigger] edges@[i]).pos.x < w && 0 <= edges@[i].pos.y
                            <= y && (edges@[i].pos.y == y ==> edges@[i].pos.x < x) && (edges@[i].dir
                            == Dir::E ==> edges@[i].pos.x + 1 < w) && (edges@[i].dir == Dir::S
                            ==> edges@[i].pos.y + 1 < h) && (edges@[i].dir == Dir::E || edges@[i].dir
                            == Dir::S),
                    forall|i: int, j: int|
                        0 <= i < j < edges@.len() ==> wall_rank(w as int, #[trigger] edges@[i]) < wall_rank(
                            w as int,
                            #[trigger] edges@[j],
                        ),
                    forall|xx: int, yy: int|
                        0 <= xx < w && 0 <= yy < h && (yy < y || (yy == y && xx < x)) && xx + 1 < w
                            ==> #[trigger] has_wall_at(edges@, xx, yy, Dir::E),
                    forall|xx: int, yy: int|
                        0 <= xx < w && 0 <= yy < h && (yy < y || (yy == y && xx < x)) && yy + 1 < h
                            ==> #[trigger] has_wall_at(edges@, xx, yy, Dir::S),
                decreases w - x,
            {
                let pos = Vec2i { x: x as i32, y: y as i32 };
                let ghost e0 = edges@;
                proof {
                    assert forall|i: int| 0 <= i < e0.len() implies wall_rank(w as int, #[trigger] e0[i]) < 4 * (y * w + x) by {
                        lemma_rank_below(w as int, e0[i], x as int, y as int);
                    }
                }
                if x + 1 < w {
                    edges.push(Edge { pos, dir: Dir::E });
                    proof {
                        assert(has_wall_at(edges@, x as int, y as int, Dir::E)) by {
                            assert(edges@[edges@.len() - 1] == Edge { pos, dir: Dir::E });
                        }
                        assert forall|xx: int, yy: int, d: Dir| has_wall_at(e0, xx, yy, d) implies #[trigger] has_wall_at(edges@, xx, yy, d) by {
                            let k = choose|k: int| 0 <= k < e0.len() && e0[k].pos.x == xx && e0[k].pos.y == yy && e0[k].dir == d;
                            assert(edges@[k] == e0[k]);
                        }
                    }
                }
                let ghost e1 = edges@;
                if y + 1 < h {
                    edges.push(Edge { pos, dir: Dir::S });
                    proof {
                        assert(has_wall_at(edges@, x as int, y as int, Dir::S)) by {
                            assert(edges@[edges@.len() - 1] == Edge { pos, dir: Dir::S });
                        }
                        assert forall|xx: int, yy: int, d: Dir| has_wall_at(e1, xx, yy, d) implies #[trigger] has_wall_at(edges@, xx, yy, d) by {
                            let k = choose|k: int| 0 <= k < e1.len() && e1[k].pos.x == xx && e1[k].pos.y == yy && e1[k].dir == d;
                            assert(edges@[k] == e1[k]);
                        }
                    }
                }
                assert(edges@ == walls_above(w as int, h as int, y as int) + row_walls(
                    w as int,
                    h as int,
                    y as int,
                    x + 1,
                )) by {
                    assert(row_walls(w as int, h as int, y as int, x + 1) == row_walls(
                        w as int,
                        h as int,
                        y as int,
                        x as int,
                    ) + cell_walls(w as int, h as int, x as int, y as int));
                    assert(pos == (Vec2i { x: x as i32, y: y as i32 }));
                }
                x = x + 1;
            }
            assert(walls_above(w as int, h as int, y + 1) == walls_above(w as int, h as int, y as int)
                + row_walls(w as int, h as int, y as int, w as int));
            y = y + 1;
        }
        edges
    }

    /// Lists the walls in an order drawn from the clock.
    pub fn new(maze: &Maze) -> (r: Self)
        requires
            maze.wf(),
        ensures
            maze.open_edges() == Set::<int>::empty() ==> r.inv(maze),
            r.next_wall() == 0,
    {
        let w = maze.w;
        let h = maze.h;
        let mut edges = Self::build_edges(w, h);
        let ghost e0 = edges@;
        shuffle(&mut edges);
        let ghost seed = choose|seed: u32| edges@ == #[trigger] fy_shuffle_all(e0, seed);
        proof {
            lemma_walls_in_grid(*maze, e0, seed);
            lemma_shuffle_keeps_walls(*maze, e0, seed);
        }
        let r = Self { w, dsu: Dsu::new(w * h), edges, idx: 0 };
        proof {
            if maze.open_edges() == Set::<int>::empty() {
                lemma_fresh_count(*maze, r.dsu);
            }
            lemma_sets_walked_fresh(*maze, r.dsu);
        }
        r
    }

    /// Lists the walls in the Fisher-Yates order drawn from `seed`.
    pub fn new_with_seed(maze: &Maze, seed: u32) -> (r: Self)
        requires
            maze.wf(),
        ensures
            maze.open_edges() == Set::<int>::empty() ==> r.inv(maze),
            r.next_wall() == 0,
            forall|i: int| 0 <= i < maze.cell_count() ==> #[trigger] r.set_of(i) == i,
            r.walls() == fy_shuffle_all(row_major_walls(maze.w as int, maze.h as int), seed),
    {
        let w = maze.w;
        let h = maze.h;
        let mut edges = Self::build_edges(w, h);
        let ghost e0 = edges@;
        shuffle_with_seed(&mut edges, seed);
        proof {
            lemma_walls_in_grid(*maze, e0, seed);
            lemma_shuffle_keeps_walls(*maze, e0, seed);
        }
        let r = Self { w, dsu: Dsu::new(w * h), edges, idx: 0 };
        proof {
            if maze.open_edges() == Set::<int>::empty() {
                lemma_fresh_count(*maze, r.dsu);
            }
            lemma_sets_walked_fresh(*maze, r.dsu);
        }
        r
    }
}

/// The wall `e` is named `(x, y, d)` somewhere in `edges`.
pub open spec fn has_wall_at(edges: Seq<Edge>, x: int, y: int, d: Dir) -> bool {
    exists|k: int| 0 <= k < edges.len() && edges[k].pos.x == x && edges[k].pos.y == y && edges[k].dir == d
}

/// The position of a wall in row-major order, east before south.
pub open spec fn wall_rank(w: int, e: Edge) -> int {
    4 * (e.pos.y * w + e.pos.x) + if e.dir == Dir::E {
        0int
    } else if e.dir == Dir::S {
        1int
    } else {
        2int
    }
}

proof fn lemma_rank_below(w: int, e: Edge, x: int, y: int)
    requires
        0 <= e.pos.x < w,
        0 <= e.pos.y <= y,
        e.pos.y == y ==> e.pos.x < x,
        e.dir == Dir::E || e.dir == Dir::S,
        0 <= x,
    ensures
        wall_rank(w, e) < 4 * (y * w + x),
{
    if e.pos.y < y {
        assert(e.pos.y * w + e.pos.x < y * w) by (nonlinear_arith)
            requires
                e.pos.y < y,
                0 <= e.pos.x < w,
        ;
    }
}

proof fn lemma_walls_in_grid(m: Maze, edges: Seq<Edge>, seed: u32)
    requires
        m.dims_ok(),
        forall|i: int|
            0 <= i < edges.len() ==> 0 <= (#[trigger] edges[i]).pos.x < m.w && 0 <= edges[i].pos.y < m.h
                && (edges[i].dir == Dir::E ==> edges[i].pos.x + 1 < m.w) && (edges[i].dir == Dir::S
                ==> edges[i].pos.y + 1 < m.h) && (edges[i].dir == Dir::E || edges[i].dir == Dir::S),
    ensures
        interior_walls(m, fy_shuffle_all(edges, seed)),
{
    let s = fy_shuffle_all(edges, seed);
    if edges.len() > 0 {
        crate::rng::lemma_fy_shuffle_perm(edges, (edges.len() - 1) as nat, seed);
    }
    assert forall|i: int| 0 <= i < s.len() implies m.contains((#[trigger] s[i]).pos) && (s[i].dir == Dir::E
        || s[i].dir == Dir::S) && m.contains(step_toward(s[i].pos, s[i].dir)) by {
        assert(s.contains(s[i]));
        assert(edges.contains(s[i]));
        let k = choose|k: int| 0 <= k < edges.len() && edges[k] == s[i];
        assert(edges[k] == s[i]);
    }
}

/// Shuffles `arr` with a seed drawn from the clock.
pub fn shuffle(arr: &mut Vec<Edge>)
    ensures
        exists|seed: u32| final(arr)@ == #[trigger] fy_shuffle_all(old(arr)@, seed),
{
    let seed = time_seed();
    shuffle_with_seed(arr, seed);
}

impl KruskalGen {
    /// What one step does to the generator and the maze: `self` and `m0` before it,
    /// `after` and `m1` after it, `updated` the cells it returns.
    pub open spec fn step_post(self, after: Self, m0: Maze, m1: Maze, updated: Seq<Vec2i>) -> bool {
        &&& (self.is_done() ==> updated.len() == 0 && m1.grid@ =~= m0.grid@)
        &&& (!self.is_done() ==> {
                let e = self.walls()[self.next_wall()];
                let a = m0.index_of(e.pos);
                let b = m0.index_of(step_toward(e.pos, e.dir));
                &&& after.next_wall() == self.next_wall() + 1
                &&& (self.set_of(a) != self.set_of(b)) == (updated.len() == 2)
                &&& updated.len() == 0 ==> m1.grid@ =~= m0.grid@ && forall|i: int|
                    0 <= i < m0.cell_count() ==> #[trigger] after.set_of(i) == self.set_of(i)
                &&& updated.len() == 2 ==> {
                    &&& updated =~= seq![e.pos, step_toward(e.pos, e.dir)]
                    &&& m1.open_edges() =~= m0.open_edges().insert(
                        m0.edge_key(e.pos, e.dir),
                    )
                    &&& forall|i: int|
                        0 <= i < m0.cell_count() ==> #[trigger] after.set_of(i) == if self.set_of(i) == self.set_of(b) {
                            self.set_of(a)
                        } else {
                            self.set_of(i)
                        }
                }
            })
    }
}

impl BuildStrategy for KruskalGen {
    /// The listed walls are interior walls of the grid, the sets cover its cells, and the
    /// builder is done once every listed wall has been considered.
    closed spec fn inv(&self, maze: &Maze) -> bool {
        &&& maze.wf()
        &&& self.w == maze.w
        &&& self.dsu.wf()
        &&& self.dsu.size() == maze.cell_count()
        &&& interior_walls(*maze, self.edges@)
        &&& self.idx <= self.edges@.len()
        &&& all_walls_listed(*maze, self.edges@)
        &&& forall|k: int| 0 <= k < self.idx ==> #[trigger] same_set_ends(*maze, self.dsu, self.edges@[k])
        &&& forall|k: int|
            #[trigger] maze.open_edges().contains(k) ==> self.dsu.root(maze.key_ends(k).0)
                == self.dsu.root(maze.key_ends(k).1)
        &&& maze.open_edges().len() + representatives(self.dsu, maze.cell_count()).len()
            == maze.cell_count()
        &&& sets_walked(*maze, self.dsu)
    }

    closed spec fn is_done(&self) -> bool {
        self.idx >= self.edges@.len()
    }

    fn name(&self) -> (s: &'static str)
        ensures
            s@ == "Kruskal's"@,
    {
        "Kruskal's"
    }

    fn done(&self) -> (b: bool) {
        self.idx >= self.edges.len()
    }

    /// Considers the next wall: if its two cells lie in different sets, merges the sets,
    /// opens the wall and returns the two cells.
    fn step(&mut self, maze: &mut Maze) -> (updated: Vec<Vec2i>)
        ensures
            old(self).step_post(*final(self), *old(maze), *final(maze), updated@),

    {
        if self.idx >= self.edges.len() {
            return Vec::new();
        }
        let e = self.edges[self.idx];
        self.idx = self.idx + 1;
        assert(maze.contains(e.pos));
        proof {
            maze.lemma_contains_coords_ok(e.pos);
        }
        let a = e.pos;
        let b = maze.neighbor(a, e.dir);
        proof {
            maze.lemma_contains_coords_ok(b);
        }
        let a_idx = (a.y as usize) * self.w + (a.x as usize);
        let b_idx = (b.y as usize) * self.w + (b.x as usize);
        let ghost d0 = self.dsu;
        let ghost m0 = *maze;
        let ghost k = (self.idx - 1) as int;
        let ra = self.dsu.find(a_idx);
        let rb = self.dsu.find(b_idx);
        let ghost n = maze.cell_count();
        proof {
            assert(a_idx == maze.index_of(a));
            assert(b_idx == maze.index_of(b));
            maze.lemma_edge_key(a, e.dir);
            maze.lemma_open_edges_finite();
            lemma_representatives_finite(d0, n);
        }
        if ra != rb {
            let ghost d1 = self.dsu;
            self.dsu.union(a_idx, b_idx);
            maze.carve(a, e.dir);
            proof {
                let key = m0.edge_key(a, e.dir);
                assert(!m0.open_edges().contains(key));
                assert forall|y: int| 0 <= y < d0.size() implies #[trigger] self.dsu.root(y) == if d0.root(y)
                    == d0.root(m0.index_of(step_toward(a, e.dir))) {
                    d0.root(m0.index_of(a))
                } else {
                    d0.root(y)
                } by {
                    assert(d1.root(y) == d0.root(y));
                }
                lemma_sets_walked_union(m0, *maze, d0, self.dsu, a, e.dir);
                lemma_union_count(d0, self.dsu, n, a_idx as int, b_idx as int);
                lemma_representatives_finite(self.dsu, n);
                maze.lemma_open_edges_finite();
                assert forall|j: int| 0 <= j < self.idx implies #[trigger] same_set_ends(*maze, self.dsu, self.edges@[j]) by {
                    let ej = self.edges@[j];
                    assert(maze.contains(ej.pos));
                    m0.lemma_contains_coords_ok(ej.pos);
                    m0.lemma_contains_coords_ok(step_toward(ej.pos, ej.dir));
                    if j < k {
                        assert(same_set_ends(m0, d0, ej));
                    }
                }
                assert forall|kk: int| #[trigger] maze.open_edges().contains(kk) implies self.dsu.root(maze.key_ends(kk).0)
                    == self.dsu.root(maze.key_ends(kk).1) by {
                    if kk != key {
                        assert(m0.open_edges().contains(kk));
                        m0.lemma_key_decode(kk);
                        let c = m0.cell_at(kk / 2);
                        m0.lemma_edge_key(c, Maze::key_dir(kk));
                        m0.lemma_contains_coords_ok(c);
                        m0.lemma_contains_coords_ok(step_toward(c, Maze::key_dir(kk)));
                    }
                }
            }
            return vec![a, b];
        }
        proof {
            lemma_same_roots(d0, self.dsu, n);
            lemma_sets_walked_same_roots(*maze, d0, self.dsu);
            assert forall|j: int| 0 <= j < self.idx implies #[trigger] same_set_ends(*maze, self.dsu, self.edges@[j]) by {
                let ej = self.edges@[j];
                assert(maze.contains(ej.pos));
                m0.lemma_contains_coords_ok(ej.pos);
                m0.lemma_contains_coords_ok(step_toward(ej.pos, ej.dir));
                if j < k {
                    assert(same_set_ends(m0, d0, ej));
                }
            }
            assert forall|kk: int| #[trigger] maze.open_edges().contains(kk) implies self.dsu.root(maze.key_ends(kk).0)
                == self.dsu.root(maze.key_ends(kk).1) by {
                m0.lemma_key_decode(kk);
                let c = m0.cell_at(kk / 2);
                m0.lemma_edge_key(c, Maze::key_dir(kk));
                m0.lemma_contains_coords_ok(c);
                m0.lemma_contains_coords_ok(step_toward(c, Maze::key_dir(kk)));
            }
        }
        Vec::new()
    }
}

impl KruskalGen {
    /// Once every wall has been considered, cell `i` is in the same set as cell 0.
    proof fn lemma_joined_to_first(&self, maze: &Maze, i: int)
        requires
            self.inv(maze),
            self.is_done(),
            0 <= i < maze.cell_count(),
        ensures
            self.dsu.root(i) == self.dsu.root(0),
        decreases i,
    {
        if i > 0 {
            crate::builders::origin_shift::lemma_cell_at_index(*maze, i);
            let c = maze.cell_at(i);
            let w = maze.w as int;
            if c.x > 0 {
                let left = Vec2i { x: (c.x - 1) as i32, y: c.y };
                assert(has_wall_at(self.edges@, c.x - 1, c.y as int, Dir::E));
                let k = choose|k: int|
                    0 <= k < self.edges@.len() && self.edges@[k].pos.x == c.x - 1 && self.edges@[k].pos.y
                        == c.y && self.edges@[k].dir == Dir::E;
                assert(self.edges@[k].pos == left);
                assert(same_set_ends(*maze, self.dsu, self.edges@[k]));
                assert(step_toward(left, Dir::E) == c);
                assert(maze.index_of(left) == i - 1);
                self.lemma_joined_to_first(maze, i - 1);
            } else {
                assert(c.y > 0) by {
                    if c.y == 0 {
                        assert(maze.index_of(c) == 0);
                    }
                }
                let up = Vec2i { x: c.x, y: (c.y - 1) as i32 };
                assert(has_wall_at(self.edges@, c.x as int, c.y - 1, Dir::S));
                let k = choose|k: int|
                    0 <= k < self.edges@.len() && self.edges@[k].pos.x == c.x && self.edges@[k].pos.y
                        == c.y - 1 && self.edges@[k].dir == Dir::S;
                assert(self.edges@[k].pos == up);
                assert(same_set_ends(*maze, self.dsu, self.edges@[k]));
                assert(step_toward(up, Dir::S) == c);
                assert(maze.index_of(up) == i - w) by (nonlinear_arith)
                    requires
                        maze.index_of(up) == (c.y - 1) * w + c.x,
                        i == c.y * w + c.x,
                ;
                assert(w >= 1);
                self.lemma_joined_to_first(maze, i - w);
            }
        }
    }

    /// Once every wall has been considered, all cells form one set and the maze is a
    /// spanning tree: it has exactly `w * h - 1` passages, and a walk joins
    /// any two cells.
    pub proof fn lemma_done_is_perfect(&self, maze: &Maze)
        requires
            self.inv(maze),
            self.is_done(),
            maze.cell_count() >= 1,
        ensures
            maze.open_edges().len() == maze.cell_count() - 1,
            maze.outer_walls_closed() ==> open_flag_count(*maze) == 2 * (maze.cell_count() - 1),
            forall|i: int| 0 <= i < maze.cell_count() ==> #[trigger] self.set_of(i) == self.set_of(0),
            forall|p: Vec2i, q: Vec2i|
                maze.contains(p) && maze.contains(q) ==> #[trigger] joined(*maze, p, q),
    {
        assert forall|i: int| 0 <= i < maze.cell_count() implies #[trigger] self.dsu.root(i) == self.dsu.root(0) by {
            self.lemma_joined_to_first(maze, i);
        }
        lemma_one_representative(self.dsu, maze.cell_count());
        assert forall|p: Vec2i, q: Vec2i| maze.contains(p) && maze.contains(q) implies #[trigger] joined(
            *maze,
            p,
            q,
        ) by {
            reveal(sets_walked);
            maze.lemma_contains_coords_ok(p);
            maze.lemma_contains_coords_ok(q);
            let i = maze.index_of(p);
            let j = maze.index_of(q);
            crate::builders::origin_shift::lemma_cell_at_index(*maze, i);
            crate::builders::origin_shift::lemma_cell_at_index(*maze, j);
            maze.lemma_index_of_injective(maze.cell_at(i), p);
            maze.lemma_index_of_injective(maze.cell_at(j), q);
            assert(self.dsu.root(i) == self.dsu.root(0));
            assert(self.dsu.root(j) == self.dsu.root(0));
        }
        if maze.outer_walls_closed() {
            lemma_open_flag_count(*maze);
        }
    }
}

} // verus!
