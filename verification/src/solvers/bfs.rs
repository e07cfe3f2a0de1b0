use std::collections::VecDeque;

use vstd::prelude::*;

use super::{SolveStrategy, Solver, advance_reveal, board_ok, closed_except, goal_to_start_path, lemma_closed_reaches, lemma_addressable, lemma_solution_cells_update, link_parents, marked_chain, open_link, parents_linked, parents_reach_start, solution_cells, solution_marks_in_order};
use crate::session::solve_run;
use crate::forest::{joined, walk};
use crate::types::{CellMark, Dir, Maze, MazeOverlay, Vec2i, dir_at, dir_from_index, dir_index, opposite_dir, overlay_index, step_toward};

verus! {

/// How many of the first `i` marks are not `Dead`.
pub open spec fn undead_count(marks: Seq<CellMark>, i: int) -> int
    decreases i,
{
    if i <= 0 {
        0
    } else {
        undead_count(marks, i - 1) + if marks[i - 1] == CellMark::Dead {
            0int
        } else {
            1int
        }
    }
}

pub proof fn lemma_undead_bounds(marks: Seq<CellMark>, i: int)
    requires
        0 <= i,
    ensures
        0 <= undead_count(marks, i) <= i,
    decreases i,
{
    if i > 0 {
        lemma_undead_bounds(marks, i - 1);
    }
}

/// Marking a live cell dead lowers the count of live cells by one.
pub proof fn lemma_undead_kill(marks: Seq<CellMark>, j: int, m: CellMark, i: int)
    requires
        0 <= j < marks.len(),
        marks[j] != CellMark::Dead,
        m == CellMark::Dead,
        0 <= i <= marks.len(),
    ensures
        undead_count(marks.update(j, m), i) == undead_count(marks, i) - if j < i {
            1int
        } else {
            0int
        },
    decreases i,
{
    if i > 0 {
        lemma_undead_kill(marks, j, m, i - 1);
    }
}

/// Marking one more cell dead, on top of the cells of `u0` already marked dead over `o0`,
/// gives the marks of `o0` with the cells of `u0` and `cell` dead.
proof fn lemma_dead_marks_push(maze: Maze, o0: MazeOverlay, mid: MazeOverlay, post: MazeOverlay, u0: Seq<Vec2i>, cell: Vec2i)
    requires
        board_ok(&maze, &mid),
        maze.contains(cell),
        !u0.contains(cell),
        post.mark_cells() == mid.mark_cells().update(overlay_index(maze.w as int, cell), CellMark::Dead),
        forall|p: Vec2i|
            #[trigger] maze.contains(p) ==> mid.mark_at(maze.w as int, p) == if u0.contains(p) {
                CellMark::Dead
            } else {
                o0.mark_at(maze.w as int, p)
            },
    ensures
        forall|p: Vec2i|
            #[trigger] maze.contains(p) ==> post.mark_at(maze.w as int, p) == if u0.push(cell).contains(p) {
                CellMark::Dead
            } else {
                o0.mark_at(maze.w as int, p)
            },
{
    let u1 = u0.push(cell);
    assert forall|p: Vec2i| #[trigger] maze.contains(p) implies post.mark_at(maze.w as int, p) == if u1.contains(p) {
        CellMark::Dead
    } else {
        o0.mark_at(maze.w as int, p)
    } by {
        lemma_addressable(&maze, &mid, p);
        lemma_addressable(&maze, &mid, cell);
        if p == cell {
            assert(u1[u0.len() as int] == cell);
        } else {
            if maze.index_of(p) == maze.index_of(cell) {
                maze.lemma_index_of_injective(p, cell);
            }
            if u0.contains(p) {
                let j = choose|j: int| 0 <= j < u0.len() && u0[j] == p;
                assert(u1[j] == p);
            }
            if u1.contains(p) {
                let j = choose|j: int| 0 <= j < u1.len() && u1[j] == p;
                assert(j < u0.len());
                assert(u0[j] == p);
            }
        }
    }
}

/// Where a collapse that killed `updated` (in order, each the parent of the one before) had to
/// stop: its last cell has no parent, or the parent is the start, has not been expanded, still
/// has live children, or is already dead or on the solution path.
pub open spec fn collapse_stops(
    maze: Maze,
    marks: MazeOverlay,
    parents: Seq<Option<Vec2i>>,
    expanded: Seq<bool>,
    live: Seq<usize>,
    updated: Seq<Vec2i>,
) -> bool {
    updated.len() > 0 ==> match parents[maze.index_of(updated.last())] {
        None => true,
        Some(p) => {
            ||| p == (Vec2i { x: 0, y: 0 })
            ||| !expanded[maze.index_of(p)]
            ||| live[maze.index_of(p)] > 0
            ||| updated.contains(p)
            ||| marks.mark_at(maze.w as int, p) == CellMark::Dead
            ||| marks.mark_at(maze.w as int, p) == CellMark::Solution
        },
    }
}

/// Breadth-first search from the top-left cell to the bottom-right one; branches that
/// end without reaching the goal are marked dead as soon as they are known to.
pub struct BfsSolver {
    start: Vec2i,
    goal: Vec2i,
    queue: VecDeque<Vec2i>,
    discovered: Vec<bool>,
    parent: Vec<Option<Vec2i>>,
    reveal_cursor: Option<Vec2i>,
    expanded: Vec<bool>,
    live_children: Vec<usize>,
    finished: bool,
}

impl BfsSolver {
    pub closed spec fn parents(&self) -> Seq<Option<Vec2i>> {
        self.parent@
    }

    pub closed spec fn cursor(&self) -> Option<Vec2i> {
        self.reveal_cursor
    }

    pub closed spec fn pending(&self) -> Seq<Vec2i> {
        self.queue@
    }

    pub closed spec fn discovered_cells(&self) -> Seq<bool> {
        self.discovered@
    }

    /// Which cells have had their neighbours looked at.
    pub closed spec fn expanded_cells(&self) -> Seq<bool> {
        self.expanded@
    }

    /// For each cell, how many of the cells it discovered may still lead to the goal.
    pub closed spec fn live_children_counts(&self) -> Seq<usize> {
        self.live_children@
    }

    /// A search that has discovered only the top-left cell and queued it.
    pub fn new(maze: &Maze) -> (r: Self)
        requires
            maze.wf(),
            maze.w >= 1,
            maze.h >= 1,
        ensures
            r.pending() == seq![Vec2i { x: 0, y: 0 }],
            forall|i: int| 0 <= i < maze.cell_count() ==> #[trigger] r.discovered_cells()[i] == (i == 0),
            forall|i: int| 0 <= i < maze.cell_count() ==> #[trigger] r.parents()[i] is None,
            r.cursor() is None,
            !r.is_done(),
            forall|o: MazeOverlay| #[trigger] board_ok(maze, &o) ==> r.inv(maze, &o),
    {
        let start = maze.start();
        let goal = maze.goal();
        proof {
            maze.lemma_contains_coords_ok(start);
            maze.lemma_origin_index();
        }
        let n = maze.w * maze.h;
        let mut discovered = vec![false; n];
        assert(forall|i: int| 0 <= i < n ==> !discovered@[i]);
        discovered.set(maze.idx(start), true);
        let mut queue = VecDeque::new();
        queue.push_back(start);
        let parent: Vec<Option<Vec2i>> = vec![None; n];
        assert(forall|i: int| 0 <= i < n ==> parent@[i] is None);
        let r = Self {
            start,
            goal,
            queue,
            discovered,
            parent,
            reveal_cursor: None,
            expanded: vec![false; n],
            live_children: vec![0; n],
            finished: false,
        };
        proof {
            assert(r.queue@ =~= seq![start]);
            assert(r.discovered@[maze.index_of(start)]);
            assert forall|p: Vec2i|
                #![trigger r.parent@[maze.index_of(p)]]
                maze.contains(p) && r.discovered@[maze.index_of(p)] && p != (Vec2i { x: 0, y: 0 })
                    implies r.parent@[maze.index_of(p)] is Some && r.discovered@[maze.index_of(
                    r.parent@[maze.index_of(p)]->0,
                )] by {
                maze.lemma_contains_coords_ok(p);
                if maze.index_of(p) == maze.index_of(start) {
                    maze.lemma_index_of_injective(p, start);
                }
            }
            assert(parents_reach_start(*maze, r.discovered@, r.parent@));
            assert forall|o: MazeOverlay| #[trigger] board_ok(maze, &o) implies r.inv(maze, &o) by {
                assert forall|p: Vec2i|
                    #![trigger r.parent@[maze.index_of(p)]]
                    maze.contains(p) && r.parent@[maze.index_of(p)] is Some implies open_link(*maze, p, r.parent@[maze.index_of(p)]->0) by {
                    maze.lemma_contains_coords_ok(p);
                }
            }
        }
        r
    }
}

impl BfsSolver {
    /// What one step does to the solver and the overlay: `self` and `o0` before it,
    /// `after` and `o1` after it, `updated` the cells it returns.
    pub open spec fn step_post(self, after: Self, maze: Maze, o0: MazeOverlay, o1: MazeOverlay, updated: Seq<Vec2i>) -> bool {
        &&& (self.is_done() ==> updated.len() == 0 && o1.mark_cells()
                =~= o0.mark_cells() && o1.parent_cells() =~= o0.parent_cells() && after == self)
        &&& ((!self.is_done() && self.cursor() is Some) ==> ({
                let c = self.cursor()->0;
                &&& updated =~= seq![c]
                &&& o1.parent_cells() =~= o0.parent_cells()
                &&& o1.mark_cells() =~= o0.mark_cells().update(
                    maze.index_of(c),
                    CellMark::Solution,
                )
                &&& c == (Vec2i { x: 0, y: 0 }) ==> after.is_done()
                &&& c != (Vec2i { x: 0, y: 0 }) ==> after.cursor() == self.parents()[maze.index_of(c)]
                    && !after.is_done()
                &&& after.parents() =~= self.parents()
            }))
        &&& ((!self.is_done() && self.cursor() is None && self.pending().len() == 0)
                ==> after.is_done() && updated.len() == 0 && o1.mark_cells() =~= o0.mark_cells())
        &&& ((!self.is_done() && self.cursor() is None && self.pending().len() > 0)
                ==> ({
                let c = self.pending()[0];
                let rest = self.pending().drop_first();
                &&& !after.is_done()
                &&& after.pending().len() >= rest.len()
                &&& after.pending().take(rest.len() as int) == rest
                &&& o1.parent_cells() =~= link_parents(
                    o0.parent_cells(),
                    maze,
                    after.pending().skip(rest.len() as int),
                    c,
                )
                &&& c.x == maze.w - 1 && c.y == maze.h - 1 ==> after.cursor() == Some(c)
                    && updated =~= seq![c] && after.pending() =~= rest && !after.is_done()
                    && after.parents() =~= self.parents() && after.discovered_cells() =~= self.discovered_cells()
                &&& after.discovered_cells().len() == self.discovered_cells().len()
                &&& forall|j: int|
                    0 <= j < self.discovered_cells().len() && #[trigger] self.discovered_cells()[j]
                        ==> after.discovered_cells()[j]
                &&& forall|p: Vec2i|
                    maze.contains(p) && #[trigger] after.discovered_cells()[maze.index_of(p)]
                        && !self.discovered_cells()[maze.index_of(p)] ==> after.pending().skip(
                        rest.len() as int,
                    ).contains(p)
                &&& !(c.x == maze.w - 1 && c.y == maze.h - 1) ==> after.cursor() is None
                    && !after.is_done()
                &&& forall|p: Vec2i|
                    #[trigger] maze.contains(p) && o1.mark_at(maze.w as int, p) == CellMark::Solution
                        ==> o0.mark_at(maze.w as int, p) == CellMark::Solution
                &&& forall|i: int|
                    rest.len() <= i < after.pending().len() ==> open_link(
                        maze,
                        #[trigger] after.pending()[i],
                        c,
                    ) && after.parents()[maze.index_of(after.pending()[i])] == Some(c)
                        && !self.discovered_cells()[maze.index_of(after.pending()[i])]
                &&& !(c.x == maze.w - 1 && c.y == maze.h - 1) ==> {
                    &&& forall|d: Dir|
                        #![trigger step_toward(c, d)]
                        !maze.wall_of(c, d) && maze.contains(step_toward(c, d))
                            ==> after.discovered_cells()[maze.index_of(step_toward(c, d))]
                    &&& after.pending().len() > rest.len() ==> updated =~= seq![c]
                        && o1.mark_cells() =~= if o0.mark_at(maze.w as int, c)
                        == CellMark::Unmarked {
                        o0.mark_cells().update(maze.index_of(c), CellMark::Active)
                    } else {
                        o0.mark_cells()
                    }
                    &&& after.pending().len() == rest.len() ==> {
                        &&& (updated.len() == 0) == (o0.mark_at(maze.w as int, c)
                            == CellMark::Dead || o0.mark_at(maze.w as int, c)
                            == CellMark::Solution)
                        &&& updated.len() > 0 ==> updated[0] == c
                        &&& forall|i: int|
                            0 <= i < updated.len() ==> o1.mark_at(
                                maze.w as int,
                                #[trigger] updated[i],
                            ) == CellMark::Dead
                    }
                }
            }))
    }
}

impl SolveStrategy for BfsSolver {
    /// The board fits, every bookkeeping vector has one entry per cell, queued cells and the
    /// cursor lie in the grid, and every recorded parent is an open neighbour.
    closed spec fn inv(&self, maze: &Maze, overlay: &MazeOverlay) -> bool {
        &&& board_ok(maze, overlay)
        &&& self.start == Vec2i { x: 0, y: 0 }
        &&& self.goal.x == maze.w - 1
        &&& self.goal.y == maze.h - 1
        &&& self.discovered@.len() == maze.cell_count()
        &&& self.parent@.len() == maze.cell_count()
        &&& self.expanded@.len() == maze.cell_count()
        &&& self.live_children@.len() == maze.cell_count()
        &&& forall|i: int| 0 <= i < self.queue@.len() ==> maze.contains(#[trigger] self.queue@[i])
            && self.discovered@[maze.index_of(self.queue@[i])]
        &&& self.reveal_cursor matches Some(c) ==> maze.contains(c) && self.discovered@[maze.index_of(c)]
        &&& parents_linked(*maze, self.parent@)
        &&& parents_reach_start(*maze, self.discovered@, self.parent@)
    }

    closed spec fn is_done(&self) -> bool {
        self.finished
    }

    fn name(&self) -> (s: &'static str)
        ensures
            s@ == "BFS"@,
    {
        "BFS"
    }

    fn done(&self) -> (b: bool) {
        self.finished
    }

    /// While revealing, marks the next solution cell and moves to its parent. Otherwise
    /// expands the next queued cell: reaching the goal starts the reveal; every unexplored
    /// open neighbour is discovered, given the cell as parent, and queued; a cell with no
    /// new neighbour has its dead branch collapsed.
    #[verifier::spinoff_prover]
    #[verifier::rlimit(60)]
    fn step(&mut self, maze: &Maze, overlay: &mut MazeOverlay) -> (updated: Vec<Vec2i>)
        ensures
            old(self).step_post(*final(self), *maze, *old(overlay), *final(overlay), updated@),

    {
        if self.finished {
            return Vec::new();
        }
        if let Some(cursor) = self.reveal_cursor {
            proof {
                lemma_addressable(maze, overlay, cursor);
            }
            let (next, done) = advance_reveal(cursor, self.start, &self.parent, maze, overlay);
            self.reveal_cursor = next;
            self.finished = done;
            proof {
                assert(overlay.mark_cells().len() == old(overlay).mark_cells().len());
                if next is Some {
                    maze.lemma_contains_coords_ok(cursor);
                    assert(open_link(*maze, cursor, next->0));
                }
            }
            return vec![cursor];
        }
        let cell = match self.queue.pop_front() {
            Some(c) => c,
            None => {
                self.finished = true;
                return Vec::new();
            },
        };
        assert(maze.contains(cell)) by {
            assert(maze.contains(old(self).queue@[0]));
        }
        assert(self.discovered@[maze.index_of(cell)]) by {
            assert(maze.contains(old(self).queue@[0]));
        }
        proof {
            lemma_addressable(maze, overlay, cell);
            assert forall|i: int| 0 <= i < self.queue@.len() implies maze.contains(#[trigger] self.queue@[i])
                && self.discovered@[maze.index_of(self.queue@[i])] by {
                assert(self.queue@[i] == old(self).queue@[i + 1]);
            }
            assert(self.queue@ =~= old(self).pending().drop_first());
            assert(self.queue@.take(old(self).pending().len() - 1) =~= self.queue@);
        }
        if overlay.get(maze.w, cell) == CellMark::Unmarked {
            overlay.set(maze.w, cell, CellMark::Active);
        }
        let ghost marks1 = overlay.mark_cells();
        proof {
            assert forall|p: Vec2i|
                #[trigger] maze.contains(p) && overlay.mark_at(maze.w as int, p) == CellMark::Solution
                    implies old(overlay).mark_at(maze.w as int, p) == CellMark::Solution by {
                lemma_addressable(maze, overlay, p);
                if p != cell && maze.index_of(p) == maze.index_of(cell) {
                    maze.lemma_index_of_injective(p, cell);
                }
            }
        }
        if cell == self.goal {
            self.reveal_cursor = Some(cell);
            return vec![cell];
        }
        let ci = maze.idx(cell);
        self.expanded.set(ci, true);
        let mut spawned_children: usize = 0;
        let mut k: usize = 0;
        while k < 4
            invariant
                k <= 4,
                spawned_children <= k,
                self.inv(maze, overlay),
                self.discovered@[maze.index_of(cell)],
                !self.finished,
                self.reveal_cursor is None,
                maze.contains(cell),
                crate::types::coords_ok(cell),
                ci == maze.index_of(cell),
                old(self).pending().len() > 0,
                cell == old(self).pending()[0],
                self.queue@.len() >= old(self).pending().len() - 1,
                self.queue@.take(old(self).pending().len() - 1) == old(self).pending().drop_first(),
                forall|i: int|
                    old(self).pending().len() - 1 <= i < self.queue@.len() ==> open_link(
                        *maze,
                        #[trigger] self.queue@[i],
                        cell,
                    ) && self.parent@[maze.index_of(self.queue@[i])] == Some(cell)
                        && self.discovered@[maze.index_of(self.queue@[i])]
                        && !old(self).discovered@[maze.index_of(self.queue@[i])],
                self.queue@.len() == old(self).pending().len() - 1 + spawned_children,
                overlay.mark_cells() == marks1,
                overlay.parent_cells() == link_parents(
                    old(overlay).parent_cells(),
                    *maze,
                    self.queue@.skip(old(self).pending().len() - 1),
                    cell,
                ),
                self.discovered@.len() == old(self).discovered@.len(),
                forall|i: int|
                    0 <= i < self.discovered@.len() && #[trigger] old(self).discovered@[i]
                        ==> self.discovered@[i],
                forall|p: Vec2i|
                    maze.contains(p) && #[trigger] self.discovered@[maze.index_of(p)]
                        && !old(self).discovered@[maze.index_of(p)] ==> self.queue@.skip(
                        old(self).pending().len() - 1,
                    ).contains(p),
                forall|j: int|
                    #![trigger dir_from_index(j)]
                    0 <= j < k && !maze.wall_of(cell, dir_from_index(j)) && maze.contains(
                        step_toward(cell, dir_from_index(j)),
                    ) ==> self.discovered@[maze.index_of(step_toward(cell, dir_from_index(j)))],
            decreases 4 - k,
        {
            let dir = dir_at(k);
            let ghost k0 = k as int;
            k = k + 1;
            if maze.has_wall(cell, dir) {
                assert(dir_from_index(k0) == dir);
                continue;
            }
            let next = maze.neighbor(cell, dir);
            if !maze.in_bounds(next) {
                assert(dir_from_index(k0) == dir);
                continue;
            }
            let next_idx = maze.idx(next);
            if self.discovered[next_idx] {
                assert(dir_from_index(k0) == dir);
                continue;
            }
            proof {
                lemma_addressable(maze, overlay, next);
                assert(step_toward(next, opposite_dir(dir)) == cell);
                assert(!maze.wall_of(next, opposite_dir(dir)));
                assert(open_link(*maze, next, cell));
            }
            let ghost p0 = self.parent@;
            let ghost q0 = self.queue@;
            let ghost d0 = self.discovered@;
            let ghost op0 = overlay.parent_cells();
            self.discovered.set(next_idx, true);
            self.parent.set(next_idx, Some(cell));
            overlay.set_parent(maze.w, next, cell);
            self.queue.push_back(next);
            spawned_children = spawned_children + 1;
            proof {
                maze.lemma_contains_coords_ok(cell);
                assert(d0[maze.index_of(cell)]);
                assert(self.discovered@[maze.index_of(cell)]);
                let r0 = old(self).pending().len() - 1;
                assert(self.queue@.skip(r0).drop_last() =~= q0.skip(r0));
                assert(self.queue@.skip(r0).last() == next);
                lemma_addressable(maze, overlay, next);
                assert forall|p: Vec2i|
                    #![trigger self.parent@[maze.index_of(p)]]
                    maze.contains(p) && self.parent@[maze.index_of(p)] is Some implies open_link(*maze, p, self.parent@[maze.index_of(p)]->0) by {
                    maze.lemma_contains_coords_ok(p);
                    if maze.index_of(p) == next_idx {
                        maze.lemma_index_of_injective(p, next);
                    } else {
                        assert(p0[maze.index_of(p)] is Some);
                    }
                }
                assert forall|i: int| 0 <= i < self.queue@.len() implies maze.contains(#[trigger] self.queue@[i])
                    && self.discovered@[maze.index_of(self.queue@[i])] by {
                    if i < q0.len() {
                        assert(self.queue@[i] == q0[i]);
                        assert(d0[maze.index_of(q0[i])]);
                        maze.lemma_contains_coords_ok(q0[i]);
                    } else {
                        assert(self.queue@[i] == next);
                    }
                }
                assert forall|p: Vec2i|
                    #![trigger self.parent@[maze.index_of(p)]]
                    maze.contains(p) && self.discovered@[maze.index_of(p)] && p != (Vec2i { x: 0, y: 0 })
                        implies self.parent@[maze.index_of(p)] is Some && self.discovered@[maze.index_of(
                        self.parent@[maze.index_of(p)]->0,
                    )] by {
                    maze.lemma_contains_coords_ok(p);
                    if maze.index_of(p) == next_idx {
                        maze.lemma_index_of_injective(p, next);
                        assert(self.parent@[maze.index_of(p)] == Some(cell));
                        maze.lemma_contains_coords_ok(cell);
                        assert(self.discovered@[maze.index_of(cell)]);
                    } else {
                        assert(self.discovered@[maze.index_of(p)] == d0[maze.index_of(p)]);
                        assert(self.parent@[maze.index_of(p)] == p0[maze.index_of(p)]);
                        assert(parents_reach_start(*maze, d0, p0));
                        assert(p0[maze.index_of(p)] is Some);
                        let n = p0[maze.index_of(p)]->0;
                        assert(d0[maze.index_of(n)]);
                        assert(open_link(*maze, p, n));
                        let d = choose|d: Dir| n == #[trigger] step_toward(p, d) && maze.contains(n) && !maze.wall_of(p, d);
                        maze.lemma_contains_coords_ok(n);
                    }
                }
                assert(self.queue@.take(old(self).pending().len() - 1) =~= q0.take(old(self).pending().len() - 1));
                assert forall|i: int|
                    old(self).pending().len() - 1 <= i < self.queue@.len() implies open_link(
                        *maze,
                        #[trigger] self.queue@[i],
                        cell,
                    ) && self.parent@[maze.index_of(self.queue@[i])] == Some(cell)
                        && self.discovered@[maze.index_of(self.queue@[i])] by {
                    if i < q0.len() {
                        assert(self.queue@[i] == q0[i]);
                        maze.lemma_contains_coords_ok(q0[i]);
                        if maze.index_of(q0[i]) == next_idx {
                            maze.lemma_index_of_injective(q0[i], next);
                        }
                    } else {
                        assert(self.queue@[i] == next);
                    }
                }
                assert forall|j: int|
                    #![trigger dir_from_index(j)]
                    0 <= j < k && !maze.wall_of(cell, dir_from_index(j)) && maze.contains(
                        step_toward(cell, dir_from_index(j)),
                    ) implies self.discovered@[maze.index_of(step_toward(cell, dir_from_index(j)))] by {
                    lemma_addressable(maze, overlay, step_toward(cell, dir_from_index(j)));
                    if j == k0 {
                        assert(dir_from_index(k0) == dir);
                    } else {
                        assert(d0[maze.index_of(step_toward(cell, dir_from_index(j)))]);
                    }
                }
                assert forall|i: int|
                    0 <= i < self.discovered@.len() && #[trigger] old(self).discovered@[i]
                        implies self.discovered@[i] by {
                    assert(d0[i]);
                }
                assert forall|p: Vec2i|
                    maze.contains(p) && #[trigger] self.discovered@[maze.index_of(p)]
                        && !old(self).discovered@[maze.index_of(p)] implies self.queue@.skip(
                        old(self).pending().len() - 1,
                    ).contains(p) by {
                    let r0 = old(self).pending().len() - 1;
                    maze.lemma_contains_coords_ok(p);
                    if maze.index_of(p) == next_idx {
                        maze.lemma_index_of_injective(p, next);
                        assert(self.queue@.skip(r0).last() == p);
                    } else {
                        assert(d0[maze.index_of(p)]);
                        assert(q0.skip(r0).contains(p));
                        let j = choose|j: int| 0 <= j < q0.skip(r0).len() && q0.skip(r0)[j] == p;
                        assert(self.queue@.skip(r0)[j] == p);
                    }
                }
            }
        }
        proof {
            assert forall|d: Dir|
                #![trigger step_toward(cell, d)]
                !maze.wall_of(cell, d) && maze.contains(step_toward(cell, d))
                    implies self.discovered@[maze.index_of(step_toward(cell, d))] by {
                assert(dir_from_index(dir_index(d)) == d);
            }
            lemma_addressable(maze, old(overlay), cell);
            assert((overlay.mark_at(maze.w as int, cell) == CellMark::Dead || overlay.mark_at(
                maze.w as int,
                cell,
            ) == CellMark::Solution) == (old(overlay).mark_at(maze.w as int, cell) == CellMark::Dead
                || old(overlay).mark_at(maze.w as int, cell) == CellMark::Solution));
        }
        self.live_children.set(ci, spawned_children);
        if spawned_children == 0 {
            return self.collapse_dead_branch(maze, overlay, cell);
        }
        vec![cell]
    }
}

impl BfsSolver {
    /// Marks `start` dead and climbs its parents, marking each dead, while the parent is not
    /// the search's start, has been expanded, and (after losing this child) has no live
    /// child left; stops at a cell already dead or on the solution. Returns the cells marked.
    pub fn collapse_dead_branch(&mut self, maze: &Maze, overlay: &mut MazeOverlay, start: Vec2i) -> (updated: Vec<Vec2i>)
        requires
            old(self).inv(maze, old(overlay)),
            maze.contains(start),
        ensures
            final(self).inv(maze, final(overlay)),
            final(self).is_done() == old(self).is_done(),
            final(self).cursor() == old(self).cursor(),
            final(self).parents() == old(self).parents(),
            final(self).pending() == old(self).pending(),
            final(self).discovered_cells() == old(self).discovered_cells(),
            final(overlay).parent_cells() == old(overlay).parent_cells(),
            forall|i: int| 0 <= i < updated@.len() ==> maze.contains(#[trigger] updated@[i])
                && final(overlay).mark_at(maze.w as int, updated@[i]) == CellMark::Dead,
            final(overlay).mark_cells().len() == old(overlay).mark_cells().len(),
            forall|p: Vec2i|
                #[trigger] maze.contains(p) ==> final(overlay).mark_at(maze.w as int, p) == if updated@.contains(p) {
                    CellMark::Dead
                } else {
                    old(overlay).mark_at(maze.w as int, p)
                },
            (updated@.len() == 0) == (old(overlay).mark_at(maze.w as int, start) == CellMark::Dead
                || old(overlay).mark_at(maze.w as int, start) == CellMark::Solution),
            updated@.len() > 0 ==> updated@[0] == start,
            forall|i: int|
                0 <= i < updated@.len() - 1 ==> old(self).parents()[maze.index_of(updated@[i])]
                    == Some(#[trigger] updated@[i + 1]),
            forall|i: int|
                0 <= i < updated@.len() ==> old(overlay).mark_at(maze.w as int, #[trigger] updated@[i])
                    != CellMark::Dead && old(overlay).mark_at(maze.w as int, updated@[i])
                    != CellMark::Solution,
            final(self).expanded_cells() == old(self).expanded_cells(),
            final(self).live_children_counts().len() == old(self).live_children_counts().len(),
            forall|j: int|
                0 <= j < old(self).live_children_counts().len() ==> #[trigger] final(self).live_children_counts()[j]
                    <= old(self).live_children_counts()[j],
            forall|i: int|
                0 <= i < updated@.len() - 1 ==> #[trigger] updated@[i + 1] != (Vec2i { x: 0, y: 0 })
                    && old(self).expanded_cells()[maze.index_of(updated@[i + 1])]
                    && final(self).live_children_counts()[maze.index_of(updated@[i + 1])] == 0,
            forall|i: int|
                0 <= i < updated@.len() && #[trigger] old(self).parents()[maze.index_of(updated@[i])] is Some
                    ==> ({
                    let k = maze.index_of(old(self).parents()[maze.index_of(updated@[i])]->0);
                    final(self).live_children_counts()[k] < old(self).live_children_counts()[k]
                        || old(self).live_children_counts()[k] == 0
                }),
            collapse_stops(
                *maze,
                *old(overlay),
                old(self).parents(),
                old(self).expanded_cells(),
                final(self).live_children_counts(),
                updated@,
            ),
    {
        let mut updated: Vec<Vec2i> = Vec::new();
        let mut cursor: Option<Vec2i> = Some(start);
        let ghost n = overlay.cell_count();
        while cursor.is_some()
            invariant_except_break
                cursor is Some,
            invariant
                self.inv(maze, overlay),
                self.start == old(self).start,
                self.expanded@ == old(self).expanded@,
                updated@.len() > 0 && cursor is Some ==> cursor->0 != (Vec2i { x: 0, y: 0 })
                    && old(self).expanded@[maze.index_of(cursor->0)]
                    && self.live_children@[maze.index_of(cursor->0)] == 0,
                self.live_children@.len() == old(self).live_children@.len(),
                forall|j: int|
                    0 <= j < old(self).live_children@.len() ==> #[trigger] self.live_children@[j]
                        <= old(self).live_children@[j],
                forall|i: int|
                    0 <= i < updated@.len() - 1 ==> #[trigger] updated@[i + 1] != (Vec2i { x: 0, y: 0 })
                        && old(self).expanded@[maze.index_of(updated@[i + 1])]
                        && self.live_children@[maze.index_of(updated@[i + 1])] == 0,
                forall|i: int|
                    0 <= i < updated@.len() && #[trigger] old(self).parent@[maze.index_of(updated@[i])] is Some
                        ==> ({
                        let k = maze.index_of(old(self).parent@[maze.index_of(updated@[i])]->0);
                        self.live_children@[k] < old(self).live_children@[k] || old(self).live_children@[k] == 0
                    }),
                n == overlay.cell_count(),
                self.finished == old(self).finished,
                self.reveal_cursor == old(self).reveal_cursor,
                self.parent@ == old(self).parent@,
                self.queue@ == old(self).queue@,
                self.discovered@ == old(self).discovered@,
                overlay.parent_cells() == old(overlay).parent_cells(),
                cursor matches Some(c) ==> maze.contains(c),
                forall|i: int| 0 <= i < updated@.len() ==> maze.contains(#[trigger] updated@[i])
                    && overlay.mark_at(maze.w as int, updated@[i]) == CellMark::Dead,
                overlay.mark_cells().len() == old(overlay).mark_cells().len(),
                forall|p: Vec2i|
                    #[trigger] maze.contains(p) ==> overlay.mark_at(maze.w as int, p) == if updated@.contains(p) {
                        CellMark::Dead
                    } else {
                        old(overlay).mark_at(maze.w as int, p)
                    },
                updated@.len() == 0 ==> cursor == Some(start),
                updated@.len() > 0 ==> updated@[0] == start,
                updated@.len() > 0 && cursor is Some ==> old(self).parents()[maze.index_of(
                    updated@.last(),
                )] == cursor,
                forall|i: int|
                    0 <= i < updated@.len() - 1 ==> old(self).parents()[maze.index_of(updated@[i])]
                        == Some(#[trigger] updated@[i + 1]),
                forall|i: int|
                    0 <= i < updated@.len() ==> old(overlay).mark_at(maze.w as int, #[trigger] updated@[i])
                        != CellMark::Dead && old(overlay).mark_at(maze.w as int, updated@[i])
                        != CellMark::Solution,
                updated@.len() > 0 ==> !(old(overlay).mark_at(maze.w as int, start) == CellMark::Dead
                    || old(overlay).mark_at(maze.w as int, start) == CellMark::Solution),
            ensures
                updated@.len() == 0 ==> (old(overlay).mark_at(maze.w as int, start) == CellMark::Dead
                    || old(overlay).mark_at(maze.w as int, start) == CellMark::Solution),
                collapse_stops(
                    *maze,
                    *old(overlay),
                    old(self).parent@,
                    old(self).expanded@,
                    self.live_children@,
                    updated@,
                ),
            decreases undead_count(overlay.mark_cells(), n) + if cursor is Some { 1int } else { 0int },
        {
            let cell = cursor.unwrap();
            proof {
                lemma_addressable(maze, overlay, cell);
                lemma_undead_bounds(overlay.mark_cells(), n);
            }
            let mark = overlay.get(maze.w, cell);
            if mark == CellMark::Dead || mark == CellMark::Solution {
                break;
            }
            let ghost marks0 = overlay.mark_cells();
            let ghost mid = *overlay;
            overlay.set(maze.w, cell, CellMark::Dead);
            proof {
                lemma_undead_kill(marks0, maze.index_of(cell), CellMark::Dead, n);
                lemma_undead_bounds(overlay.mark_cells(), n);
            }
            let ghost u0 = updated@;
            updated.push(cell);
            proof {
                assert(!u0.contains(cell)) by {
                    if u0.contains(cell) {
                        let j = choose|j: int| 0 <= j < u0.len() && u0[j] == cell;
                        assert(maze.contains(u0[j]));
                    }
                }
                assert(old(overlay).mark_at(maze.w as int, cell) == mark);
                assert forall|i: int| 0 <= i < updated@.len() implies maze.contains(#[trigger] updated@[i])
                    && overlay.mark_at(maze.w as int, updated@[i]) == CellMark::Dead by {
                    if i < u0.len() {
                        assert(updated@[i] == u0[i]);
                        lemma_addressable(maze, overlay, u0[i]);
                    }
                }
                lemma_dead_marks_push(*maze, *old(overlay), mid, *overlay, u0, cell);
                assert forall|i: int| 0 <= i < updated@.len() implies old(overlay).mark_at(
                    maze.w as int,
                    #[trigger] updated@[i],
                ) != CellMark::Dead && old(overlay).mark_at(maze.w as int, updated@[i])
                    != CellMark::Solution by {
                    if i < u0.len() {
                        assert(updated@[i] == u0[i]);
                    }
                }
                assert forall|i: int| 0 <= i < updated@.len() - 1 implies old(self).parents()[maze.index_of(updated@[i])]
                    == Some(#[trigger] updated@[i + 1]) by {
                    assert(updated@[i] == u0[i]);
                    if i + 1 < u0.len() {
                        assert(updated@[i + 1] == u0[i + 1]);
                    } else {
                        assert(u0.last() == u0[i]);
                    }
                }
            }
            let parent = match self.parent[maze.idx(cell)] {
                Some(p) => p,
                None => {
                    cursor = None;
                    break;
                },
            };
            proof {
                maze.lemma_contains_coords_ok(cell);
                assert(open_link(*maze, cell, parent));
            }
            let parent_idx = maze.idx(parent);
            let ghost live_prev = self.live_children@;
            self.live_children.set(parent_idx, self.live_children[parent_idx].saturating_sub(1));
            proof {
                assert forall|j: int| 0 <= j < live_prev.len() implies #[trigger] self.live_children@[j]
                    <= live_prev[j] && (live_prev[j] == 0 ==> self.live_children@[j] == 0) by {}
                assert(self.live_children@[parent_idx as int] < old(self).live_children@[parent_idx as int]
                    || old(self).live_children@[parent_idx as int] == 0);
                assert forall|i: int|
                    0 <= i < updated@.len() - 1 implies #[trigger] updated@[i + 1] != (Vec2i { x: 0, y: 0 })
                        && old(self).expanded@[maze.index_of(updated@[i + 1])]
                        && self.live_children@[maze.index_of(updated@[i + 1])] == 0 by {
                    if i + 1 < u0.len() {
                        assert(updated@[i + 1] == u0[i + 1]);
                        assert(u0[i + 1] != (Vec2i { x: 0, y: 0 }));
                        lemma_addressable(maze, overlay, u0[i + 1]);
                    } else {
                        assert(updated@[i + 1] == cell);
                        assert(u0.len() > 0);
                    }
                }
                assert forall|i: int|
                    0 <= i < updated@.len() && #[trigger] old(self).parent@[maze.index_of(updated@[i])] is Some
                        implies ({
                        let k = maze.index_of(old(self).parent@[maze.index_of(updated@[i])]->0);
                        self.live_children@[k] < old(self).live_children@[k] || old(self).live_children@[k] == 0
                    }) by {
                    if i < u0.len() {
                        assert(updated@[i] == u0[i]);
                        let k = maze.index_of(old(self).parent@[maze.index_of(u0[i])]->0);
                        assert(live_prev[k] < old(self).live_children@[k] || old(self).live_children@[k] == 0);
                        assert(0 <= k < live_prev.len()) by {
                            lemma_addressable(maze, overlay, u0[i]);
                            maze.lemma_contains_coords_ok(u0[i]);
                            let q = old(self).parent@[maze.index_of(u0[i])]->0;
                            assert(open_link(*maze, u0[i], q));
                            maze.lemma_contains_coords_ok(q);
                        }
                    } else {
                        assert(updated@[i] == cell);
                    }
                }
            }
            if parent == self.start {
                cursor = None;
                break;
            }
            if !self.expanded[parent_idx] || self.live_children[parent_idx] > 0 {
                cursor = None;
                break;
            }
            cursor = Some(parent);
        }
        updated
    }

    /// Every recorded parent is the neighbour of its cell across an open wall, so the
    /// solution that the reveal walks back along crosses open walls only.
    pub proof fn lemma_parents_linked(&self, maze: &Maze, overlay: &MazeOverlay, p: Vec2i)
        requires
            self.inv(maze, overlay),
            maze.contains(p),
            self.parents()[maze.index_of(p)] is Some,
        ensures
            open_link(*maze, p, self.parents()[maze.index_of(p)]->0),
    {
    }
}

/// The solution marks of a breadth-first search are in order (see `solution_marks_in_order`).
pub open spec fn solution_marks_ok(s: BfsSolver, maze: Maze, o: MazeOverlay) -> bool {
    solution_marks_in_order(s.is_done(), s.cursor(), s.parents(), maze, o)
}

impl BfsSolver {
    /// A step of the reveal marks the cursor and extends the marked chain by it.
    proof fn lemma_reveal_step_keeps_solution_marks(
        self,
        after: Self,
        maze: Maze,
        o0: MazeOverlay,
        o1: MazeOverlay,
        updated: Seq<Vec2i>,
    )
        requires
            self.inv(&maze, &o0),
            !self.is_done(),
            self.cursor() is Some,
            self.step_post(after, maze, o0, o1, updated),
            solution_marks_ok(self, maze, o0),
        ensures
            solution_marks_ok(after, maze, o1),
    {
        let start = Vec2i { x: 0, y: 0 };
        let c = self.cursor()->0;
        let rev = choose|rev: Seq<Vec2i>|
            marked_chain(maze, self.parents(), rev, c) && solution_cells(maze, o0) == rev.to_set();
        lemma_solution_cells_update(maze, o0, o1, c, CellMark::Solution);
        let rev2 = rev.push(c);
        assert forall|p: Vec2i| #[trigger] rev2.to_set().contains(p) == rev.to_set().insert(c).contains(p) by {
            if rev.contains(p) {
                let i = choose|i: int| 0 <= i < rev.len() && rev[i] == p;
                assert(rev2[i] == p);
            }
            if rev2.contains(p) && p != c {
                let i = choose|i: int| 0 <= i < rev2.len() && rev2[i] == p;
                assert(rev[i] == p);
            }
            if p == c {
                assert(rev2[rev.len() as int] == c);
            }
        }
        assert(rev2.to_set() =~= rev.to_set().insert(c));
        assert forall|i: int| 0 <= i < rev2.len() implies maze.contains(#[trigger] rev2[i]) by {
            if i < rev.len() {
                assert(rev2[i] == rev[i]);
            }
        }
        assert forall|i: int| 0 <= i < rev2.len() - 1 implies open_link(maze, #[trigger] rev2[i], rev2[i + 1]) by {
            if i < rev.len() - 1 {
                assert(rev2[i] == rev[i] && rev2[i + 1] == rev[i + 1]);
            } else {
                assert(rev2[i] == rev.last() && rev2[i + 1] == c);
            }
        }
        if c == start {
            assert(goal_to_start_path(maze, rev2));
        } else {
            assert(self.parents()[maze.index_of(c)] is Some);
            let n = self.parents()[maze.index_of(c)]->0;
            assert(open_link(maze, c, n));
            assert(marked_chain(maze, after.parents(), rev2, n));
        }
    }

    /// A step of the search marks no cell as part of the solution.
    proof fn lemma_search_step_keeps_solution_marks(
        self,
        after: Self,
        maze: Maze,
        o0: MazeOverlay,
        o1: MazeOverlay,
        updated: Seq<Vec2i>,
    )
        requires
            self.inv(&maze, &o0),
            !self.is_done(),
            self.cursor() is None,
            self.step_post(after, maze, o0, o1, updated),
            solution_marks_ok(self, maze, o0),
        ensures
            solution_marks_ok(after, maze, o1),
    {
        let goal = Vec2i { x: (maze.w - 1) as i32, y: (maze.h - 1) as i32 };
        if self.pending().len() == 0 {
            assert(solution_cells(maze, o1) =~= solution_cells(maze, o0));
        } else {
            let c = self.pending()[0];
            assert(maze.contains(c));
            if c.x == maze.w - 1 && c.y == maze.h - 1 {
                assert forall|p: Vec2i| !#[trigger] solution_cells(maze, o1).contains(p) by {
                    if maze.contains(p) && o1.mark_at(maze.w as int, p) == CellMark::Solution {
                        assert(o0.mark_at(maze.w as int, p) == CellMark::Solution);
                        assert(solution_cells(maze, o0).contains(p));
                    }
                }
                assert(solution_cells(maze, o1) =~= Set::<Vec2i>::empty());
                assert(c == goal);
                assert(marked_chain(maze, after.parents(), Seq::<Vec2i>::empty(), c));
                assert(Seq::<Vec2i>::empty().to_set() =~= Set::<Vec2i>::empty());
            } else {
                assert forall|p: Vec2i| !#[trigger] solution_cells(maze, o1).contains(p) by {
                    if maze.contains(p) && o1.mark_at(maze.w as int, p) == CellMark::Solution {
                        assert(o0.mark_at(maze.w as int, p) == CellMark::Solution);
                        assert(solution_cells(maze, o0).contains(p));
                    }
                }
                assert(solution_cells(maze, o1) =~= Set::<Vec2i>::empty());
            }
        }
    }

    /// One step keeps the solution marks in order (see `solution_marks_ok`).
    proof fn lemma_step_keeps_solution_marks(
        self,
        after: Self,
        maze: Maze,
        o0: MazeOverlay,
        o1: MazeOverlay,
        updated: Seq<Vec2i>,
    )
        requires
            self.inv(&maze, &o0),
            self.step_post(after, maze, o0, o1, updated),
            solution_marks_ok(self, maze, o0),
        ensures
            solution_marks_ok(after, maze, o1),
    {
        if self.is_done() {
            assert(solution_cells(maze, o1) =~= solution_cells(maze, o0));
        } else if self.cursor() is Some {
            self.lemma_reveal_step_keeps_solution_marks(after, maze, o0, o1, updated);
        } else {
            self.lemma_search_step_keeps_solution_marks(after, maze, o0, o1, updated);
        }
    }
}

/// Along a run of breadth-first search steps begun with nothing revealed, the solution marks stay in
/// order (see `solution_marks_ok`).
proof fn lemma_bfs_run_keeps_solution_marks(maze: Maze, states: Seq<(Solver, MazeOverlay)>, outs: Seq<Seq<Vec2i>>)
    requires
        solve_run(maze, states, outs),
        forall|i: int|
            0 <= i < states.len() ==> (#[trigger] states[i]).0 is Bfs && states[i].0.inv(&maze, &states[i].1),
        states[0].0 matches Solver::Bfs(f) && f.cursor() is None,
        solution_cells(maze, states[0].1) == Set::<Vec2i>::empty(),
    ensures
        states.last().0 matches Solver::Bfs(f) && solution_marks_ok(f, maze, states.last().1),
    decreases outs.len(),
{
    if outs.len() == 0 {
        assert(states.last() == states[0]);
    } else {
        let k = outs.len() - 1;
        let prefix = states.drop_last();
        assert(prefix[0] == states[0]);
        assert forall|i: int| 0 <= i < prefix.len() implies (#[trigger] prefix[i]).0 is Bfs && prefix[i].0.inv(
            &maze,
            &prefix[i].1,
        ) by {
            assert(prefix[i] == states[i]);
        }
        lemma_bfs_run_keeps_solution_marks(maze, prefix, outs.drop_last());
        assert(prefix.last() == states[k]);
        assert(states[k].0 is Bfs && states[k + 1].0 is Bfs);
        if let Solver::Bfs(a) = states[k].0 {
            if let Solver::Bfs(b) = states[k + 1].0 {
                a.lemma_step_keeps_solution_marks(b, maze, states[k].1, states[k + 1].1, outs[k]);
            }
        }
    }
}

/// Breadth-first search marks a solution path: once a run of its steps, begun on an overlay with no
/// cell marked as solution and before any reveal, is done, the cells marked as solution are
/// either none (the goal was not reached) or exactly the cells of a path from the goal to the
/// start that crosses open walls only.
pub proof fn lemma_bfs_run_marks_a_solution_path(
    maze: Maze,
    states: Seq<(Solver, MazeOverlay)>,
    outs: Seq<Seq<Vec2i>>,
)
    requires
        solve_run(maze, states, outs),
        forall|i: int|
            0 <= i < states.len() ==> (#[trigger] states[i]).0 is Bfs && states[i].0.inv(&maze, &states[i].1),
        states[0].0 matches Solver::Bfs(f) && f.cursor() is None,
        solution_cells(maze, states[0].1) == Set::<Vec2i>::empty(),
        states.last().0.is_done(),
    ensures
        solution_cells(maze, states.last().1) == Set::<Vec2i>::empty() || exists|path: Seq<Vec2i>|
            goal_to_start_path(maze, path) && solution_cells(maze, states.last().1) == path.to_set(),
{
    lemma_bfs_run_keeps_solution_marks(maze, states, outs);
}

/// What a breadth-first search knows about reaching the goal: while searching, the
/// discovered cells other than the queued ones have every open neighbour discovered, the start is discovered, and
/// a discovered goal is still queued; once done, some cell is marked as solution or no walk leads from
/// the start to the goal.
pub open spec fn bfs_reach_ok(s: BfsSolver, maze: Maze, o: MazeOverlay) -> bool {
    let start = Vec2i { x: 0, y: 0 };
    let goal = Vec2i { x: (maze.w - 1) as i32, y: (maze.h - 1) as i32 };
    &&& (!s.is_done() && s.cursor() is None) ==> {
        &&& closed_except(maze, s.discovered_cells(), s.pending())
        &&& s.discovered_cells()[maze.index_of(start)]
        &&& s.discovered_cells()[maze.index_of(goal)] ==> s.pending().contains(goal)
    }
    &&& s.is_done() ==> solution_cells(maze, o) != Set::<Vec2i>::empty() || !joined(maze, start, goal)
}

impl BfsSolver {
    /// One step keeps `bfs_reach_ok`.
    proof fn lemma_step_keeps_reach(
        self,
        after: Self,
        maze: Maze,
        o0: MazeOverlay,
        o1: MazeOverlay,
        updated: Seq<Vec2i>,
    )
        requires
            self.inv(&maze, &o0),
            self.step_post(after, maze, o0, o1, updated),
            bfs_reach_ok(self, maze, o0),
        ensures
            bfs_reach_ok(after, maze, o1),
    {
        let start = Vec2i { x: 0, y: 0 };
        let goal = Vec2i { x: (maze.w - 1) as i32, y: (maze.h - 1) as i32 };
        if self.is_done() {
            assert(solution_cells(maze, o1) =~= solution_cells(maze, o0));
        } else if self.cursor() is Some {
            let c = self.cursor()->0;
            lemma_solution_cells_update(maze, o0, o1, c, CellMark::Solution);
            assert(solution_cells(maze, o1).contains(c));
            if c != start {
                assert(self.parents()[maze.index_of(c)] is Some);
            }
        } else if self.pending().len() == 0 {
            assert(self.pending() =~= Seq::<Vec2i>::empty());
            if joined(maze, start, goal) {
                let n = choose|n: nat| walk(maze, start, goal, n);
                lemma_closed_reaches(maze, self.discovered_cells(), start, goal, n);
                assert(false);
            }
        } else {
            let c = self.pending()[0];
            let rest = self.pending().drop_first();
            let v = self.discovered_cells();
            let v1 = after.discovered_cells();
            let p1 = after.pending();
            if !(c.x == maze.w - 1 && c.y == maze.h - 1) {
                assert forall|q: Vec2i| #[trigger] rest.contains(q) implies p1.contains(q) by {
                    let j = choose|j: int| 0 <= j < rest.len() && rest[j] == q;
                    assert(p1.take(rest.len() as int)[j] == q);
                    assert(p1[j] == q);
                }
                assert forall|q: Vec2i| #[trigger] p1.skip(rest.len() as int).contains(q) implies p1.contains(q) by {
                    let j = choose|j: int| 0 <= j < p1.skip(rest.len() as int).len() && p1.skip(rest.len() as int)[j] == q;
                    assert(p1[rest.len() + j] == q);
                }
                assert forall|q: Vec2i| #[trigger] self.pending().contains(q) && q != c implies rest.contains(q) by {
                    let j = choose|j: int| 0 <= j < self.pending().len() && self.pending()[j] == q;
                    assert(rest[j - 1] == q);
                }
                assert forall|q: Vec2i, d: Dir|
                    #![trigger v1[maze.index_of(q)], step_toward(q, d)]
                    maze.contains(q) && v1[maze.index_of(q)] && !p1.contains(q) && !maze.wall_of(q, d) && maze.contains(
                        step_toward(q, d),
                    ) implies v1[maze.index_of(step_toward(q, d))] by {
                    maze.lemma_contains_coords_ok(q);
                    maze.lemma_contains_coords_ok(step_toward(q, d));
                    if q != c {
                        if !v[maze.index_of(q)] {
                            assert(p1.skip(rest.len() as int).contains(q));
                        }
                        assert(!self.pending().contains(q));
                        assert(v[maze.index_of(step_toward(q, d))]);
                    }
                }
                maze.lemma_contains_coords_ok(start);
                maze.lemma_contains_coords_ok(goal);
                if v1[maze.index_of(goal)] {
                    if v[maze.index_of(goal)] {
                        assert(self.pending().contains(goal));
                        assert(rest.contains(goal));
                    } else {
                        assert(p1.skip(rest.len() as int).contains(goal));
                    }
                }
            }
        }
    }
}

/// Along a run of breadth-first search steps begun in a state where `bfs_reach_ok` holds, it keeps
/// holding.
proof fn lemma_bfs_run_keeps_reach(maze: Maze, states: Seq<(Solver, MazeOverlay)>, outs: Seq<Seq<Vec2i>>)
    requires
        solve_run(maze, states, outs),
        forall|i: int|
            0 <= i < states.len() ==> (#[trigger] states[i]).0 is Bfs && states[i].0.inv(&maze, &states[i].1),
        states[0].0 matches Solver::Bfs(f) && bfs_reach_ok(f, maze, states[0].1),
    ensures
        states.last().0 matches Solver::Bfs(f) && bfs_reach_ok(f, maze, states.last().1),
    decreases outs.len(),
{
    if outs.len() == 0 {
        assert(states.last() == states[0]);
    } else {
        let k = outs.len() - 1;
        let prefix = states.drop_last();
        assert(prefix[0] == states[0]);
        assert forall|i: int| 0 <= i < prefix.len() implies (#[trigger] prefix[i]).0 is Bfs && prefix[i].0.inv(
            &maze,
            &prefix[i].1,
        ) by {
            assert(prefix[i] == states[i]);
        }
        lemma_bfs_run_keeps_reach(maze, prefix, outs.drop_last());
        assert(prefix.last() == states[k]);
        assert(states[k].0 is Bfs && states[k + 1].0 is Bfs);
        if let Solver::Bfs(a) = states[k].0 {
            if let Solver::Bfs(b) = states[k + 1].0 {
                a.lemma_step_keeps_reach(b, maze, states[k].1, states[k + 1].1, outs[k]);
            }
        }
    }
}

/// Breadth-first search finds the goal whenever it can be reached: once a run of its
/// steps, begun from a fresh search (only the start discovered and queued, nothing revealed) on an overlay
/// with no cell marked as solution, is done, and some walk through open walls leads from
/// the start to the goal, the cells marked as solution are exactly those of a path from the
/// goal to the start through open walls.
pub proof fn lemma_bfs_run_marks_a_path_when_the_goal_is_reachable(
    maze: Maze,
    states: Seq<(Solver, MazeOverlay)>,
    outs: Seq<Seq<Vec2i>>,
)
    requires
        solve_run(maze, states, outs),
        forall|i: int|
            0 <= i < states.len() ==> (#[trigger] states[i]).0 is Bfs && states[i].0.inv(&maze, &states[i].1),
        states[0].0 matches Solver::Bfs(f) && f.cursor() is None && !f.is_done() && f.pending() == seq![
            Vec2i { x: 0, y: 0 },
        ] && forall|i: int| 0 <= i < f.discovered_cells().len() ==> f.discovered_cells()[i] == (i == 0),
        solution_cells(maze, states[0].1) == Set::<Vec2i>::empty(),
        states.last().0.is_done(),
        joined(maze, Vec2i { x: 0, y: 0 }, Vec2i { x: (maze.w - 1) as i32, y: (maze.h - 1) as i32 }),
    ensures
        exists|path: Seq<Vec2i>|
            goal_to_start_path(maze, path) && solution_cells(maze, states.last().1) == path.to_set(),
{
    let start = Vec2i { x: 0, y: 0 };
    if let Solver::Bfs(f) = states[0].0 {
        assert(states[0].0.inv(&maze, &states[0].1));
        assert(maze.wf() && maze.cell_count() >= 1 && f.discovered_cells().len() == maze.cell_count());
        maze.lemma_contains_coords_ok(start);
        maze.lemma_origin_index();
        let v = f.discovered_cells();
        assert forall|p: Vec2i, d: Dir|
            #![trigger v[maze.index_of(p)], step_toward(p, d)]
            maze.contains(p) && v[maze.index_of(p)] && !f.pending().contains(p) && !maze.wall_of(p, d)
                && maze.contains(step_toward(p, d)) implies v[maze.index_of(step_toward(p, d))] by {
            maze.lemma_contains_coords_ok(p);
            maze.lemma_index_of_injective(p, start);
            assert(f.pending()[0] == p);
        }
        let goal = Vec2i { x: (maze.w - 1) as i32, y: (maze.h - 1) as i32 };
        maze.lemma_contains_coords_ok(goal);
        if v[maze.index_of(goal)] {
            maze.lemma_index_of_injective(goal, start);
            assert(f.pending()[0] == goal);
        }
        assert(bfs_reach_ok(f, maze, states[0].1));
    }
    lemma_bfs_run_keeps_reach(maze, states, outs);
    lemma_bfs_run_keeps_solution_marks(maze, states, outs);
}

} // verus!
