use std::collections::VecDeque;

use vstd::prelude::*;

use super::{SolveStrategy, Solver, board_ok, closed_except, goal_to_start_path, lemma_closed_reaches, lemma_addressable, lemma_solution_cells_update, link_parents, marked_chain, open_link, parents_linked, parents_reach_start, solution_cells, solution_marks_in_order};
use crate::session::solve_run;
use crate::forest::{joined, walk};
use crate::types::{CellMark, Dir, Maze, MazeOverlay, Vec2i, dir_at, dir_from_index, dir_index, opposite_dir, step_toward};

verus! {

/// Breadth-first flood from the top-left cell that marks every cell active as soon as it is
/// reached, and walks the parents back from the bottom-right cell once it is dequeued.
pub struct FloodFillSolver {
    start: Vec2i,
    goal: Vec2i,
    queue: VecDeque<Vec2i>,
    visited: Vec<bool>,
    parent: Vec<Option<Vec2i>>,
    reveal_cursor: Option<Vec2i>,
    finished: bool,
}

impl FloodFillSolver {
    pub closed spec fn parents(&self) -> Seq<Option<Vec2i>> {
        self.parent@
    }

    pub closed spec fn cursor(&self) -> Option<Vec2i> {
        self.reveal_cursor
    }

    pub closed spec fn pending(&self) -> Seq<Vec2i> {
        self.queue@
    }

    pub closed spec fn visited_cells(&self) -> Seq<bool> {
        self.visited@
    }

    /// A flood that has reached only the top-left cell and queued it.
    pub fn new(maze: &Maze) -> (r: Self)
        requires
            maze.wf(),
            maze.w >= 1,
            maze.h >= 1,
        ensures
            r.pending() == seq![Vec2i { x: 0, y: 0 }],
            forall|i: int| 0 <= i < maze.cell_count() ==> #[trigger] r.visited_cells()[i] == (i == 0),
            forall|i: int| 0 <= i < maze.cell_count() ==> #[trigger] r.parents()[i] is None,
            r.cursor() is None,
            !r.is_done(),
            forall|o: MazeOverlay| #[trigger] board_ok(maze, &o) ==> r.inv(maze, &o),
    {
        let start = Vec2i { x: 0, y: 0 };
        let goal = maze.goal();
        proof {
            maze.lemma_contains_coords_ok(start);
            maze.lemma_origin_index();
        }
        let n = maze.w * maze.h;
        let mut visited = vec![false; n];
        assert(forall|i: int| 0 <= i < n ==> !visited@[i]);
        visited.set(maze.idx(start), true);
        let mut queue = VecDeque::new();
        queue.push_back(start);
        let parent: Vec<Option<Vec2i>> = vec![None; n];
        assert(forall|i: int| 0 <= i < n ==> parent@[i] is None);
        let r = Self { start, goal, queue, visited, parent, reveal_cursor: None, finished: false };
        proof {
            assert(r.queue@ =~= seq![start]);
            assert(r.visited@[maze.index_of(start)]);
            assert forall|p: Vec2i|
                #![trigger r.parent@[maze.index_of(p)]]
                maze.contains(p) && r.visited@[maze.index_of(p)] && p != (Vec2i { x: 0, y: 0 })
                    implies r.parent@[maze.index_of(p)] is Some && r.visited@[maze.index_of(
                    r.parent@[maze.index_of(p)]->0,
                )] by {
                maze.lemma_contains_coords_ok(p);
                if maze.index_of(p) == maze.index_of(start) {
                    maze.lemma_index_of_injective(p, start);
                }
            }
            assert(parents_reach_start(*maze, r.visited@, r.parent@));
            assert forall|o: MazeOverlay| #[trigger] board_ok(maze, &o) implies r.inv(maze, &o) by {
                assert forall|p: Vec2i|
                    #![trigger r.parent@[maze.index_of(p)]]
                    maze.contains(p) && r.parent@[maze.index_of(p)] is Some implies open_link(
                        *maze,
                        p,
                        r.parent@[maze.index_of(p)]->0,
                    ) by {
                    maze.lemma_contains_coords_ok(p);
                }
            }
        }
        r
    }
}

impl FloodFillSolver {
    /// What one step does to the solver and the overlay: `self` and `o0` before it,
    /// `after` and `o1` after it, `updated` the cells it returns.
    pub open spec fn step_post(self, after: Self, maze: Maze, o0: MazeOverlay, o1: MazeOverlay, updated: Seq<Vec2i>) -> bool {
        &&& (self.is_done() ==> updated.len() == 0 && o1.mark_cells()
                =~= o0.mark_cells() && o1.parent_cells() =~= o0.parent_cells() && after == self)
        &&& ((!self.is_done() && self.cursor() is Some) ==> ({
                let c = self.cursor()->0;
                &&& updated =~= seq![c]
                &&& o1.parent_cells() =~= o0.parent_cells()
                &&& o1.mark_cells() =~= o0.mark_cells().update(
                    maze.index_of(c),
                    CellMark::Solution,
                )
                &&& c == (Vec2i { x: 0, y: 0 }) ==> after.is_done() && after.cursor() is None
                &&& c != (Vec2i { x: 0, y: 0 }) ==> after.cursor() == self.parents()[maze.index_of(c)]
                    && !after.is_done()
                &&& after.parents() =~= self.parents()
            }))
        &&& ((!self.is_done() && self.cursor() is None && self.pending().len() == 0)
                ==> after.is_done() && updated.len() == 0 && o1.mark_cells() =~= o0.mark_cells())
        &&& ((!self.is_done() && self.cursor() is None && self.pending().len() > 0)
                ==> ({
                let c = self.pending()[0];
                &&& updated.len() >= 1
                &&& updated[0] == c
                &&& o1.parent_cells() =~= link_parents(o0.parent_cells(), maze, updated.drop_first(), c)
                &&& c.x == maze.w - 1 && c.y == maze.h - 1 ==> after.cursor() == Some(c)
                    && o1.mark_cells() =~= o0.mark_cells() && !after.is_done()
                    && after.parents() =~= self.parents() && after.visited_cells() =~= self.visited_cells()
                &&& after.visited_cells().len() == self.visited_cells().len()
                &&& forall|j: int|
                    0 <= j < self.visited_cells().len() && #[trigger] self.visited_cells()[j]
                        ==> after.visited_cells()[j]
                &&& forall|p: Vec2i|
                    maze.contains(p) && #[trigger] after.visited_cells()[maze.index_of(p)]
                        && !self.visited_cells()[maze.index_of(p)] ==> updated.contains(p)
                &&& forall|i: int| 1 <= i < updated.len() ==> open_link(maze, #[trigger] updated[i], c)
                    && o1.mark_at(maze.w as int, updated[i]) == CellMark::Active
                    && after.parents()[maze.index_of(updated[i])] == Some(c)
                    && !self.visited_cells()[maze.index_of(updated[i])]
                &&& !(c.x == maze.w - 1 && c.y == maze.h - 1) ==> {
                    &&& after.cursor() is None
                    &&& !after.is_done()
                    &&& after.pending() =~= self.pending().drop_first() + updated.drop_first()
                    &&& forall|d: Dir|
                        #![trigger step_toward(c, d)]
                        !maze.wall_of(c, d) && maze.contains(step_toward(c, d))
                            ==> after.visited_cells()[maze.index_of(step_toward(c, d))]
                    &&& o1.mark_at(maze.w as int, c) == if o0.mark_at(
                        maze.w as int,
                        c,
                    ) == CellMark::Unmarked {
                        CellMark::Active
                    } else {
                        o0.mark_at(maze.w as int, c)
                    }
                    &&& forall|p: Vec2i|
                        #[trigger] maze.contains(p) && p != c && !updated.contains(p)
                            ==> o1.mark_at(maze.w as int, p) == o0.mark_at(maze.w as int, p)
                }
            }))
    }
}

impl SolveStrategy for FloodFillSolver {
    /// The board fits, every bookkeeping vector has one entry per cell, queued cells and the
    /// cursor lie in the grid, and every recorded parent is an open neighbour.
    closed spec fn inv(&self, maze: &Maze, overlay: &MazeOverlay) -> bool {
        &&& board_ok(maze, overlay)
        &&& self.start == Vec2i { x: 0, y: 0 }
        &&& self.goal.x == maze.w - 1
        &&& self.goal.y == maze.h - 1
        &&& self.visited@.len() == maze.cell_count()
        &&& self.parent@.len() == maze.cell_count()
        &&& forall|i: int| 0 <= i < self.queue@.len() ==> maze.contains(#[trigger] self.queue@[i])
            && self.visited@[maze.index_of(self.queue@[i])]
        &&& self.reveal_cursor matches Some(c) ==> maze.contains(c) && self.visited@[maze.index_of(c)]
        &&& parents_linked(*maze, self.parent@)
        &&& parents_reach_start(*maze, self.visited@, self.parent@)
    }

    closed spec fn is_done(&self) -> bool {
        self.finished
    }

    fn name(&self) -> (s: &'static str)
        ensures
            s@ == "Flood Fill"@,
    {
        "Flood Fill"
    }

    fn done(&self) -> (b: bool) {
        self.finished
    }

    /// While revealing, marks the next solution cell and moves to its parent. Otherwise takes
    /// the next queued cell: the goal starts the reveal; any other cell is marked active if
    /// unmarked, and each open neighbour not reached yet is reached, given the cell as parent,
    /// marked active and queued. Returns the cell and the neighbours reached.
    #[verifier::rlimit(40)]
    fn step(&mut self, maze: &Maze, overlay: &mut MazeOverlay) -> (updated: Vec<Vec2i>)
        ensures
            old(self).step_post(*final(self), *maze, *old(overlay), *final(overlay), updated@),

    {
        if self.finished {
            return Vec::new();
        }
        if let Some(cursor) = self.reveal_cursor {
            proof {
                lemma_addressable(maze, overlay, cursor);
                maze.lemma_contains_coords_ok(cursor);
            }
            overlay.set(maze.w, cursor, CellMark::Solution);
            if cursor == self.start {
                self.reveal_cursor = None;
                self.finished = true;
            } else {
                self.reveal_cursor = self.parent[maze.idx(cursor)];
                proof {
                    if self.reveal_cursor is Some {
                        assert(open_link(*maze, cursor, self.reveal_cursor->0));
                    }
                }
            }
            return vec![cursor];
        }
        let cell = match self.queue.pop_front() {
            Some(c) => c,
            None => {
                self.finished = true;
                return Vec::new();
            },
        };
        assert(maze.contains(cell) && self.visited@[maze.index_of(cell)]) by {
            assert(maze.contains(old(self).queue@[0]));
        }
        proof {
            lemma_addressable(maze, overlay, cell);
            maze.lemma_contains_coords_ok(cell);
            assert forall|i: int| 0 <= i < self.queue@.len() implies maze.contains(
                #[trigger] self.queue@[i],
            ) by {
                assert(self.queue@[i] == old(self).queue@[i + 1]);
            }
        }
        if cell == self.goal {
            self.reveal_cursor = Some(cell);
            return vec![cell];
        }
        if overlay.get(maze.w, cell) == CellMark::Unmarked {
            overlay.set(maze.w, cell, CellMark::Active);
        }
        let ghost marks1 = *overlay;
        let mut updated: Vec<Vec2i> = vec![cell];
        proof {
            assert(self.queue@ =~= old(self).pending().drop_first() + updated@.drop_first());
            assert forall|p: Vec2i|
                #[trigger] maze.contains(p) && p != cell implies overlay.mark_at(maze.w as int, p)
                == old(overlay).mark_at(maze.w as int, p) by {
                lemma_addressable(maze, overlay, p);
                if maze.index_of(p) == maze.index_of(cell) {
                    maze.lemma_index_of_injective(p, cell);
                }
            }
        }
        let mut k: usize = 0;
        while k < 4
            invariant
                k <= 4,
                self.inv(maze, overlay),
                self.visited@[maze.index_of(cell)],
                !self.finished,
                self.reveal_cursor is None,
                maze.contains(cell),
                crate::types::coords_ok(cell),
                updated@.len() >= 1,
                updated@[0] == cell,
                cell.x != maze.w - 1 || cell.y != maze.h - 1,
                forall|i: int| 1 <= i < updated@.len() ==> open_link(*maze, #[trigger] updated@[i], cell)
                    && maze.contains(updated@[i])
                    && overlay.mark_at(maze.w as int, updated@[i]) == CellMark::Active
                    && self.parent@[maze.index_of(updated@[i])] == Some(cell)
                    && !old(self).visited@[maze.index_of(updated@[i])],
                self.queue@ == old(self).pending().drop_first() + updated@.drop_first(),
                overlay.parent_cells() == link_parents(
                    old(overlay).parent_cells(),
                    *maze,
                    updated@.drop_first(),
                    cell,
                ),
                self.visited@.len() == old(self).visited@.len(),
                forall|i: int|
                    0 <= i < self.visited@.len() && #[trigger] old(self).visited@[i] ==> self.visited@[i],
                forall|p: Vec2i|
                    maze.contains(p) && #[trigger] self.visited@[maze.index_of(p)]
                        && !old(self).visited@[maze.index_of(p)] ==> updated@.contains(p),
                forall|j: int|
                    #![trigger dir_from_index(j)]
                    0 <= j < k && !maze.wall_of(cell, dir_from_index(j)) && maze.contains(
                        step_toward(cell, dir_from_index(j)),
                    ) ==> self.visited@[maze.index_of(step_toward(cell, dir_from_index(j)))],
                overlay.mark_at(maze.w as int, cell) == marks1.mark_at(maze.w as int, cell),
                forall|p: Vec2i|
                    #[trigger] maze.contains(p) && p != cell && !updated@.contains(p)
                        ==> overlay.mark_at(maze.w as int, p) == old(overlay).mark_at(maze.w as int, p),
            decreases 4 - k,
        {
            let dir = dir_at(k);
            let ghost k0 = k as int;
            k = k + 1;
            if maze.has_wall(cell, dir) {
                assert(dir_from_index(k0) == dir);
                continue;
            }
            let next = maze.neighbor(cell, dir);
            if !maze.in_bounds(next) {
                assert(dir_from_index(k0) == dir);
                continue;
            }
            let next_idx = maze.idx(next);
            if self.visited[next_idx] {
                assert(dir_from_index(k0) == dir);
                continue;
            }
            proof {
                lemma_addressable(maze, overlay, next);
                assert(step_toward(next, opposite_dir(dir)) == cell);
                assert(!maze.wall_of(next, opposite_dir(dir)));
                assert(open_link(*maze, next, cell));
            }
            let ghost p0 = self.parent@;
            let ghost q0 = self.queue@;
            let ghost u0 = updated@;
            let ghost m0 = overlay.mark_cells();
            let ghost o0 = *overlay;
            let ghost v0 = self.visited@;
            self.visited.set(next_idx, true);
            self.parent.set(next_idx, Some(cell));
            overlay.set_parent(maze.w, next, cell);
            overlay.set(maze.w, next, CellMark::Active);
            self.queue.push_back(next);
            updated.push(next);
            proof {
                assert(updated@.drop_first().drop_last() =~= u0.drop_first());
                assert(updated@.drop_first().last() == next);
                lemma_addressable(maze, &o0, next);
                assert forall|p: Vec2i|
                    #![trigger self.parent@[maze.index_of(p)]]
                    maze.contains(p) && self.parent@[maze.index_of(p)] is Some implies open_link(
                        *maze,
                        p,
                        self.parent@[maze.index_of(p)]->0,
                    ) by {
                    maze.lemma_contains_coords_ok(p);
                    if maze.index_of(p) == next_idx {
                        maze.lemma_index_of_injective(p, next);
                    } else {
                        assert(p0[maze.index_of(p)] is Some);
                    }
                }
                assert forall|i: int| 0 <= i < self.queue@.len() implies maze.contains(
                    #[trigger] self.queue@[i],
                ) && self.visited@[maze.index_of(self.queue@[i])] by {
                    if i < q0.len() {
                        assert(self.queue@[i] == q0[i]);
                        assert(v0[maze.index_of(q0[i])]);
                        maze.lemma_contains_coords_ok(q0[i]);
                    } else {
                        assert(self.queue@[i] == next);
                    }
                }
                assert forall|p: Vec2i|
                    #![trigger self.parent@[maze.index_of(p)]]
                    maze.contains(p) && self.visited@[maze.index_of(p)] && p != (Vec2i { x: 0, y: 0 })
                        implies self.parent@[maze.index_of(p)] is Some && self.visited@[maze.index_of(
                        self.parent@[maze.index_of(p)]->0,
                    )] by {
                    maze.lemma_contains_coords_ok(p);
                    if maze.index_of(p) == next_idx {
                        maze.lemma_index_of_injective(p, next);
                        assert(self.parent@[maze.index_of(p)] == Some(cell));
                        maze.lemma_contains_coords_ok(cell);
                        assert(self.visited@[maze.index_of(cell)]);
                    } else {
                        assert(self.visited@[maze.index_of(p)] == v0[maze.index_of(p)]);
                        assert(self.parent@[maze.index_of(p)] == p0[maze.index_of(p)]);
                        assert(parents_reach_start(*maze, v0, p0));
                        assert(p0[maze.index_of(p)] is Some);
                        let n = p0[maze.index_of(p)]->0;
                        assert(v0[maze.index_of(n)]);
                        assert(open_link(*maze, p, n));
                        let d = choose|d: Dir| n == #[trigger] step_toward(p, d) && maze.contains(n) && !maze.wall_of(p, d);
                        maze.lemma_contains_coords_ok(n);
                    }
                }
                assert forall|i: int| 1 <= i < updated@.len() implies open_link(
                    *maze,
                    #[trigger] updated@[i],
                    cell,
                ) && maze.contains(updated@[i]) && overlay.mark_at(maze.w as int, updated@[i])
                    == CellMark::Active && self.parent@[maze.index_of(updated@[i])] == Some(cell) by {
                    if i < u0.len() {
                        assert(updated@[i] == u0[i]);
                        lemma_addressable(maze, overlay, u0[i]);
                        maze.lemma_contains_coords_ok(u0[i]);
                        maze.lemma_contains_coords_ok(next);
                        if maze.index_of(u0[i]) == next_idx {
                            maze.lemma_index_of_injective(u0[i], next);
                        }
                    } else {
                        assert(updated@[i] == next);
                    }
                }
                assert(self.queue@ =~= old(self).pending().drop_first() + updated@.drop_first()) by {
                    assert(updated@.drop_first() =~= u0.drop_first().push(next));
                }
                assert forall|j: int|
                    #![trigger dir_from_index(j)]
                    0 <= j < k && !maze.wall_of(cell, dir_from_index(j)) && maze.contains(
                        step_toward(cell, dir_from_index(j)),
                    ) implies self.visited@[maze.index_of(step_toward(cell, dir_from_index(j)))] by {
                    lemma_addressable(maze, overlay, step_toward(cell, dir_from_index(j)));
                    if j == k0 {
                        assert(dir_from_index(k0) == dir);
                    } else {
                        assert(v0[maze.index_of(step_toward(cell, dir_from_index(j)))]);
                    }
                }
                assert forall|p: Vec2i|
                    maze.contains(p) && #[trigger] self.visited@[maze.index_of(p)]
                        && !old(self).visited@[maze.index_of(p)] implies updated@.contains(p) by {
                    maze.lemma_contains_coords_ok(p);
                    if maze.index_of(p) == next_idx {
                        maze.lemma_index_of_injective(p, next);
                        assert(updated@[updated@.len() - 1] == next);
                    } else {
                        assert(v0[maze.index_of(p)]);
                        assert(u0.contains(p));
                        let j = choose|j: int| 0 <= j < u0.len() && u0[j] == p;
                        assert(updated@[j] == p);
                    }
                }
                assert forall|i: int|
                    0 <= i < self.visited@.len() && #[trigger] old(self).visited@[i] implies self.visited@[i] by {
                    assert(v0[i]);
                }
                assert(next != cell);
                lemma_addressable(maze, overlay, cell);
                assert(maze.index_of(next) != maze.index_of(cell)) by {
                    if maze.index_of(next) == maze.index_of(cell) {
                        maze.lemma_index_of_injective(next, cell);
                    }
                }
                assert forall|p: Vec2i|
                    #[trigger] maze.contains(p) && p != cell && !updated@.contains(p)
                        implies overlay.mark_at(maze.w as int, p) == old(overlay).mark_at(maze.w as int, p) by {
                    lemma_addressable(maze, overlay, p);
                    assert(p != next) by {
                        assert(updated@[updated@.len() - 1] == next);
                    }
                    if maze.index_of(p) == maze.index_of(next) {
                        maze.lemma_index_of_injective(p, next);
                    }
                    assert(!u0.contains(p)) by {
                        if u0.contains(p) {
                            let j = choose|j: int| 0 <= j < u0.len() && u0[j] == p;
                            assert(updated@[j] == p);
                        }
                    }
                    assert(o0.mark_at(maze.w as int, p) == old(overlay).mark_at(maze.w as int, p));
                }
            }
        }
        proof {
            assert forall|d: Dir|
                #![trigger step_toward(cell, d)]
                !maze.wall_of(cell, d) && maze.contains(step_toward(cell, d))
                    implies self.visited@[maze.index_of(step_toward(cell, d))] by {
                assert(dir_from_index(dir_index(d)) == d);
            }
            lemma_addressable(maze, old(overlay), cell);
        }
        updated
    }
}

impl FloodFillSolver {
    /// Every recorded parent is the neighbour of its cell across an open wall, so the
    /// solution that the reveal walks back along crosses open walls only.
    pub proof fn lemma_parents_linked(&self, maze: &Maze, overlay: &MazeOverlay, p: Vec2i)
        requires
            self.inv(maze, overlay),
            maze.contains(p),
            self.parents()[maze.index_of(p)] is Some,
        ensures
            open_link(*maze, p, self.parents()[maze.index_of(p)]->0),
    {
    }
}

/// The solution marks of a flood fill are in order (see `solution_marks_in_order`).
pub open spec fn solution_marks_ok(s: FloodFillSolver, maze: Maze, o: MazeOverlay) -> bool {
    solution_marks_in_order(s.is_done(), s.cursor(), s.parents(), maze, o)
}

impl FloodFillSolver {
    /// A step of the reveal marks the cursor and extends the marked chain by it.
    proof fn lemma_reveal_step_keeps_solution_marks(
        self,
        after: Self,
        maze: Maze,
        o0: MazeOverlay,
        o1: MazeOverlay,
        updated: Seq<Vec2i>,
    )
        requires
            self.inv(&maze, &o0),
            !self.is_done(),
            self.cursor() is Some,
            self.step_post(after, maze, o0, o1, updated),
            solution_marks_ok(self, maze, o0),
        ensures
            solution_marks_ok(after, maze, o1),
    {
        let start = Vec2i { x: 0, y: 0 };
        let c = self.cursor()->0;
        let rev = choose|rev: Seq<Vec2i>|
            marked_chain(maze, self.parents(), rev, c) && solution_cells(maze, o0) == rev.to_set();
        lemma_solution_cells_update(maze, o0, o1, c, CellMark::Solution);
        let rev2 = rev.push(c);
        assert forall|p: Vec2i| #[trigger] rev2.to_set().contains(p) == rev.to_set().insert(c).contains(p) by {
            if rev.contains(p) {
                let i = choose|i: int| 0 <= i < rev.len() && rev[i] == p;
                assert(rev2[i] == p);
            }
            if rev2.contains(p) && p != c {
                let i = choose|i: int| 0 <= i < rev2.len() && rev2[i] == p;
                assert(rev[i] == p);
            }
            if p == c {
                assert(rev2[rev.len() as int] == c);
            }
        }
        assert(rev2.to_set() =~= rev.to_set().insert(c));
        assert forall|i: int| 0 <= i < rev2.len() implies maze.contains(#[trigger] rev2[i]) by {
            if i < rev.len() {
                assert(rev2[i] == rev[i]);
            }
        }
        assert forall|i: int| 0 <= i < rev2.len() - 1 implies open_link(maze, #[trigger] rev2[i], rev2[i + 1]) by {
            if i < rev.len() - 1 {
                assert(rev2[i] == rev[i] && rev2[i + 1] == rev[i + 1]);
            } else {
                assert(rev2[i] == rev.last() && rev2[i + 1] == c);
            }
        }
        if c == start {
            assert(goal_to_start_path(maze, rev2));
        } else {
            assert(self.parents()[maze.index_of(c)] is Some);
            let n = self.parents()[maze.index_of(c)]->0;
            assert(open_link(maze, c, n));
            assert(marked_chain(maze, after.parents(), rev2, n));
        }
    }

    /// A step of the flood marks no cell as part of the solution.
    proof fn lemma_search_step_keeps_solution_marks(
        self,
        after: Self,
        maze: Maze,
        o0: MazeOverlay,
        o1: MazeOverlay,
        updated: Seq<Vec2i>,
    )
        requires
            self.inv(&maze, &o0),
            !self.is_done(),
            self.cursor() is None,
            self.step_post(after, maze, o0, o1, updated),
            solution_marks_ok(self, maze, o0),
        ensures
            solution_marks_ok(after, maze, o1),
    {
        let goal = Vec2i { x: (maze.w - 1) as i32, y: (maze.h - 1) as i32 };
        if self.pending().len() == 0 {
            assert(solution_cells(maze, o1) =~= solution_cells(maze, o0));
        } else {
            let c = self.pending()[0];
            assert(maze.contains(c));
            if c.x == maze.w - 1 && c.y == maze.h - 1 {
                assert(solution_cells(maze, o1) =~= solution_cells(maze, o0));
                assert(c == goal);
                assert(marked_chain(maze, after.parents(), Seq::<Vec2i>::empty(), c));
                assert(Seq::<Vec2i>::empty().to_set() =~= Set::<Vec2i>::empty());
            } else {
                assert forall|p: Vec2i| !#[trigger] solution_cells(maze, o1).contains(p) by {
                    if maze.contains(p) && p != c && updated.contains(p) {
                        let i = choose|i: int| 0 <= i < updated.len() && updated[i] == p;
                        assert(i >= 1);
                        assert(o1.mark_at(maze.w as int, updated[i]) == CellMark::Active);
                    }
                    if maze.contains(p) && !solution_cells(maze, o0).contains(p) {
                        assert(o0.mark_at(maze.w as int, p) != CellMark::Solution);
                    }
                }
                assert(solution_cells(maze, o1) =~= Set::<Vec2i>::empty());
            }
        }
    }

    /// One step keeps the solution marks in order (see `solution_marks_ok`).
    proof fn lemma_step_keeps_solution_marks(
        self,
        after: Self,
        maze: Maze,
        o0: MazeOverlay,
        o1: MazeOverlay,
        updated: Seq<Vec2i>,
    )
        requires
            self.inv(&maze, &o0),
            self.step_post(after, maze, o0, o1, updated),
            solution_marks_ok(self, maze, o0),
        ensures
            solution_marks_ok(after, maze, o1),
    {
        if self.is_done() {
            assert(solution_cells(maze, o1) =~= solution_cells(maze, o0));
        } else if self.cursor() is Some {
            self.lemma_reveal_step_keeps_solution_marks(after, maze, o0, o1, updated);
        } else {
            self.lemma_search_step_keeps_solution_marks(after, maze, o0, o1, updated);
        }
    }
}

/// Along a run of flood-fill steps begun with nothing revealed, the solution marks stay in
/// order (see `solution_marks_ok`).
proof fn lemma_flood_fill_run_keeps_solution_marks(maze: Maze, states: Seq<(Solver, MazeOverlay)>, outs: Seq<Seq<Vec2i>>)
    requires
        solve_run(maze, states, outs),
        forall|i: int|
            0 <= i < states.len() ==> (#[trigger] states[i]).0 is FloodFill && states[i].0.inv(&maze, &states[i].1),
        states[0].0 matches Solver::FloodFill(f) && f.cursor() is None,
        solution_cells(maze, states[0].1) == Set::<Vec2i>::empty(),
    ensures
        states.last().0 matches Solver::FloodFill(f) && solution_marks_ok(f, maze, states.last().1),
    decreases outs.len(),
{
    if outs.len() == 0 {
        assert(states.last() == states[0]);
    } else {
        let k = outs.len() - 1;
        let prefix = states.drop_last();
        assert(prefix[0] == states[0]);
        assert forall|i: int| 0 <= i < prefix.len() implies (#[trigger] prefix[i]).0 is FloodFill && prefix[i].0.inv(
            &maze,
            &prefix[i].1,
        ) by {
            assert(prefix[i] == states[i]);
        }
        lemma_flood_fill_run_keeps_solution_marks(maze, prefix, outs.drop_last());
        assert(prefix.last() == states[k]);
        assert(states[k].0 is FloodFill && states[k + 1].0 is FloodFill);
        if let Solver::FloodFill(a) = states[k].0 {
            if let Solver::FloodFill(b) = states[k + 1].0 {
                a.lemma_step_keeps_solution_marks(b, maze, states[k].1, states[k + 1].1, outs[k]);
            }
        }
    }
}

/// Flood fill marks a solution path: once a run of its steps, begun on an overlay with no
/// cell marked as solution and before any reveal, is done, the cells marked as solution are
/// either none (the goal was not reached) or exactly the cells of a path from the goal to the
/// start that crosses open walls only.
pub proof fn lemma_flood_fill_run_marks_a_solution_path(
    maze: Maze,
    states: Seq<(Solver, MazeOverlay)>,
    outs: Seq<Seq<Vec2i>>,
)
    requires
        solve_run(maze, states, outs),
        forall|i: int|
            0 <= i < states.len() ==> (#[trigger] states[i]).0 is FloodFill && states[i].0.inv(&maze, &states[i].1),
        states[0].0 matches Solver::FloodFill(f) && f.cursor() is None,
        solution_cells(maze, states[0].1) == Set::<Vec2i>::empty(),
        states.last().0.is_done(),
    ensures
        solution_cells(maze, states.last().1) == Set::<Vec2i>::empty() || exists|path: Seq<Vec2i>|
            goal_to_start_path(maze, path) && solution_cells(maze, states.last().1) == path.to_set(),
{
    lemma_flood_fill_run_keeps_solution_marks(maze, states, outs);
}

/// What a flood knows about reaching the goal: while searching, the reached cells other than
/// the queued ones have every open neighbour reached, the start is reached, and a reached
/// goal is still queued; once done, some cell is marked as solution or no walk leads from
/// the start to the goal.
pub open spec fn flood_reach_ok(s: FloodFillSolver, maze: Maze, o: MazeOverlay) -> bool {
    let start = Vec2i { x: 0, y: 0 };
    let goal = Vec2i { x: (maze.w - 1) as i32, y: (maze.h - 1) as i32 };
    &&& (!s.is_done() && s.cursor() is None) ==> {
        &&& closed_except(maze, s.visited_cells(), s.pending())
        &&& s.visited_cells()[maze.index_of(start)]
        &&& s.visited_cells()[maze.index_of(goal)] ==> s.pending().contains(goal)
    }
    &&& s.is_done() ==> solution_cells(maze, o) != Set::<Vec2i>::empty() || !joined(maze, start, goal)
}

impl FloodFillSolver {
    /// One step keeps `flood_reach_ok`.
    proof fn lemma_step_keeps_reach(
        self,
        after: Self,
        maze: Maze,
        o0: MazeOverlay,
        o1: MazeOverlay,
        updated: Seq<Vec2i>,
    )
        requires
            self.inv(&maze, &o0),
            self.step_post(after, maze, o0, o1, updated),
            flood_reach_ok(self, maze, o0),
        ensures
            flood_reach_ok(after, maze, o1),
    {
        let start = Vec2i { x: 0, y: 0 };
        let goal = Vec2i { x: (maze.w - 1) as i32, y: (maze.h - 1) as i32 };
        if self.is_done() {
            assert(solution_cells(maze, o1) =~= solution_cells(maze, o0));
        } else if self.cursor() is Some {
            let c = self.cursor()->0;
            lemma_solution_cells_update(maze, o0, o1, c, CellMark::Solution);
            assert(solution_cells(maze, o1).contains(c));
            if c != start {
                assert(self.parents()[maze.index_of(c)] is Some);
            }
        } else if self.pending().len() == 0 {
            assert(self.pending() =~= Seq::<Vec2i>::empty());
            if joined(maze, start, goal) {
                let n = choose|n: nat| walk(maze, start, goal, n);
                lemma_closed_reaches(maze, self.visited_cells(), start, goal, n);
                assert(false);
            }
        } else {
            let c = self.pending()[0];
            let rest = self.pending().drop_first();
            let v = self.visited_cells();
            let v1 = after.visited_cells();
            let p1 = after.pending();
            if !(c.x == maze.w - 1 && c.y == maze.h - 1) {
                assert(p1 =~= rest + updated.drop_first());
                assert forall|q: Vec2i| #[trigger] rest.contains(q) implies p1.contains(q) by {
                    let j = choose|j: int| 0 <= j < rest.len() && rest[j] == q;
                    assert(p1[j] == q);
                }
                assert forall|q: Vec2i| updated.contains(q) && q != c implies #[trigger] p1.contains(q) by {
                    let j = choose|j: int| 0 <= j < updated.len() && updated[j] == q;
                    assert(j != 0);
                    assert(p1[rest.len() + j - 1] == q);
                }
                assert forall|q: Vec2i| #[trigger] self.pending().contains(q) && q != c implies rest.contains(q) by {
                    let j = choose|j: int| 0 <= j < self.pending().len() && self.pending()[j] == q;
                    assert(rest[j - 1] == q);
                }
                assert forall|q: Vec2i, d: Dir|
                    #![trigger v1[maze.index_of(q)], step_toward(q, d)]
                    maze.contains(q) && v1[maze.index_of(q)] && !p1.contains(q) && !maze.wall_of(q, d) && maze.contains(
                        step_toward(q, d),
                    ) implies v1[maze.index_of(step_toward(q, d))] by {
                    maze.lemma_contains_coords_ok(q);
                    maze.lemma_contains_coords_ok(step_toward(q, d));
                    if q != c {
                        if !v[maze.index_of(q)] {
                            assert(updated.contains(q));
                        }
                        assert(!self.pending().contains(q));
                        assert(v[maze.index_of(step_toward(q, d))]);
                    }
                }
                maze.lemma_contains_coords_ok(start);
                maze.lemma_contains_coords_ok(goal);
                if v1[maze.index_of(goal)] {
                    if v[maze.index_of(goal)] {
                        assert(self.pending().contains(goal));
                        assert(rest.contains(goal));
                    } else {
                        assert(updated.contains(goal));
                    }
                }
            }
        }
    }
}

/// Along a run of flood-fill steps begun in a state where `flood_reach_ok` holds, it keeps
/// holding.
proof fn lemma_flood_fill_run_keeps_reach(maze: Maze, states: Seq<(Solver, MazeOverlay)>, outs: Seq<Seq<Vec2i>>)
    requires
        solve_run(maze, states, outs),
        forall|i: int|
            0 <= i < states.len() ==> (#[trigger] states[i]).0 is FloodFill && states[i].0.inv(&maze, &states[i].1),
        states[0].0 matches Solver::FloodFill(f) && flood_reach_ok(f, maze, states[0].1),
    ensures
        states.last().0 matches Solver::FloodFill(f) && flood_reach_ok(f, maze, states.last().1),
    decreases outs.len(),
{
    if outs.len() == 0 {
        assert(states.last() == states[0]);
    } else {
        let k = outs.len() - 1;
        let prefix = states.drop_last();
        assert(prefix[0] == states[0]);
        assert forall|i: int| 0 <= i < prefix.len() implies (#[trigger] prefix[i]).0 is FloodFill && prefix[i].0.inv(
            &maze,
            &prefix[i].1,
        ) by {
            assert(prefix[i] == states[i]);
        }
        lemma_flood_fill_run_keeps_reach(maze, prefix, outs.drop_last());
        assert(prefix.last() == states[k]);
        assert(states[k].0 is FloodFill && states[k + 1].0 is FloodFill);
        if let Solver::FloodFill(a) = states[k].0 {
            if let Solver::FloodFill(b) = states[k + 1].0 {
                a.lemma_step_keeps_reach(b, maze, states[k].1, states[k + 1].1, outs[k]);
            }
        }
    }
}

/// Flood fill finds the goal whenever it can be reached: once a run of its steps, begun
/// from a fresh flood (only the start reached and queued, nothing revealed) on an overlay
/// with no cell marked as solution, is done, and some walk through open walls leads from
/// the start to the goal, the cells marked as solution are exactly those of a path from the
/// goal to the start through open walls.
pub proof fn lemma_flood_fill_run_marks_a_path_when_the_goal_is_reachable(
    maze: Maze,
    states: Seq<(Solver, MazeOverlay)>,
    outs: Seq<Seq<Vec2i>>,
)
    requires
        solve_run(maze, states, outs),
        forall|i: int|
            0 <= i < states.len() ==> (#[trigger] states[i]).0 is FloodFill && states[i].0.inv(&maze, &states[i].1),
        states[0].0 matches Solver::FloodFill(f) && f.cursor() is None && !f.is_done() && f.pending() == seq![
            Vec2i { x: 0, y: 0 },
        ] && forall|i: int| 0 <= i < f.visited_cells().len() ==> f.visited_cells()[i] == (i == 0),
        solution_cells(maze, states[0].1) == Set::<Vec2i>::empty(),
        states.last().0.is_done(),
        joined(maze, Vec2i { x: 0, y: 0 }, Vec2i { x: (maze.w - 1) as i32, y: (maze.h - 1) as i32 }),
    ensures
        exists|path: Seq<Vec2i>|
            goal_to_start_path(maze, path) && solution_cells(maze, states.last().1) == path.to_set(),
{
    let start = Vec2i { x: 0, y: 0 };
    if let Solver::FloodFill(f) = states[0].0 {
        assert(states[0].0.inv(&maze, &states[0].1));
        assert(maze.wf() && maze.cell_count() >= 1 && f.visited_cells().len() == maze.cell_count());
        maze.lemma_contains_coords_ok(start);
        maze.lemma_origin_index();
        let v = f.visited_cells();
        assert forall|p: Vec2i, d: Dir|
            #![trigger v[maze.index_of(p)], step_toward(p, d)]
            maze.contains(p) && v[maze.index_of(p)] && !f.pending().contains(p) && !maze.wall_of(p, d)
                && maze.contains(step_toward(p, d)) implies v[maze.index_of(step_toward(p, d))] by {
            maze.lemma_contains_coords_ok(p);
            maze.lemma_index_of_injective(p, start);
            assert(f.pending()[0] == p);
        }
        let goal = Vec2i { x: (maze.w - 1) as i32, y: (maze.h - 1) as i32 };
        maze.lemma_contains_coords_ok(goal);
        if v[maze.index_of(goal)] {
            maze.lemma_index_of_injective(goal, start);
            assert(f.pending()[0] == goal);
        }
        assert(flood_reach_ok(f, maze, states[0].1));
    }
    lemma_flood_fill_run_keeps_reach(maze, states, outs);
    lemma_flood_fill_run_keeps_solution_marks(maze, states, outs);
}

} // verus!
