use vstd::prelude::*;

use super::{SolveStrategy, Solver, advance_reveal, board_ok, closed_except, goal_to_start_path, lemma_closed_reaches, lemma_addressable, lemma_solution_cells_update, marked_chain, open_link, parents_linked, parents_reach_start, solution_cells, solution_marks_in_order};
use crate::session::solve_run;
use crate::forest::{joined, walk};
use crate::types::{CellMark, Dir, Maze, MazeOverlay, Vec2i, dir_at, dir_from_index, dir_index, opposite_dir, step_toward};

verus! {

/// Direction `j` of the list N, E, S, W leads from `c` into a wall, out of the grid, or to a
/// cell already discovered.
pub open spec fn blocked(maze: Maze, discovered: Seq<bool>, c: Vec2i, j: int) -> bool {
    let n = step_toward(c, dir_from_index(j));
    maze.wall_of(c, dir_from_index(j)) || !maze.contains(n) || discovered[maze.index_of(n)]
}

/// A cell on the search path and the next direction to try from it.
#[derive(Clone, Copy)]
pub struct DfsFrame {
    pub cell: Vec2i,
    pub next_dir_idx: usize,
}

/// Depth-first search from the top-left cell to the bottom-right one, trying north, east,
/// south and west in turn; a cell whose directions are all tried is marked dead.
pub struct DfsSolver {
    start: Vec2i,
    goal: Vec2i,
    stack: Vec<DfsFrame>,
    discovered: Vec<bool>,
    parent: Vec<Option<Vec2i>>,
    reveal_cursor: Option<Vec2i>,
    finished: bool,
}

impl DfsSolver {
    pub closed spec fn parents(&self) -> Seq<Option<Vec2i>> {
        self.parent@
    }

    pub closed spec fn cursor(&self) -> Option<Vec2i> {
        self.reveal_cursor
    }

    /// The search path, from the start to the cell being explored.
    pub closed spec fn frames(&self) -> Seq<DfsFrame> {
        self.stack@
    }

    pub closed spec fn discovered_cells(&self) -> Seq<bool> {
        self.discovered@
    }

    /// A search whose path holds only the top-left cell, with no direction tried yet.
    pub fn new(maze: &Maze) -> (r: Self)
        requires
            maze.wf(),
            maze.w >= 1,
            maze.h >= 1,
        ensures
            r.frames() == seq![DfsFrame { cell: Vec2i { x: 0, y: 0 }, next_dir_idx: 0 }],
            forall|i: int| 0 <= i < maze.cell_count() ==> #[trigger] r.discovered_cells()[i] == (i == 0),
            forall|i: int| 0 <= i < maze.cell_count() ==> #[trigger] r.parents()[i] is None,
            r.cursor() is None,
            !r.is_done(),
            forall|o: MazeOverlay| #[trigger] board_ok(maze, &o) ==> r.inv(maze, &o),
    {
        let start = maze.start();
        let goal = maze.goal();
        proof {
            maze.lemma_contains_coords_ok(start);
            maze.lemma_origin_index();
        }
        let n = maze.w * maze.h;
        let mut discovered = vec![false; n];
        assert(forall|i: int| 0 <= i < n ==> !discovered@[i]);
        discovered.set(maze.idx(start), true);
        let parent: Vec<Option<Vec2i>> = vec![None; n];
        assert(forall|i: int| 0 <= i < n ==> parent@[i] is None);
        let r = Self {
            start,
            goal,
            stack: vec![DfsFrame { cell: start, next_dir_idx: 0 }],
            discovered,
            parent,
            reveal_cursor: None,
            finished: false,
        };
        proof {
            assert(r.discovered@[maze.index_of(start)]);
            assert forall|p: Vec2i|
                #![trigger r.parent@[maze.index_of(p)]]
                maze.contains(p) && r.discovered@[maze.index_of(p)] && p != (Vec2i { x: 0, y: 0 })
                    implies r.parent@[maze.index_of(p)] is Some && r.discovered@[maze.index_of(
                    r.parent@[maze.index_of(p)]->0,
                )] by {
                maze.lemma_contains_coords_ok(p);
                if maze.index_of(p) == maze.index_of(start) {
                    maze.lemma_index_of_injective(p, start);
                }
            }
            assert(parents_reach_start(*maze, r.discovered@, r.parent@));
            assert forall|o: MazeOverlay| #[trigger] board_ok(maze, &o) implies r.inv(maze, &o) by {
                assert forall|p: Vec2i|
                    #![trigger r.parent@[maze.index_of(p)]]
                    maze.contains(p) && r.parent@[maze.index_of(p)] is Some implies open_link(
                        *maze,
                        p,
                        r.parent@[maze.index_of(p)]->0,
                    ) by {
                    maze.lemma_contains_coords_ok(p);
                }
            }
        }
        r
    }
}

impl DfsSolver {
    /// What one step does to the solver and the overlay: `self` and `o0` before it,
    /// `after` and `o1` after it, `updated` the cells it returns.
    pub open spec fn step_post(self, after: Self, maze: Maze, o0: MazeOverlay, o1: MazeOverlay, updated: Seq<Vec2i>) -> bool {
        &&& (self.is_done() ==> updated.len() == 0 && o1.mark_cells()
                =~= o0.mark_cells() && after == self)
        &&& o1.parent_cells().len() == o0.parent_cells().len()
        &&& ((!self.is_done() && self.cursor() is Some) ==> ({
                let c = self.cursor()->0;
                &&& updated =~= seq![c]
                &&& o1.mark_cells() =~= o0.mark_cells().update(
                    maze.index_of(c),
                    CellMark::Solution,
                )
                &&& c == (Vec2i { x: 0, y: 0 }) ==> after.is_done()
                &&& c != (Vec2i { x: 0, y: 0 }) ==> after.cursor() == self.parents()[maze.index_of(c)]
                    && !after.is_done()
                &&& o1.parent_cells() =~= o0.parent_cells()
                &&& after.parents() =~= self.parents()
                &&& after.frames() =~= self.frames()
            }))
        &&& ((!self.is_done() && self.cursor() is None && self.frames().len() == 0)
                ==> after.is_done() && updated.len() == 0 && o1.mark_cells() =~= o0.mark_cells())
        &&& ((!self.is_done() && self.cursor() is None && self.frames().len() > 0
                && o0.mark_at(maze.w as int, self.frames().last().cell)
                == CellMark::Unmarked) ==> ({
                let c = self.frames().last().cell;
                &&& updated =~= seq![c]
                &&& o1.mark_cells() =~= o0.mark_cells().update(
                    maze.index_of(c),
                    CellMark::Active,
                )
                &&& o1.parent_cells() =~= o0.parent_cells()
                &&& after.frames() =~= self.frames()
                &&& after.parents() =~= self.parents()
                &&& after.discovered_cells() =~= self.discovered_cells()
                &&& after.cursor() is None
                &&& !after.is_done()
            }))
        &&& ((!self.is_done() && self.cursor() is None && self.frames().len() > 0
                && o0.mark_at(maze.w as int, self.frames().last().cell)
                != CellMark::Unmarked) ==> ({
                let c = self.frames().last().cell;
                let k = self.frames().len();
                let is_goal = c.x == maze.w - 1 && c.y == maze.h - 1;
                &&& is_goal ==> after.cursor() == Some(c) && updated =~= seq![c]
                    && o1.parent_cells() =~= o0.parent_cells() && o1.mark_cells() =~= o0.mark_cells()
                    && !after.is_done() && after.parents() =~= self.parents()
                &&& !is_goal ==> ({
                    ||| {
                        let q = after.frames().last().cell;
                        let j = after.frames()[k - 1].next_dir_idx - 1;
                        &&& after.frames().len() == k + 1
                        &&& after.frames()[k - 1].cell == c
                        &&& after.frames().take(k - 1) =~= self.frames().take(k - 1)
                        &&& after.frames().last().next_dir_idx == 0
                        &&& updated =~= seq![q]
                        &&& open_link(maze, q, c)
                        &&& after.parents()[maze.index_of(q)] == Some(c)
                        &&& o1.mark_at(maze.w as int, q) == CellMark::Active
                        &&& o1.mark_cells() =~= o0.mark_cells().update(maze.index_of(q), CellMark::Active)
                        &&& after.parents() =~= self.parents().update(maze.index_of(q), Some(c))
                        &&& o1.parent_cells() =~= o0.parent_cells().update(maze.index_of(q), Some(c))
                        &&& after.cursor() is None
                        &&& !after.is_done()
                        &&& self.frames().last().next_dir_idx <= j < 4
                        &&& q == step_toward(c, dir_from_index(j))
                        &&& !self.discovered_cells()[maze.index_of(q)]
                        &&& after.discovered_cells() =~= self.discovered_cells().update(
                            maze.index_of(q),
                            true,
                        )
                        &&& forall|i: int|
                            self.frames().last().next_dir_idx <= i < j ==> #[trigger] blocked(
                                maze,
                                self.discovered_cells(),
                                c,
                                i,
                            )
                    }
                    ||| {
                        &&& forall|i: int|
                            self.frames().last().next_dir_idx <= i < 4 ==> #[trigger] blocked(
                                maze,
                                self.discovered_cells(),
                                c,
                                i,
                            )
                        &&& after.frames() =~= self.frames().drop_last()
                        &&& updated =~= seq![c]
                        &&& c == (Vec2i { x: 0, y: 0 }) ==> after.is_done()
                        &&& c != (Vec2i { x: 0, y: 0 }) ==> o1.mark_at(maze.w as int, c)
                            == CellMark::Dead
                        &&& o1.mark_cells() =~= if c == (Vec2i { x: 0, y: 0 }) {
                            o0.mark_cells()
                        } else {
                            o0.mark_cells().update(maze.index_of(c), CellMark::Dead)
                        }
                        &&& c != (Vec2i { x: 0, y: 0 }) ==> !after.is_done()
                        &&& o1.parent_cells() =~= o0.parent_cells()
                        &&& after.parents() =~= self.parents()
                        &&& after.discovered_cells() =~= self.discovered_cells()
                        &&& after.cursor() is None
                    }
                })
            }))
    }
}

impl SolveStrategy for DfsSolver {
    /// The board fits, every bookkeeping vector has one entry per cell, the path and the
    /// cursor lie in the grid, and every recorded parent is an open neighbour.
    closed spec fn inv(&self, maze: &Maze, overlay: &MazeOverlay) -> bool {
        &&& board_ok(maze, overlay)
        &&& self.start == Vec2i { x: 0, y: 0 }
        &&& self.goal.x == maze.w - 1
        &&& self.goal.y == maze.h - 1
        &&& self.discovered@.len() == maze.cell_count()
        &&& self.parent@.len() == maze.cell_count()
        &&& forall|i: int|
            0 <= i < self.stack@.len() ==> maze.contains(#[trigger] self.stack@[i].cell)
                && self.stack@[i].next_dir_idx <= 4 && self.discovered@[maze.index_of(self.stack@[i].cell)]
        &&& self.reveal_cursor matches Some(c) ==> maze.contains(c)
        &&& parents_linked(*maze, self.parent@)
        &&& parents_reach_start(*maze, self.discovered@, self.parent@)
        &&& self.reveal_cursor matches Some(c) ==> self.discovered@[maze.index_of(c)]
    }

    closed spec fn is_done(&self) -> bool {
        self.finished
    }

    fn name(&self) -> (s: &'static str)
        ensures
            s@ == "DFS"@,
    {
        "DFS"
    }

    fn done(&self) -> (b: bool) {
        self.finished
    }

    /// While revealing, marks the next solution cell and moves to its parent. Otherwise looks
    /// at the cell on top of the path: an unmarked one is marked active; the goal starts the
    /// reveal; else the next open, undiscovered neighbour is discovered, given the cell as
    /// parent, marked active and pushed; a cell with no direction left is popped and marked
    /// dead (the start, when popped, ends the search).
    #[verifier::spinoff_prover]
    #[verifier::rlimit(60)]
    fn step(&mut self, maze: &Maze, overlay: &mut MazeOverlay) -> (updated: Vec<Vec2i>)
        ensures
            old(self).step_post(*final(self), *maze, *old(overlay), *final(overlay), updated@),

    {
        if self.finished {
            return Vec::new();
        }
        if let Some(cursor) = self.reveal_cursor {
            proof {
                lemma_addressable(maze, overlay, cursor);
            }
            let (next, done) = advance_reveal(cursor, self.start, &self.parent, maze, overlay);
            self.reveal_cursor = next;
            self.finished = done;
            proof {
                if next is Some {
                    maze.lemma_contains_coords_ok(cursor);
                    assert(open_link(*maze, cursor, next->0));
                }
            }
            return vec![cursor];
        }
        if self.stack.len() == 0 {
            self.finished = true;
            return Vec::new();
        }
        let top = self.stack.len() - 1;
        let cell = self.stack[top].cell;
        assert(maze.contains(cell) && self.discovered@[maze.index_of(cell)]) by {
            assert(maze.contains(self.stack@[top as int].cell));
        }
        proof {
            lemma_addressable(maze, overlay, cell);
            maze.lemma_contains_coords_ok(cell);
        }
        if overlay.get(maze.w, cell) == CellMark::Unmarked {
            overlay.set(maze.w, cell, CellMark::Active);
            return vec![cell];
        }
        if cell == self.goal {
            self.reveal_cursor = Some(cell);
            return vec![cell];
        }
        loop
            invariant
                self.inv(maze, overlay),
                !self.finished,
                self.reveal_cursor is None,
                top + 1 == self.stack@.len(),
                self.stack@[top as int].cell == cell,
                maze.contains(cell),
                crate::types::coords_ok(cell),
                overlay.mark_cells() == old(overlay).mark_cells(),
                overlay.parent_cells() == old(overlay).parent_cells(),
                !old(self).is_done(),
                old(self).cursor() is None,
                old(self).frames().len() > 0,
                old(overlay).mark_at(maze.w as int, old(self).frames().last().cell) != CellMark::Unmarked,
                top + 1 == old(self).frames().len(),
                old(self).frames().last().cell == cell,
                self.stack@.drop_last() == old(self).frames().drop_last(),
                cell.x != maze.w - 1 || cell.y != maze.h - 1,
                self.discovered@ == old(self).discovered@,
                self.parent@ == old(self).parent@,
                old(self).frames().last().next_dir_idx <= self.stack@[top as int].next_dir_idx,
                forall|i: int|
                    old(self).frames().last().next_dir_idx <= i < self.stack@[top as int].next_dir_idx
                        ==> #[trigger] blocked(*maze, old(self).discovered@, cell, i),
            decreases 4 - self.stack@[top as int].next_dir_idx,
        {
            let frame = self.stack[top];
            if frame.next_dir_idx >= 4 {
                let ghost s0 = self.stack@;
                self.stack.pop();
                assert(self.stack@ =~= s0.drop_last());
                proof {
                    assert forall|i: int| 0 <= i < self.stack@.len() implies maze.contains(
                        #[trigger] self.stack@[i].cell,
                    ) && self.stack@[i].next_dir_idx <= 4 && self.discovered@[maze.index_of(self.stack@[i].cell)] by {
                        assert(self.stack@[i] == s0[i]);
                        assert(maze.contains(s0[i].cell) && self.discovered@[maze.index_of(s0[i].cell)]);
                    }
                    assert(parents_reach_start(*maze, self.discovered@, self.parent@));
                    assert(parents_linked(*maze, self.parent@));
                }
                proof {
                    lemma_addressable(maze, overlay, cell);
                }
                if cell == self.start {
                    self.finished = true;
                } else {
                    overlay.set(maze.w, cell, CellMark::Dead);
                }
                return vec![cell];
            }
            let dir = dir_at(frame.next_dir_idx);
            let ghost j0 = frame.next_dir_idx as int;
            let ghost s1 = self.stack@;
            self.stack.set(top, DfsFrame { cell: frame.cell, next_dir_idx: frame.next_dir_idx + 1 });
            assert(self.stack@.drop_last() =~= s1.drop_last());
            proof {
                assert forall|i: int| 0 <= i < self.stack@.len() implies maze.contains(
                    #[trigger] self.stack@[i].cell,
                ) && self.stack@[i].next_dir_idx <= 4 && self.discovered@[maze.index_of(self.stack@[i].cell)] by {
                    if i != top {
                        assert(self.stack@[i] == s1[i]);
                        assert(maze.contains(s1[i].cell) && self.discovered@[maze.index_of(s1[i].cell)]);
                    } else {
                        assert(self.stack@[i].cell == s1[i].cell);
                    }
                }
            }
            if maze.has_wall(cell, dir) {
                assert(blocked(*maze, old(self).discovered@, cell, j0));
                continue;
            }
            let next = maze.neighbor(cell, dir);
            if !maze.in_bounds(next) {
                assert(blocked(*maze, old(self).discovered@, cell, j0));
                continue;
            }
            let next_idx = maze.idx(next);
            if self.discovered[next_idx] {
                assert(blocked(*maze, old(self).discovered@, cell, j0));
                continue;
            }
            proof {
                lemma_addressable(maze, overlay, next);
                assert(step_toward(next, opposite_dir(dir)) == cell);
                assert(!maze.wall_of(next, opposite_dir(dir)));
                assert(open_link(*maze, next, cell));
            }
            let ghost p0 = self.parent@;
            let ghost s2 = self.stack@;
            let ghost d0 = self.discovered@;
            assert(d0[maze.index_of(cell)]) by {
                assert(self.stack@[top as int].cell == cell);
            }
            self.discovered.set(next_idx, true);
            self.parent.set(next_idx, Some(cell));
            overlay.set_parent(maze.w, next, cell);
            self.stack.push(DfsFrame { cell: next, next_dir_idx: 0 });
            overlay.set(maze.w, next, CellMark::Active);
            proof {
                assert forall|p: Vec2i|
                    #![trigger self.parent@[maze.index_of(p)]]
                    maze.contains(p) && self.parent@[maze.index_of(p)] is Some implies open_link(
                        *maze,
                        p,
                        self.parent@[maze.index_of(p)]->0,
                    ) by {
                    maze.lemma_contains_coords_ok(p);
                    if maze.index_of(p) == next_idx {
                        maze.lemma_index_of_injective(p, next);
                    } else {
                        assert(p0[maze.index_of(p)] is Some);
                    }
                }
                assert forall|i: int| 0 <= i < self.stack@.len() implies maze.contains(
                    #[trigger] self.stack@[i].cell,
                ) && self.stack@[i].next_dir_idx <= 4 && self.discovered@[maze.index_of(self.stack@[i].cell)] by {
                    if i < s2.len() {
                        assert(self.stack@[i] == s2[i]);
                        assert(d0[maze.index_of(s2[i].cell)]);
                        maze.lemma_contains_coords_ok(s2[i].cell);
                    } else {
                        assert(self.stack@[i].cell == next);
                    }
                }
                assert forall|p: Vec2i|
                    #![trigger self.parent@[maze.index_of(p)]]
                    maze.contains(p) && self.discovered@[maze.index_of(p)] && p != (Vec2i { x: 0, y: 0 })
                        implies self.parent@[maze.index_of(p)] is Some && self.discovered@[maze.index_of(
                        self.parent@[maze.index_of(p)]->0,
                    )] by {
                    maze.lemma_contains_coords_ok(p);
                    if maze.index_of(p) == next_idx {
                        maze.lemma_index_of_injective(p, next);
                        assert(self.parent@[maze.index_of(p)] == Some(cell));
                        maze.lemma_contains_coords_ok(cell);
                        assert(self.discovered@[maze.index_of(cell)]);
                    } else {
                        assert(self.discovered@[maze.index_of(p)] == d0[maze.index_of(p)]);
                        assert(self.parent@[maze.index_of(p)] == p0[maze.index_of(p)]);
                        assert(parents_reach_start(*maze, d0, p0));
                        assert(p0[maze.index_of(p)] is Some);
                        let n = p0[maze.index_of(p)]->0;
                        assert(d0[maze.index_of(n)]);
                        assert(open_link(*maze, p, n));
                        let d = choose|d: Dir| n == #[trigger] step_toward(p, d) && maze.contains(n) && !maze.wall_of(p, d);
                        maze.lemma_contains_coords_ok(n);
                    }
                }
                assert(self.stack@[top as int] == s2[top as int]);
                assert(self.stack@.take(top as int) =~= old(self).frames().take(top as int)) by {
                    assert forall|i: int| 0 <= i < top implies self.stack@[i] == old(self).frames()[i] by {
                        assert(self.stack@[i] == s2[i]);
                        assert(s2[i] == s2.drop_last()[i]);
                        assert(old(self).frames().drop_last()[i] == old(self).frames()[i]);
                    }
                }
            }
            return vec![next];
        }
    }
}

impl DfsSolver {
    /// Every recorded parent is the neighbour of its cell across an open wall, so the
    /// solution that the reveal walks back along crosses open walls only.
    pub proof fn lemma_parents_linked(&self, maze: &Maze, overlay: &MazeOverlay, p: Vec2i)
        requires
            self.inv(maze, overlay),
            maze.contains(p),
            self.parents()[maze.index_of(p)] is Some,
        ensures
            open_link(*maze, p, self.parents()[maze.index_of(p)]->0),
    {
    }
}


/// The solution marks of a depth-first search are in order (see `solution_marks_in_order`).
pub open spec fn solution_marks_ok(s: DfsSolver, maze: Maze, o: MazeOverlay) -> bool {
    solution_marks_in_order(s.is_done(), s.cursor(), s.parents(), maze, o)
}

impl DfsSolver {
    /// A step of the reveal marks the cursor and extends the marked chain by it.
    proof fn lemma_reveal_step_keeps_solution_marks(
        self,
        after: Self,
        maze: Maze,
        o0: MazeOverlay,
        o1: MazeOverlay,
        updated: Seq<Vec2i>,
    )
        requires
            self.inv(&maze, &o0),
            !self.is_done(),
            self.cursor() is Some,
            self.step_post(after, maze, o0, o1, updated),
            solution_marks_ok(self, maze, o0),
        ensures
            solution_marks_ok(after, maze, o1),
    {
        let start = Vec2i { x: 0, y: 0 };
        let c = self.cursor()->0;
        let rev = choose|rev: Seq<Vec2i>|
            marked_chain(maze, self.parents(), rev, c) && solution_cells(maze, o0) == rev.to_set();
        lemma_solution_cells_update(maze, o0, o1, c, CellMark::Solution);
        let rev2 = rev.push(c);
        assert forall|p: Vec2i| #[trigger] rev2.to_set().contains(p) == rev.to_set().insert(c).contains(p) by {
            if rev.contains(p) {
                let i = choose|i: int| 0 <= i < rev.len() && rev[i] == p;
                assert(rev2[i] == p);
            }
            if rev2.contains(p) && p != c {
                let i = choose|i: int| 0 <= i < rev2.len() && rev2[i] == p;
                assert(rev[i] == p);
            }
            if p == c {
                assert(rev2[rev.len() as int] == c);
            }
        }
        assert(rev2.to_set() =~= rev.to_set().insert(c));
        assert forall|i: int| 0 <= i < rev2.len() implies maze.contains(#[trigger] rev2[i]) by {
            if i < rev.len() {
                assert(rev2[i] == rev[i]);
            }
        }
        assert forall|i: int| 0 <= i < rev2.len() - 1 implies open_link(maze, #[trigger] rev2[i], rev2[i + 1]) by {
            if i < rev.len() - 1 {
                assert(rev2[i] == rev[i] && rev2[i + 1] == rev[i + 1]);
            } else {
                assert(rev2[i] == rev.last() && rev2[i + 1] == c);
            }
        }
        if c == start {
            assert(goal_to_start_path(maze, rev2));
        } else {
            assert(self.parents()[maze.index_of(c)] is Some);
            let n = self.parents()[maze.index_of(c)]->0;
            self.lemma_parents_linked(&maze, &o0, c);
            assert(marked_chain(maze, after.parents(), rev2, n));
        }
    }

    /// A step of the search marks no cell as part of the solution.
    proof fn lemma_search_step_keeps_solution_marks(
        self,
        after: Self,
        maze: Maze,
        o0: MazeOverlay,
        o1: MazeOverlay,
        updated: Seq<Vec2i>,
    )
        requires
            self.inv(&maze, &o0),
            !self.is_done(),
            self.cursor() is None,
            after.inv(&maze, &o1),
            self.step_post(after, maze, o0, o1, updated),
            solution_marks_ok(self, maze, o0),
        ensures
            solution_marks_ok(after, maze, o1),
    {
        let start = Vec2i { x: 0, y: 0 };
        let goal = Vec2i { x: (maze.w - 1) as i32, y: (maze.h - 1) as i32 };
        if self.frames().len() == 0 {
            assert(solution_cells(maze, o1) =~= solution_cells(maze, o0));
        } else {
            let c = self.frames().last().cell;
            assert(maze.contains(c));
            if o0.mark_at(maze.w as int, c) == CellMark::Unmarked {
                lemma_solution_cells_update(maze, o0, o1, c, CellMark::Active);
                assert(solution_cells(maze, o1) =~= Set::<Vec2i>::empty());
            } else if c.x == maze.w - 1 && c.y == maze.h - 1 {
                assert(solution_cells(maze, o1) =~= solution_cells(maze, o0));
                assert(c == goal);
                assert(marked_chain(maze, after.parents(), Seq::<Vec2i>::empty(), c));
                assert(Seq::<Vec2i>::empty().to_set() =~= Set::<Vec2i>::empty());
            } else {
                let k = self.frames().len();
                if after.frames().len() == k + 1 {
                    let q = after.frames().last().cell;
                    assert(maze.contains(q)) by {
                        assert(maze.contains(after.stack@[k as int].cell));
                    }
                    lemma_solution_cells_update(maze, o0, o1, q, CellMark::Active);
                    assert(solution_cells(maze, o1) =~= Set::<Vec2i>::empty());
                } else if c == start {
                    assert(solution_cells(maze, o1) =~= solution_cells(maze, o0));
                } else {
                    lemma_solution_cells_update(maze, o0, o1, c, CellMark::Dead);
                    assert(solution_cells(maze, o1) =~= Set::<Vec2i>::empty());
                }
            }
        }
    }

    /// One step keeps the solution marks in order (see `solution_marks_ok`).
    proof fn lemma_step_keeps_solution_marks(
        self,
        after: Self,
        maze: Maze,
        o0: MazeOverlay,
        o1: MazeOverlay,
        updated: Seq<Vec2i>,
    )
        requires
            self.inv(&maze, &o0),
            after.inv(&maze, &o1),
            self.step_post(after, maze, o0, o1, updated),
            solution_marks_ok(self, maze, o0),
        ensures
            solution_marks_ok(after, maze, o1),
    {
        if self.is_done() {
            assert(solution_cells(maze, o1) =~= solution_cells(maze, o0));
        } else if self.cursor() is Some {
            self.lemma_reveal_step_keeps_solution_marks(after, maze, o0, o1, updated);
        } else {
            self.lemma_search_step_keeps_solution_marks(after, maze, o0, o1, updated);
        }
    }
}

/// Along a run of depth-first search steps begun with nothing revealed, the solution marks
/// stay in order (see `solution_marks_ok`).
proof fn lemma_dfs_run_keeps_solution_marks(maze: Maze, states: Seq<(Solver, MazeOverlay)>, outs: Seq<Seq<Vec2i>>)
    requires
        solve_run(maze, states, outs),
        forall|i: int|
            0 <= i < states.len() ==> (#[trigger] states[i]).0 is Dfs && states[i].0.inv(&maze, &states[i].1),
        states[0].0 matches Solver::Dfs(d) && d.cursor() is None,
        solution_cells(maze, states[0].1) == Set::<Vec2i>::empty(),
    ensures
        states.last().0 matches Solver::Dfs(d) && solution_marks_ok(d, maze, states.last().1),
    decreases outs.len(),
{
    if outs.len() == 0 {
        assert(states.last() == states[0]);
    } else {
        let k = outs.len() - 1;
        let prefix = states.drop_last();
        assert(prefix[0] == states[0]);
        assert forall|i: int| 0 <= i < prefix.len() implies (#[trigger] prefix[i]).0 is Dfs && prefix[i].0.inv(
            &maze,
            &prefix[i].1,
        ) by {
            assert(prefix[i] == states[i]);
        }
        lemma_dfs_run_keeps_solution_marks(maze, prefix, outs.drop_last());
        assert(prefix.last() == states[k]);
        assert(states[k].0 is Dfs && states[k + 1].0 is Dfs);
        if let Solver::Dfs(a) = states[k].0 {
            if let Solver::Dfs(b) = states[k + 1].0 {
                a.lemma_step_keeps_solution_marks(b, maze, states[k].1, states[k + 1].1, outs[k]);
            }
        }
    }
}

/// Depth-first search marks a solution path: once a run of its steps, begun on an overlay
/// with no cell marked as solution and before any reveal, is done, the cells marked as
/// solution are either none (no path was found) or exactly the cells of a path from the
/// goal to the start that crosses open walls only.
pub proof fn lemma_dfs_run_marks_a_solution_path(
    maze: Maze,
    states: Seq<(Solver, MazeOverlay)>,
    outs: Seq<Seq<Vec2i>>,
)
    requires
        solve_run(maze, states, outs),
        forall|i: int|
            0 <= i < states.len() ==> (#[trigger] states[i]).0 is Dfs && states[i].0.inv(&maze, &states[i].1),
        states[0].0 matches Solver::Dfs(d) && d.cursor() is None,
        solution_cells(maze, states[0].1) == Set::<Vec2i>::empty(),
        states.last().0.is_done(),
    ensures
        solution_cells(maze, states.last().1) == Set::<Vec2i>::empty() || exists|path: Seq<Vec2i>|
            goal_to_start_path(maze, path) && solution_cells(maze, states.last().1) == path.to_set(),
{
    lemma_dfs_run_keeps_solution_marks(maze, states, outs);
}

/// The cells of the path frames, bottom first.
pub open spec fn frame_cells(frames: Seq<DfsFrame>) -> Seq<Vec2i> {
    frames.map_values(|f: DfsFrame| f.cell)
}

/// What a depth-first search knows about reaching the goal: while searching, the discovered
/// cells off the path have every open neighbour discovered, every direction a path cell has
/// already tried is blocked, the path starts at the start and never returns to it, the start
/// is discovered, and a discovered goal lies on the path; once done, some cell is marked as
/// solution or no walk leads from the start to the goal.
pub open spec fn dfs_reach_ok(s: DfsSolver, maze: Maze, o: MazeOverlay) -> bool {
    let start = Vec2i { x: 0, y: 0 };
    let goal = Vec2i { x: (maze.w - 1) as i32, y: (maze.h - 1) as i32 };
    let f = s.frames();
    &&& (!s.is_done() && s.cursor() is None) ==> {
        &&& closed_except(maze, s.discovered_cells(), frame_cells(f))
        &&& forall|i: int, j: int|
            0 <= i < f.len() && 0 <= j < f[i].next_dir_idx ==> #[trigger] blocked(
                maze,
                s.discovered_cells(),
                f[i].cell,
                j,
            )
        &&& f.len() > 0 ==> f[0].cell == start
        &&& forall|i: int| 0 < i < f.len() ==> (#[trigger] f[i]).cell != start
        &&& s.discovered_cells()[maze.index_of(start)]
        &&& s.discovered_cells()[maze.index_of(goal)] ==> frame_cells(f).contains(goal)
    }
    &&& s.is_done() ==> solution_cells(maze, o) != Set::<Vec2i>::empty() || !joined(maze, start, goal)
}

impl DfsSolver {
    /// A step that extends the path keeps `dfs_reach_ok`.
    proof fn lemma_push_keeps_reach(self, after: Self, maze: Maze, o0: MazeOverlay, o1: MazeOverlay)
        requires
            self.inv(&maze, &o0),
            !self.is_done(),
            self.cursor() is None,
            self.frames().len() > 0,
            ({
                let c = self.frames().last().cell;
                let k = self.frames().len();
                let q = after.frames().last().cell;
                let j = after.frames()[k - 1].next_dir_idx - 1;
                &&& after.frames().len() == k + 1
                &&& after.frames()[k - 1].cell == c
                &&& after.frames().take(k - 1) =~= self.frames().take(k - 1)
                &&& after.frames().last().next_dir_idx == 0
                &&& after.cursor() is None
                &&& !after.is_done()
                &&& self.frames().last().next_dir_idx <= j < 4
                &&& q == step_toward(c, dir_from_index(j))
                &&& maze.contains(q)
                &&& !self.discovered_cells()[maze.index_of(q)]
                &&& after.discovered_cells() =~= self.discovered_cells().update(maze.index_of(q), true)
                &&& forall|i: int|
                    self.frames().last().next_dir_idx <= i < j ==> #[trigger] blocked(
                        maze,
                        self.discovered_cells(),
                        c,
                        i,
                    )
            }),
            dfs_reach_ok(self, maze, o0),
        ensures
            dfs_reach_ok(after, maze, o1),
    {
        let start = Vec2i { x: 0, y: 0 };
        let goal = Vec2i { x: (maze.w - 1) as i32, y: (maze.h - 1) as i32 };
        let f = self.frames();
        let f1 = after.frames();
        let k = f.len();
        let c = f.last().cell;
        let q = f1.last().cell;
        let j = f1[k - 1].next_dir_idx - 1;
        let v = self.discovered_cells();
        let v1 = after.discovered_cells();
        let cells = frame_cells(f);
        let cells1 = frame_cells(f1);
        maze.lemma_contains_coords_ok(q);
        maze.lemma_contains_coords_ok(start);
        maze.lemma_contains_coords_ok(goal);
        assert forall|x: int| 0 <= x < v.len() && #[trigger] v[x] implies v1[x] by {}
        assert forall|i: int| 0 <= i < k - 1 implies #[trigger] f1[i] == f[i] by {
            assert(f1.take(k - 1)[i] == f.take(k - 1)[i]);
        }
        assert forall|p: Vec2i| #[trigger] cells.contains(p) implies cells1.contains(p) by {
            let i = choose|i: int| 0 <= i < cells.len() && cells[i] == p;
            if i < k - 1 {
                assert(cells1[i] == p);
            } else {
                assert(cells1[k - 1] == p);
            }
        }
        assert(cells1[k as int] == q);
        assert forall|p: Vec2i, d: Dir|
            #![trigger v1[maze.index_of(p)], step_toward(p, d)]
            maze.contains(p) && v1[maze.index_of(p)] && !cells1.contains(p) && !maze.wall_of(p, d) && maze.contains(
                step_toward(p, d),
            ) implies v1[maze.index_of(step_toward(p, d))] by {
            maze.lemma_contains_coords_ok(p);
            maze.lemma_contains_coords_ok(step_toward(p, d));
            if maze.index_of(p) == maze.index_of(q) {
                maze.lemma_index_of_injective(p, q);
            }
            assert(!cells.contains(p));
            assert(v[maze.index_of(step_toward(p, d))]);
        }
        assert forall|i: int, jj: int|
            0 <= i < f1.len() && 0 <= jj < f1[i].next_dir_idx implies #[trigger] blocked(maze, v1, f1[i].cell, jj) by {
            let n = step_toward(f1[i].cell, dir_from_index(jj));
            if i < k - 1 {
                assert(blocked(maze, v, f[i].cell, jj));
            } else if i == k - 1 {
                if jj < f.last().next_dir_idx {
                    assert(blocked(maze, v, f[k - 1].cell, jj));
                } else if jj < j {
                    assert(blocked(maze, v, c, jj));
                }
            }
            if maze.contains(n) {
                maze.lemma_contains_coords_ok(n);
            }
        }
        if k > 1 {
            assert(f1[0] == f[0]);
        }
        assert forall|i: int| 0 < i < f1.len() implies (#[trigger] f1[i]).cell != start by {
            if i < k - 1 {
                assert(f1[i] == f[i]);
            } else if i == k - 1 {
                assert(f[k - 1].cell == c);
            } else {
                if q == start {
                    assert(v[maze.index_of(start)]);
                }
            }
        }
        if v1[maze.index_of(goal)] {
            if maze.index_of(goal) == maze.index_of(q) {
                maze.lemma_index_of_injective(goal, q);
            } else {
                assert(v[maze.index_of(goal)]);
            }
        }
    }

    /// A step that drops the top of the path keeps `dfs_reach_ok`.
    proof fn lemma_pop_keeps_reach(self, after: Self, maze: Maze, o0: MazeOverlay, o1: MazeOverlay)
        requires
            self.inv(&maze, &o0),
            !self.is_done(),
            self.cursor() is None,
            self.frames().len() > 0,
            !(self.frames().last().cell.x == maze.w - 1 && self.frames().last().cell.y == maze.h - 1),
            ({
                let c = self.frames().last().cell;
                &&& forall|i: int|
                    self.frames().last().next_dir_idx <= i < 4 ==> #[trigger] blocked(
                        maze,
                        self.discovered_cells(),
                        c,
                        i,
                    )
                &&& after.frames() =~= self.frames().drop_last()
                &&& c == (Vec2i { x: 0, y: 0 }) ==> after.is_done()
                &&& c != (Vec2i { x: 0, y: 0 }) ==> !after.is_done()
                &&& after.discovered_cells() =~= self.discovered_cells()
                &&& after.cursor() is None
            }),
            dfs_reach_ok(self, maze, o0),
        ensures
            dfs_reach_ok(after, maze, o1),
    {
        let start = Vec2i { x: 0, y: 0 };
        let goal = Vec2i { x: (maze.w - 1) as i32, y: (maze.h - 1) as i32 };
        let f = self.frames();
        let f1 = after.frames();
        let k = f.len();
        let c = f.last().cell;
        let v = self.discovered_cells();
        let cells = frame_cells(f);
        let cells1 = frame_cells(f1);
        assert(maze.contains(c)) by {
            assert(maze.contains(self.stack@[k - 1].cell));
        }
        maze.lemma_contains_coords_ok(start);
        maze.lemma_contains_coords_ok(goal);
        assert forall|p: Vec2i| #[trigger] cells.contains(p) && p != c implies cells1.contains(p) by {
            let i = choose|i: int| 0 <= i < cells.len() && cells[i] == p;
            assert(i < k - 1);
            assert(cells1[i] == p);
        }
        assert forall|p: Vec2i, d: Dir|
            #![trigger v[maze.index_of(p)], step_toward(p, d)]
            maze.contains(p) && v[maze.index_of(p)] && !cells1.contains(p) && !maze.wall_of(p, d) && maze.contains(
                step_toward(p, d),
            ) implies v[maze.index_of(step_toward(p, d))] by {
            if p == c {
                let jj = dir_index(d);
                assert(dir_from_index(jj) == d);
                if jj < f.last().next_dir_idx {
                    assert(blocked(maze, v, f[k - 1].cell, jj));
                } else {
                    assert(blocked(maze, v, c, jj));
                }
            } else {
                assert(!cells.contains(p));
            }
        }
        if v[maze.index_of(goal)] {
            assert(cells.contains(goal));
            assert(cells1.contains(goal));
        }
        if c == start {
            assert(k == 1) by {
                if k > 1 {
                    assert(f[k - 1].cell == c);
                }
            }
            assert(cells1 =~= Seq::<Vec2i>::empty());
            if joined(maze, start, goal) {
                let n = choose|n: nat| walk(maze, start, goal, n);
                lemma_closed_reaches(maze, v, start, goal, n);
                assert(cells1.contains(goal));
                assert(false);
            }
        } else {
            assert(k > 1) by {
                if k == 1 {
                    assert(f[0].cell == start);
                }
            }
            assert(f1[0] == f[0]);
            assert forall|i: int| 0 < i < f1.len() implies (#[trigger] f1[i]).cell != start by {
                assert(f1[i] == f[i]);
            }
            assert forall|i: int, jj: int|
                0 <= i < f1.len() && 0 <= jj < f1[i].next_dir_idx implies #[trigger] blocked(maze, v, f1[i].cell, jj) by {
                assert(f1[i] == f[i]);
                assert(blocked(maze, v, f[i].cell, jj));
            }
        }
    }

    /// One step keeps `dfs_reach_ok`.
    proof fn lemma_step_keeps_reach(
        self,
        after: Self,
        maze: Maze,
        o0: MazeOverlay,
        o1: MazeOverlay,
        updated: Seq<Vec2i>,
    )
        requires
            self.inv(&maze, &o0),
            after.inv(&maze, &o1),
            self.step_post(after, maze, o0, o1, updated),
            dfs_reach_ok(self, maze, o0),
        ensures
            dfs_reach_ok(after, maze, o1),
    {
        let start = Vec2i { x: 0, y: 0 };
        let goal = Vec2i { x: (maze.w - 1) as i32, y: (maze.h - 1) as i32 };
        if self.is_done() {
            assert(solution_cells(maze, o1) =~= solution_cells(maze, o0));
        } else if self.cursor() is Some {
            let c = self.cursor()->0;
            lemma_solution_cells_update(maze, o0, o1, c, CellMark::Solution);
            assert(solution_cells(maze, o1).contains(c));
        } else if self.frames().len() == 0 {
            assert(frame_cells(self.frames()) =~= Seq::<Vec2i>::empty());
            if joined(maze, start, goal) {
                let n = choose|n: nat| walk(maze, start, goal, n);
                lemma_closed_reaches(maze, self.discovered_cells(), start, goal, n);
                assert(false);
            }
        } else {
            let c = self.frames().last().cell;
            let k = self.frames().len();
            if o0.mark_at(maze.w as int, c) == CellMark::Unmarked {
            } else if c.x == maze.w - 1 && c.y == maze.h - 1 {
            } else if after.frames().len() == k + 1 {
                let q = after.frames().last().cell;
                assert(maze.contains(q)) by {
                    assert(maze.contains(after.stack@[k as int].cell));
                }
                self.lemma_push_keeps_reach(after, maze, o0, o1);
            } else {
                self.lemma_pop_keeps_reach(after, maze, o0, o1);
            }
        }
    }
}

/// Along a run of depth-first search steps begun in a state where `dfs_reach_ok` holds, it
/// keeps holding.
proof fn lemma_dfs_run_keeps_reach(maze: Maze, states: Seq<(Solver, MazeOverlay)>, outs: Seq<Seq<Vec2i>>)
    requires
        solve_run(maze, states, outs),
        forall|i: int|
            0 <= i < states.len() ==> (#[trigger] states[i]).0 is Dfs && states[i].0.inv(&maze, &states[i].1),
        states[0].0 matches Solver::Dfs(d) && dfs_reach_ok(d, maze, states[0].1),
    ensures
        states.last().0 matches Solver::Dfs(d) && dfs_reach_ok(d, maze, states.last().1),
    decreases outs.len(),
{
    if outs.len() == 0 {
        assert(states.last() == states[0]);
    } else {
        let k = outs.len() - 1;
        let prefix = states.drop_last();
        assert(prefix[0] == states[0]);
        assert forall|i: int| 0 <= i < prefix.len() implies (#[trigger] prefix[i]).0 is Dfs && prefix[i].0.inv(
            &maze,
            &prefix[i].1,
        ) by {
            assert(prefix[i] == states[i]);
        }
        lemma_dfs_run_keeps_reach(maze, prefix, outs.drop_last());
        assert(prefix.last() == states[k]);
        assert(states[k].0 is Dfs && states[k + 1].0 is Dfs);
        if let Solver::Dfs(a) = states[k].0 {
            if let Solver::Dfs(b) = states[k + 1].0 {
                a.lemma_step_keeps_reach(b, maze, states[k].1, states[k + 1].1, outs[k]);
            }
        }
    }
}

/// Depth-first search finds the goal whenever it can be reached: once a run of its steps,
/// begun from a fresh search (a path holding only the start with no direction tried, only the
/// start discovered, nothing revealed) on an overlay with no cell marked as solution, is
/// done, and some walk through open walls leads from the start to the goal, the cells marked
/// as solution are exactly those of a path from the goal to the start through open walls.
pub proof fn lemma_dfs_run_marks_a_path_when_the_goal_is_reachable(
    maze: Maze,
    states: Seq<(Solver, MazeOverlay)>,
    outs: Seq<Seq<Vec2i>>,
)
    requires
        solve_run(maze, states, outs),
        forall|i: int|
            0 <= i < states.len() ==> (#[trigger] states[i]).0 is Dfs && states[i].0.inv(&maze, &states[i].1),
        states[0].0 matches Solver::Dfs(d) && d.cursor() is None && !d.is_done() && d.frames() == seq![
            DfsFrame { cell: Vec2i { x: 0, y: 0 }, next_dir_idx: 0 },
        ] && forall|i: int| 0 <= i < d.discovered_cells().len() ==> d.discovered_cells()[i] == (i == 0),
        solution_cells(maze, states[0].1) == Set::<Vec2i>::empty(),
        states.last().0.is_done(),
        joined(maze, Vec2i { x: 0, y: 0 }, Vec2i { x: (maze.w - 1) as i32, y: (maze.h - 1) as i32 }),
    ensures
        exists|path: Seq<Vec2i>|
            goal_to_start_path(maze, path) && solution_cells(maze, states.last().1) == path.to_set(),
{
    let start = Vec2i { x: 0, y: 0 };
    if let Solver::Dfs(d) = states[0].0 {
        assert(states[0].0.inv(&maze, &states[0].1));
        assert(maze.wf() && maze.cell_count() >= 1 && d.discovered_cells().len() == maze.cell_count());
        maze.lemma_contains_coords_ok(start);
        maze.lemma_origin_index();
        let v = d.discovered_cells();
        let cells = frame_cells(d.frames());
        assert(cells[0] == start);
        assert forall|p: Vec2i, e: Dir|
            #![trigger v[maze.index_of(p)], step_toward(p, e)]
            maze.contains(p) && v[maze.index_of(p)] && !cells.contains(p) && !maze.wall_of(p, e)
                && maze.contains(step_toward(p, e)) implies v[maze.index_of(step_toward(p, e))] by {
            maze.lemma_contains_coords_ok(p);
            maze.lemma_index_of_injective(p, start);
        }
        let goal = Vec2i { x: (maze.w - 1) as i32, y: (maze.h - 1) as i32 };
        maze.lemma_contains_coords_ok(goal);
        if v[maze.index_of(goal)] {
            maze.lemma_index_of_injective(goal, start);
        }
        assert(dfs_reach_ok(d, maze, states[0].1));
    }
    lemma_dfs_run_keeps_reach(maze, states, outs);
    lemma_dfs_run_keeps_solution_marks(maze, states, outs);
}

} // verus!
