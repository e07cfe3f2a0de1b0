pub mod bfs;
pub mod dfs;
pub mod flood_fill;

use vstd::prelude::*;

use crate::builders::{index_from_nanos, nanos_index};
use crate::rng::{fold_nanos, time_seed};
use crate::forest::walk;
use crate::types::{CellMark, Dir, Maze, MazeOverlay, Vec2i, overlay_index, step_toward};
use crate::util::{normalize_name, normalized_name};

verus! {

/// A maze solver that explores a few cells at a time, drawing on an overlay.
pub trait SolveStrategy: Sized {
    /// What holds of the solver, the maze and the overlay between two steps.
    spec fn inv(&self, maze: &Maze, overlay: &MazeOverlay) -> bool;

    spec fn is_done(&self) -> bool;

    fn name(&self) -> &'static str;

    fn done(&self) -> (b: bool)
        ensures
            b == self.is_done(),
    ;

    /// Performs one step and returns the cells whose drawing changed.
    fn step(&mut self, maze: &Maze, overlay: &mut MazeOverlay) -> (updated: Vec<Vec2i>)
        requires
            old(self).inv(maze, old(overlay)),
        ensures
            final(self).inv(maze, final(overlay)),
    ;
}

/// `q` is the neighbour of `p` across an open wall.
pub open spec fn open_link(m: Maze, p: Vec2i, q: Vec2i) -> bool {
    exists|d| q == #[trigger] step_toward(p, d) && m.contains(q) && !m.wall_of(p, d)
}

/// Every recorded parent of a cell of the grid is its neighbour across an open wall.
pub open spec fn parents_linked(m: Maze, parent: Seq<Option<Vec2i>>) -> bool {
    forall|p: Vec2i|
        #![trigger parent[m.index_of(p)]]
        m.contains(p) && parent[m.index_of(p)] is Some ==> open_link(m, p, parent[m.index_of(p)]->0)
}

/// The maze and the overlay fit each other.
pub open spec fn board_ok(m: &Maze, overlay: &MazeOverlay) -> bool {
    &&& m.wf()
    &&& m.cell_count() >= 1
    &&& overlay.wf()
    &&& overlay.cell_count() == m.cell_count()
}

pub proof fn lemma_addressable(m: &Maze, overlay: &MazeOverlay, p: Vec2i)
    requires
        board_ok(m, overlay),
        m.contains(p),
    ensures
        overlay.addressable(m.w as int, p),
        overlay_index(m.w as int, p) == m.index_of(p),
        0 <= m.index_of(p) < m.cell_count(),
        crate::types::coords_ok(p),
{
    m.lemma_contains_coords_ok(p);
}

/// The parent links `ps` after each of `cells`, in order, has been given `c` as parent.
pub open spec fn link_parents(ps: Seq<Option<Vec2i>>, m: Maze, cells: Seq<Vec2i>, c: Vec2i) -> Seq<
    Option<Vec2i>,
>
    decreases cells.len(),
{
    if cells.len() == 0 {
        ps
    } else {
        link_parents(ps, m, cells.drop_last(), c).update(m.index_of(cells.last()), Some(c))
    }
}

/// Marks `cursor` as part of the solution and returns the next cell to mark (its parent)
/// and whether the start has been reached.
pub fn advance_reveal(
    cursor: Vec2i,
    start: Vec2i,
    parent: &Vec<Option<Vec2i>>,
    maze: &Maze,
    overlay: &mut MazeOverlay,
) -> (r: (Option<Vec2i>, bool))
    requires
        board_ok(maze, old(overlay)),
        maze.contains(cursor),
        parent@.len() == maze.cell_count(),
    ensures
        final(overlay).mark_cells() == old(overlay).mark_cells().update(
            maze.index_of(cursor),
            CellMark::Solution,
        ),
        final(overlay).parent_cells() == old(overlay).parent_cells(),
        cursor == start ==> r == (None::<Vec2i>, true),
        cursor != start ==> r == (parent@[maze.index_of(cursor)], false),
{
    proof {
        lemma_addressable(maze, overlay, cursor);
    }
    overlay.set(maze.w, cursor, CellMark::Solution);
    if cursor == start {
        (None, true)
    } else {
        (parent[maze.idx(cursor)], false)
    }
}

/// One of the maze solvers.
pub enum Solver {
    Dfs(dfs::DfsSolver),
    Bfs(bfs::BfsSolver),
    FloodFill(flood_fill::FloodFillSolver),
}

/// The display name of the solver at position `idx` of the list DFS, BFS, Flood Fill.
pub open spec fn solver_label(idx: int) -> Seq<char> {
    if idx == 0 {
        "DFS"@
    } else if idx == 1 {
        "BFS"@
    } else {
        "Flood Fill"@
    }
}

/// The position of a solver in the list of `build_solver_at`.
pub open spec fn solver_position(s: Solver) -> int {
    match s {
        Solver::Dfs(_) => 0,
        Solver::Bfs(_) => 1,
        Solver::FloodFill(_) => 2,
    }
}

impl Solver {
    /// What one step does: the solver keeps its kind, and the step contract of the solver
    /// inside holds.
    pub open spec fn step_post(self, after: Self, maze: Maze, o0: MazeOverlay, o1: MazeOverlay, updated: Seq<Vec2i>) -> bool {
        match (self, after) {
            (Solver::Dfs(a), Solver::Dfs(b)) => a.step_post(b, maze, o0, o1, updated),
            (Solver::Bfs(a), Solver::Bfs(b)) => a.step_post(b, maze, o0, o1, updated),
            (Solver::FloodFill(a), Solver::FloodFill(b)) => a.step_post(b, maze, o0, o1, updated),
            _ => false,
        }
    }
}

impl SolveStrategy for Solver {
    open spec fn inv(&self, maze: &Maze, overlay: &MazeOverlay) -> bool {
        match self {
            Solver::Dfs(s) => s.inv(maze, overlay),
            Solver::Bfs(s) => s.inv(maze, overlay),
            Solver::FloodFill(s) => s.inv(maze, overlay),
        }
    }

    open spec fn is_done(&self) -> bool {
        match self {
            Solver::Dfs(s) => s.is_done(),
            Solver::Bfs(s) => s.is_done(),
            Solver::FloodFill(s) => s.is_done(),
        }
    }

    fn name(&self) -> (s: &'static str)
        ensures
            s@ == solver_label(solver_position(*self)),
    {
        match self {
            Solver::Dfs(s) => s.name(),
            Solver::Bfs(s) => s.name(),
            Solver::FloodFill(s) => s.name(),
        }
    }

    fn done(&self) -> (b: bool) {
        match self {
            Solver::Dfs(s) => s.done(),
            Solver::Bfs(s) => s.done(),
            Solver::FloodFill(s) => s.done(),
        }
    }

    fn step(&mut self, maze: &Maze, overlay: &mut MazeOverlay) -> (updated: Vec<Vec2i>)
        ensures
            old(self).step_post(*final(self), *maze, *old(overlay), *final(overlay), updated@),
    {
        match self {
            Solver::Dfs(s) => s.step(maze, overlay),
            Solver::Bfs(s) => s.step(maze, overlay),
            Solver::FloodFill(s) => s.step(maze, overlay),
        }
    }
}

/// What every solver needs of the maze it runs on: a consistent grid with at least one cell.
pub open spec fn solvable_maze(maze: &Maze) -> bool {
    &&& maze.wf()
    &&& maze.w >= 1
    &&& maze.h >= 1
}

pub fn build_dfs_solver(maze: &Maze) -> (s: Solver)
    requires
        solvable_maze(maze),
    ensures
        s is Dfs,
        !s.is_done(),
        forall|o: MazeOverlay| #[trigger] board_ok(maze, &o) ==> s.inv(maze, &o),
{
    Solver::Dfs(dfs::DfsSolver::new(maze))
}

pub fn build_bfs_solver(maze: &Maze) -> (s: Solver)
    requires
        solvable_maze(maze),
    ensures
        s is Bfs,
        !s.is_done(),
        forall|o: MazeOverlay| #[trigger] board_ok(maze, &o) ==> s.inv(maze, &o),
{
    Solver::Bfs(bfs::BfsSolver::new(maze))
}

pub fn build_flood_fill_solver(maze: &Maze) -> (s: Solver)
    requires
        solvable_maze(maze),
    ensures
        s is FloodFill,
        !s.is_done(),
        forall|o: MazeOverlay| #[trigger] board_ok(maze, &o) ==> s.inv(maze, &o),
{
    Solver::FloodFill(flood_fill::FloodFillSolver::new(maze))
}

/// How many solvers `build_solver_at` offers.
pub fn solver_count() -> (n: usize)
    ensures
        n == 3,
{
    3
}

/// The solver at position `idx` of the list DFS, BFS, Flood Fill.
pub fn build_solver_at(idx: usize, maze: &Maze) -> (s: Solver)
    requires
        idx < 3,
        solvable_maze(maze),
    ensures
        solver_position(s) == idx,
        !s.is_done(),
        forall|o: MazeOverlay| #[trigger] board_ok(maze, &o) ==> s.inv(maze, &o),
{
    if idx == 0 {
        build_dfs_solver(maze)
    } else if idx == 1 {
        build_bfs_solver(maze)
    } else {
        build_flood_fill_solver(maze)
    }
}

/// A position below `len` taken from the clock: the seed folded from the nanoseconds since
/// the Unix epoch, modulo `len`.
pub fn random_index(len: usize) -> (i: usize)
    requires
        len > 0,
    ensures
        i < len,
        exists|nanos: u128| i == nanos_index(#[trigger] fold_nanos(nanos), len),
{
    let seed = time_seed();
    index_from_nanos(seed, len)
}

/// A solver picked at random from the list of `build_solver_at`.
pub fn build_solver(maze: &Maze) -> (s: Solver)
    requires
        solvable_maze(maze),
    ensures
        solver_position(s) < 3,
        !s.is_done(),
        forall|o: MazeOverlay| #[trigger] board_ok(maze, &o) ==> s.inv(maze, &o),
{
    build_solver_at(random_index(solver_count()), maze)
}

/// The canonical names of the solvers, in the order of `build_solver_at`.
pub fn solver_names() -> (names: Vec<String>)
    ensures
        names@.len() == 3,
        forall|i: int| 0 <= i < 3 ==> #[trigger] names@[i]@ == normalized_name(solver_label(i)),
{
    let dummy = Maze::new(5, 5);
    let mut names: Vec<String> = Vec::new();
    let mut i: usize = 0;
    while i < 3
        invariant
            i <= 3,
            solvable_maze(&dummy),
            names@.len() == i,
            forall|j: int| 0 <= j < i ==> #[trigger] names@[j]@ == normalized_name(solver_label(j)),
        decreases 3 - i,
    {
        let s = build_solver_at(i, &dummy);
        names.push(normalize_name(s.name()));
        i = i + 1;
    }
    names
}

/// The position of the solver whose canonical name matches that of `name`, if any.
pub fn find_solver_index(name: &str) -> (r: Option<usize>)
    ensures
        match r {
            Some(i) => i < 3 && normalized_name(solver_label(i as int)) == normalized_name(name@)
                && forall|j: int| 0 <= j < i ==> normalized_name(solver_label(j)) != normalized_name(name@),
            None => forall|j: int| 0 <= j < 3 ==> normalized_name(solver_label(j)) != normalized_name(name@),
        },
{
    let needle = normalize_name(name);
    let names = solver_names();
    let mut i: usize = 0;
    while i < names.len()
        invariant
            i <= names@.len(),
            names@.len() == 3,
            needle@ == normalized_name(name@),
            forall|j: int| 0 <= j < 3 ==> #[trigger] names@[j]@ == normalized_name(solver_label(j)),
            forall|j: int| 0 <= j < i ==> normalized_name(solver_label(j)) != normalized_name(name@),
        decreases names@.len() - i,
    {
        if names[i] == needle {
            return Some(i);
        }
        i = i + 1;
    }
    None
}

/// Every discovered (reached) cell but the start has a parent, and that parent was discovered too.
pub open spec fn parents_reach_start(maze: Maze, discovered: Seq<bool>, parent: Seq<Option<Vec2i>>) -> bool {
    forall|p: Vec2i|
        #![trigger parent[maze.index_of(p)]]
        maze.contains(p) && discovered[maze.index_of(p)] && p != (Vec2i { x: 0, y: 0 })
            ==> parent[maze.index_of(p)] is Some && discovered[maze.index_of(parent[maze.index_of(p)]->0)]
}

/// The cells of the grid that the overlay marks as part of the solution.
pub open spec fn solution_cells(maze: Maze, o: MazeOverlay) -> Set<Vec2i> {
    Set::new(|p: Vec2i| maze.contains(p) && o.mark_at(maze.w as int, p) == CellMark::Solution)
}

/// `path` leads from the goal (the bottom-right cell) to the start (the top-left cell), each
/// cell the neighbour of the one before across an open wall.
pub open spec fn goal_to_start_path(maze: Maze, path: Seq<Vec2i>) -> bool {
    &&& path.len() >= 1
    &&& path[0] == (Vec2i { x: (maze.w - 1) as i32, y: (maze.h - 1) as i32 })
    &&& path.last() == (Vec2i { x: 0, y: 0 })
    &&& forall|i: int| 0 <= i < path.len() ==> maze.contains(#[trigger] path[i])
    &&& forall|i: int| 0 <= i < path.len() - 1 ==> open_link(maze, #[trigger] path[i], path[i + 1])
}

/// `rev` is the part of the solution marked so far, from the goal along the parent links
/// up to `c` (the next cell to mark), each link across an open wall.
pub open spec fn marked_chain(maze: Maze, parents: Seq<Option<Vec2i>>, rev: Seq<Vec2i>, c: Vec2i) -> bool {
    &&& maze.contains(c)
    &&& rev.len() == 0 ==> c == (Vec2i { x: (maze.w - 1) as i32, y: (maze.h - 1) as i32 })
    &&& rev.len() > 0 ==> rev[0] == (Vec2i { x: (maze.w - 1) as i32, y: (maze.h - 1) as i32 })
        && parents[maze.index_of(rev.last())] == Some(c) && open_link(maze, rev.last(), c)
    &&& forall|i: int| 0 <= i < rev.len() ==> maze.contains(#[trigger] rev[i])
    &&& forall|i: int| 0 <= i < rev.len() - 1 ==> open_link(maze, #[trigger] rev[i], rev[i + 1])
}

/// Changing the mark of one cell `c` changes the solution cells at `c` alone.
pub proof fn lemma_solution_cells_update(maze: Maze, o0: MazeOverlay, o1: MazeOverlay, c: Vec2i, m: CellMark)
    requires
        board_ok(&maze, &o0),
        maze.contains(c),
        o1.mark_cells() == o0.mark_cells().update(maze.index_of(c), m),
    ensures
        solution_cells(maze, o1) == if m == CellMark::Solution {
            solution_cells(maze, o0).insert(c)
        } else {
            solution_cells(maze, o0).remove(c)
        },
{
    lemma_addressable(&maze, &o0, c);
    assert forall|p: Vec2i| #[trigger] solution_cells(maze, o1).contains(p) == (if m == CellMark::Solution {
        solution_cells(maze, o0).insert(c)
    } else {
        solution_cells(maze, o0).remove(c)
    }).contains(p) by {
        if maze.contains(p) {
            lemma_addressable(&maze, &o0, p);
            if p != c {
                if maze.index_of(p) == maze.index_of(c) {
                    maze.lemma_index_of_injective(p, c);
                }
            }
        }
    }
    assert(solution_cells(maze, o1) =~= if m == CellMark::Solution {
        solution_cells(maze, o0).insert(c)
    } else {
        solution_cells(maze, o0).remove(c)
    });
}

/// What the solution marks are at each point of a solver's run, given whether it is done, its
/// reveal cursor and its parent links: none while searching; the chain from the goal to the
/// cursor while revealing; once done, none or a whole path from the goal to the start.
pub open spec fn solution_marks_in_order(
    done: bool,
    cursor: Option<Vec2i>,
    parents: Seq<Option<Vec2i>>,
    maze: Maze,
    o: MazeOverlay,
) -> bool {
    &&& (!done && cursor is None) ==> solution_cells(maze, o) == Set::<Vec2i>::empty()
    &&& (!done && cursor is Some) ==> exists|rev: Seq<Vec2i>|
        marked_chain(maze, parents, rev, cursor->0) && solution_cells(maze, o) == rev.to_set()
    &&& done ==> solution_cells(maze, o) == Set::<Vec2i>::empty() || exists|path: Seq<Vec2i>|
        goal_to_start_path(maze, path) && solution_cells(maze, o) == path.to_set()
}

/// Every cell that `v` marks, other than those still in `pending`, has each neighbour
/// across an open wall marked as well.
pub open spec fn closed_except(m: Maze, v: Seq<bool>, pending: Seq<Vec2i>) -> bool {
    forall|p: Vec2i, d: Dir|
        #![trigger v[m.index_of(p)], step_toward(p, d)]
        m.contains(p) && v[m.index_of(p)] && !pending.contains(p) && !m.wall_of(p, d) && m.contains(
            step_toward(p, d),
        ) ==> v[m.index_of(step_toward(p, d))]
}

/// A marking closed under open passages holds every cell that a walk reaches from a marked
/// cell.
pub proof fn lemma_closed_reaches(m: Maze, v: Seq<bool>, a: Vec2i, b: Vec2i, n: nat)
    requires
        m.wf(),
        closed_except(m, v, Seq::<Vec2i>::empty()),
        m.contains(a),
        v[m.index_of(a)],
        walk(m, a, b, n),
    ensures
        m.contains(b),
        v[m.index_of(b)],
    decreases n,
{
    if a != b {
        let d = choose|d: Dir|
            #![trigger step_toward(a, d)]
            m.contains(step_toward(a, d)) && m.open_edges().contains(m.edge_key(a, d)) && walk(
                m,
                step_toward(a, d),
                b,
                (n - 1) as nat,
            );
        m.lemma_edge_key(a, d);
        assert(!Seq::<Vec2i>::empty().contains(a));
        lemma_closed_reaches(m, v, step_toward(a, d), b, (n - 1) as nat);
    }
}

} // verus!
