pub mod blocks;
pub mod half_blocks;
pub mod lines;
pub mod point_order;

use std::collections::BTreeSet;

use vstd::prelude::*;

use crate::types::{Dir, Maze, MazeOverlay, RenderStyle, Vec2i, opposite_dir, step_toward};
use point_order::{lemma_points_ordered, points_ordered};

verus! {

/// Rows of the drawing grid: a wall row above every cell row and one below the last.
pub open spec fn grid_rows(m: Maze) -> int {
    2 * m.h + 1
}

/// Columns of the drawing grid: a wall column left of every cell column and one after the last.
pub open spec fn grid_cols(m: Maze) -> int {
    2 * m.w + 1
}

/// The drawing grid of `m` fits in memory as one flat buffer.
pub open spec fn drawable(m: Maze) -> bool {
    &&& m.wf()
    &&& grid_rows(m) * grid_cols(m) <= usize::MAX
}

/// The cell in column `x` and row `y`.
pub open spec fn cell_xy(x: int, y: int) -> Vec2i {
    Vec2i { x: x as i32, y: y as i32 }
}

/// At an even row and odd column of the drawing grid: the wall between the cell above and
/// the cell below stands (as seen from either side that exists).
pub open spec fn h_wall(m: Maze, gy: int, gx: int) -> bool {
    let x = (gx - 1) / 2;
    let cy = gy / 2;
    (cy >= 1 && m.wall_of(cell_xy(x, cy - 1), Dir::S)) || (cy < m.h && m.wall_of(cell_xy(x, cy), Dir::N))
}

/// At an odd row and even column of the drawing grid: the wall between the cell to the left
/// and the cell to the right stands (as seen from either side that exists).
pub open spec fn v_wall(m: Maze, gy: int, gx: int) -> bool {
    let y = (gy - 1) / 2;
    let cx = gx / 2;
    (cx >= 1 && m.wall_of(cell_xy(cx - 1, y), Dir::E)) || (cx < m.w && m.wall_of(cell_xy(cx, y), Dir::W))
}

/// Whether a drawing-grid position between two cells shows a wall; cell centres and corners
/// do not count.
pub open spec fn wall_piece(m: Maze, gy: int, gx: int) -> bool {
    if gy % 2 == 0 && gx % 2 == 1 {
        h_wall(m, gy, gx)
    } else if gy % 2 == 1 && gx % 2 == 0 {
        v_wall(m, gy, gx)
    } else {
        false
    }
}

/// The wall pieces of the drawing grid are the maze's walls: between a cell and the cell
/// below it, or the cell to its right, a piece is drawn exactly when the wall between them
/// stands; cell centres and corners are no pieces; and when the walls facing out of the grid
/// stand, every piece on the border is drawn.
pub proof fn lemma_wall_pieces_are_walls(m: Maze)
    requires
        m.wf(),
    ensures
        forall|x: int, y: int|
            0 <= x < m.w && 0 <= y && y + 1 < m.h ==> #[trigger] wall_piece(m, 2 * y + 2, 2 * x + 1)
                == m.wall_of(cell_xy(x, y), Dir::S),
        forall|x: int, y: int|
            0 <= x && x + 1 < m.w && 0 <= y < m.h ==> #[trigger] wall_piece(m, 2 * y + 1, 2 * x + 2)
                == m.wall_of(cell_xy(x, y), Dir::E),
        forall|gy: int, gx: int|
            0 <= gy && 0 <= gx && gy % 2 == gx % 2 ==> !#[trigger] wall_piece(m, gy, gx),
        m.outer_walls_closed() ==> forall|x: int|
            0 <= x < m.w && m.h >= 1 ==> #[trigger] wall_piece(m, 0, 2 * x + 1) && wall_piece(
                m,
                2 * m.h,
                2 * x + 1,
            ),
        m.outer_walls_closed() ==> forall|y: int|
            0 <= y < m.h && m.w >= 1 ==> #[trigger] wall_piece(m, 2 * y + 1, 0) && wall_piece(
                m,
                2 * y + 1,
                2 * m.w,
            ),
{
    assert forall|x: int, y: int| 0 <= x < m.w && 0 <= y && y + 1 < m.h implies #[trigger] wall_piece(
        m,
        2 * y + 2,
        2 * x + 1,
    ) == m.wall_of(cell_xy(x, y), Dir::S) by {
        assert((2 * y + 2) % 2 == 0 && (2 * x + 1) % 2 == 1);
        assert((2 * x + 1 - 1) / 2 == x && (2 * y + 2) / 2 == y + 1);
        let p = cell_xy(x, y);
        assert(m.contains(p) && m.contains(step_toward(p, Dir::S)));
        assert(step_toward(p, Dir::S) == cell_xy(x, y + 1));
        assert(m.wall_of(p, Dir::S) == m.wall_of(step_toward(p, Dir::S), opposite_dir(Dir::S)));
    }
    assert forall|x: int, y: int| 0 <= x && x + 1 < m.w && 0 <= y < m.h implies #[trigger] wall_piece(
        m,
        2 * y + 1,
        2 * x + 2,
    ) == m.wall_of(cell_xy(x, y), Dir::E) by {
        assert((2 * y + 1) % 2 == 1 && (2 * x + 2) % 2 == 0);
        assert((2 * y + 1 - 1) / 2 == y && (2 * x + 2) / 2 == x + 1);
        let p = cell_xy(x, y);
        assert(m.contains(p) && m.contains(step_toward(p, Dir::E)));
        assert(step_toward(p, Dir::E) == cell_xy(x + 1, y));
        assert(m.wall_of(p, Dir::E) == m.wall_of(step_toward(p, Dir::E), opposite_dir(Dir::E)));
    }
    if m.outer_walls_closed() {
        assert forall|x: int| 0 <= x < m.w && m.h >= 1 implies #[trigger] wall_piece(m, 0, 2 * x + 1)
            && wall_piece(m, 2 * m.h, 2 * x + 1) by {
            assert((2 * x + 1) % 2 == 1 && (2 * x + 1 - 1) / 2 == x);
            assert((2 * m.h) % 2 == 0 && (2 * m.h) / 2 == m.h);
            let top = cell_xy(x, 0);
            assert(m.contains(top) && !m.contains(step_toward(top, Dir::N)));
            assert(m.wall_of(top, Dir::N));
            let bottom = cell_xy(x, m.h - 1);
            assert(m.contains(bottom) && !m.contains(step_toward(bottom, Dir::S)));
            assert(m.wall_of(bottom, Dir::S));
        }
        assert forall|y: int| 0 <= y < m.h && m.w >= 1 implies #[trigger] wall_piece(m, 2 * y + 1, 0)
            && wall_piece(m, 2 * y + 1, 2 * m.w) by {
            assert((2 * y + 1) % 2 == 1 && (2 * y + 1 - 1) / 2 == y);
            assert((2 * m.w) % 2 == 0 && (2 * m.w) / 2 == m.w);
            let left = cell_xy(0, y);
            assert(m.contains(left) && !m.contains(step_toward(left, Dir::W)));
            assert(m.wall_of(left, Dir::W));
            let right = cell_xy(m.w - 1, y);
            assert(m.contains(right) && !m.contains(step_toward(right, Dir::E)));
            assert(m.wall_of(right, Dir::E));
        }
    }
}

/// Checks a wall piece of the drawing grid against the maze.
pub fn is_wall_piece(maze: &Maze, gy: usize, gx: usize) -> (b: bool)
    requires
        maze.wf(),
        gy < grid_rows(*maze),
        gx < grid_cols(*maze),
    ensures
        b == wall_piece(*maze, gy as int, gx as int),
{
    if gy % 2 == 0 && gx % 2 == 1 {
        let x = (gx - 1) / 2;
        let cy = gy / 2;
        let above = cy >= 1 && maze.has_wall(Vec2i { x: x as i32, y: (cy - 1) as i32 }, Dir::S);
        let below = cy < maze.h && maze.has_wall(Vec2i { x: x as i32, y: cy as i32 }, Dir::N);
        above || below
    } else if gy % 2 == 1 && gx % 2 == 0 {
        let y = (gy - 1) / 2;
        let cx = gx / 2;
        let left = cx >= 1 && maze.has_wall(Vec2i { x: (cx - 1) as i32, y: y as i32 }, Dir::E);
        let right = cx < maze.w && maze.has_wall(Vec2i { x: cx as i32, y: y as i32 }, Dir::W);
        left || right
    } else {
        false
    }
}

/// The drawing-grid positions around `c`: its centre, its four walls and its four corners.
pub open spec fn cell_block(c: Vec2i, pt: (usize, usize)) -> bool {
    2 * c.y <= pt.0 <= 2 * c.y + 2 && 2 * c.x <= pt.1 <= 2 * c.x + 2
}

/// Every cell has coordinates whose drawing-grid positions fit in a `usize`.
pub open spec fn drawable_cells(cells: Seq<Vec2i>) -> bool {
    forall|i: int|
        0 <= i < cells.len() ==> 0 <= #[trigger] cells[i].x && 0 <= cells[i].y && 2 * cells[i].x + 2
            <= usize::MAX && 2 * cells[i].y + 2 <= usize::MAX
}

/// The drawing-grid positions that may change when the walls of `cells` change: the centre,
/// walls and corners of each.
pub fn maze_update_points(cells: Vec<Vec2i>) -> (points: BTreeSet<(usize, usize)>)
    requires
        drawable_cells(cells@),
    ensures
        forall|pt: (usize, usize)|
            #[trigger] points@.contains(pt) <==> exists|i: int|
                0 <= i < cells@.len() && cell_block(#[trigger] cells@[i], pt),
{
    proof {
        lemma_points_ordered();
    }
    let mut points: BTreeSet<(usize, usize)> = BTreeSet::new();
    let mut i: usize = 0;
    while i < cells.len()
        invariant
            i <= cells@.len(),
            drawable_cells(cells@),
            points_ordered(),
            forall|pt: (usize, usize)|
                #[trigger] points@.contains(pt) <==> exists|j: int|
                    0 <= j < i && cell_block(#[trigger] cells@[j], pt),
        decreases cells@.len() - i,
    {
        let cell = cells[i];
        assert(0 <= cells@[i as int].x && 0 <= cells@[i as int].y);
        let gy = (cell.y as usize) * 2 + 1;
        let gx = (cell.x as usize) * 2 + 1;
        let ghost p0 = points@;
        points.insert((gy, gx));
        points.insert((gy - 1, gx));
        points.insert((gy + 1, gx));
        points.insert((gy, gx - 1));
        points.insert((gy, gx + 1));
        points.insert((gy - 1, gx - 1));
        points.insert((gy - 1, gx + 1));
        points.insert((gy + 1, gx - 1));
        points.insert((gy + 1, gx + 1));
        proof {
            assert forall|pt: (usize, usize)| #[trigger] points@.contains(pt) <==> exists|j: int|
                0 <= j < i + 1 && cell_block(#[trigger] cells@[j], pt) by {
                if cell_block(cell, pt) {
                    assert(points@.contains(pt));
                }
                if points@.contains(pt) && !p0.contains(pt) {
                    assert(cell_block(cells@[i as int], pt));
                }
                if exists|j: int| 0 <= j < i + 1 && cell_block(#[trigger] cells@[j], pt) {
                    let j = choose|j: int| 0 <= j < i + 1 && cell_block(#[trigger] cells@[j], pt);
                    if j < i {
                        assert(p0.contains(pt));
                    }
                }
            }
        }
        i = i + 1;
    }
    points
}

/// A drawing-grid position touched by the overlay change of `c`: its centre, and the
/// position halfway to its recorded parent, if it has one.
pub open spec fn overlay_point(o: MazeOverlay, w: int, c: Vec2i, pt: (usize, usize)) -> bool {
    ||| pt == ((2 * c.y + 1) as usize, (2 * c.x + 1) as usize)
    ||| o.parent_at(w, c) matches Some(p) && pt == ((c.y + p.y + 1) as usize, (c.x + p.x + 1) as usize)
}

/// Every cell of `cells` is a cell of the overlay, and so is its recorded parent.
pub open spec fn overlay_cells_ok(maze: Maze, overlay: MazeOverlay, cells: Seq<Vec2i>) -> bool {
    &&& overlay.wf()
    &&& forall|i: int|
        0 <= i < cells.len() ==> {
            &&& maze.contains(#[trigger] cells[i])
            &&& overlay.addressable(maze.w as int, cells[i])
            &&& overlay.parent_at(maze.w as int, cells[i]) matches Some(p) ==> maze.contains(p)
        }
}

/// The drawing-grid positions that change when the overlay of `cells` changes: each cell's
/// centre and the position halfway to its parent.
pub fn overlay_update_points(maze: &Maze, overlay: &MazeOverlay, cells: Vec<Vec2i>) -> (points:
    BTreeSet<(usize, usize)>)
    requires
        drawable(*maze),
        overlay_cells_ok(*maze, *overlay, cells@),
    ensures
        forall|pt: (usize, usize)|
            #[trigger] points@.contains(pt) <==> exists|i: int|
                0 <= i < cells@.len() && overlay_point(*overlay, maze.w as int, #[trigger] cells@[i], pt),
        forall|i: int|
            0 <= i < cells@.len() ==> points@.contains(
                ((2 * (#[trigger] cells@[i]).y + 1) as usize, (2 * cells@[i].x + 1) as usize),
            ),
        forall|i: int|
            0 <= i < cells@.len() && (#[trigger] overlay.parent_at(maze.w as int, cells@[i])) is Some
                ==> points@.contains(
                (
                    (((2 * cells@[i].y + 1) + (2 * overlay.parent_at(maze.w as int, cells@[i])->0.y + 1))
                        / 2) as usize,
                    (((2 * cells@[i].x + 1) + (2 * overlay.parent_at(maze.w as int, cells@[i])->0.x + 1))
                        / 2) as usize,
                ),
            ),
{
    proof {
        lemma_points_ordered();
    }
    let mut points: BTreeSet<(usize, usize)> = BTreeSet::new();
    let mut i: usize = 0;
    while i < cells.len()
        invariant
            i <= cells@.len(),
            drawable(*maze),
            overlay_cells_ok(*maze, *overlay, cells@),
            points_ordered(),
            forall|pt: (usize, usize)|
                #[trigger] points@.contains(pt) <==> exists|j: int|
                    0 <= j < i && overlay_point(*overlay, maze.w as int, #[trigger] cells@[j], pt),
        decreases cells@.len() - i,
    {
        let cell = cells[i];
        assert(maze.contains(cells@[i as int]));
        proof {
            maze.lemma_contains_coords_ok(cell);
            lemma_grid_fits(*maze);
        }
        let gy = (cell.y as usize) * 2 + 1;
        let gx = (cell.x as usize) * 2 + 1;
        let ghost p0 = points@;
        points.insert((gy, gx));
        let par = overlay.parent(maze.w, cell);
        if let Some(parent) = par {
            assert(maze.contains(parent));
            let pgy = (parent.y as usize) * 2 + 1;
            let pgx = (parent.x as usize) * 2 + 1;
            points.insert(((gy + pgy) / 2, (gx + pgx) / 2));
        }
        proof {
            assert forall|pt: (usize, usize)| #[trigger] points@.contains(pt) <==> exists|j: int|
                0 <= j < i + 1 && overlay_point(*overlay, maze.w as int, #[trigger] cells@[j], pt) by {
                if overlay_point(*overlay, maze.w as int, cell, pt) {
                    assert(points@.contains(pt));
                }
                if points@.contains(pt) && !p0.contains(pt) {
                    assert(overlay_point(*overlay, maze.w as int, cells@[i as int], pt));
                }
                if exists|j: int| 0 <= j < i + 1 && overlay_point(*overlay, maze.w as int, #[trigger] cells@[j], pt) {
                    let j = choose|j: int|
                        0 <= j < i + 1 && overlay_point(*overlay, maze.w as int, #[trigger] cells@[j], pt);
                    if j < i {
                        assert(p0.contains(pt));
                    }
                }
            }
        }
        i = i + 1;
    }
    proof {
        assert forall|i: int| 0 <= i < cells@.len() implies points@.contains(
            ((2 * (#[trigger] cells@[i]).y + 1) as usize, (2 * cells@[i].x + 1) as usize),
        ) by {
            lemma_overlay_point_midway(*overlay, maze.w as int, cells@[i]);
        }
        assert forall|i: int|
            0 <= i < cells@.len() && (#[trigger] overlay.parent_at(maze.w as int, cells@[i])) is Some implies points@.contains(
            (
                (((2 * cells@[i].y + 1) + (2 * overlay.parent_at(maze.w as int, cells@[i])->0.y + 1)) / 2) as usize,
                (((2 * cells@[i].x + 1) + (2 * overlay.parent_at(maze.w as int, cells@[i])->0.x + 1)) / 2) as usize,
            ),
        ) by {
            lemma_overlay_point_midway(*overlay, maze.w as int, cells@[i]);
        }
    }
    points
}

/// The positions that an overlay change of cell `c` touches include its centre and, when it
/// has a recorded parent `p`, the position midway between the two centres, whichever side
/// `p` lies on.
pub proof fn lemma_overlay_point_midway(o: MazeOverlay, w: int, c: Vec2i)
    ensures
        overlay_point(o, w, c, ((2 * c.y + 1) as usize, (2 * c.x + 1) as usize)),
        o.parent_at(w, c) matches Some(p) ==> overlay_point(
            o,
            w,
            c,
            ((((2 * c.y + 1) + (2 * p.y + 1)) / 2) as usize, (((2 * c.x + 1) + (2 * p.x + 1)) / 2) as usize),
        ),
{
    if let Some(p) = o.parent_at(w, c) {
        assert(((2 * c.y + 1) + (2 * p.y + 1)) / 2 == c.y + p.y + 1);
        assert(((2 * c.x + 1) + (2 * p.x + 1)) / 2 == c.x + p.x + 1);
    }
}



/// A drawable grid with a cell has room for four times its height and width.
pub proof fn lemma_grid_fits(m: Maze)
    requires
        drawable(m),
        m.w >= 1,
        m.h >= 1,
    ensures
        4 * m.h + 4 <= usize::MAX,
        4 * m.w + 4 <= usize::MAX,
        grid_rows(m) <= usize::MAX,
        grid_cols(m) <= usize::MAX,
{
    assert(grid_rows(m) * grid_cols(m) >= 3 * grid_rows(m) && grid_rows(m) * grid_cols(m) >= 3
        * grid_cols(m)) by (nonlinear_arith)
        requires
            grid_rows(m) >= 3,
            grid_cols(m) >= 3,
    ;
}

/// Where a viewer draws on the terminal: the row and column of the grid's top-left corner.
pub struct TerminalViewport {
    pub row: usize,
    pub col: usize,
}

impl TerminalViewport {
    pub fn new(row: usize, col: usize) -> (v: Self)
        ensures
            v.row == row,
            v.col == col,
    {
        Self { row, col }
    }
}

/// One of the three ways of drawing a maze.
pub enum Viewer {
    Lines(lines::LineMazeViewer),
    Blocks(blocks::BlockMazeViewer),
    HalfBlocks(half_blocks::HalfBlockMazeViewer),
}

/// The viewer for a style, drawing from the top-left corner of the terminal.
pub fn build_viewer(style: RenderStyle) -> (v: Viewer)
    ensures
        style == RenderStyle::Lines ==> (v matches Viewer::Lines(l) && l.viewport.row == 1
            && l.viewport.col == 1),
        style == RenderStyle::Blocks ==> (v matches Viewer::Blocks(b) && b.viewport.row == 1
            && b.viewport.col == 1),
        style == RenderStyle::HalfBlocks ==> (v matches Viewer::HalfBlocks(h) && h.viewport.row == 1
            && h.viewport.col == 1),
{
    match style {
        RenderStyle::Lines => Viewer::Lines(lines::LineMazeViewer::new(1, 1)),
        RenderStyle::Blocks => Viewer::Blocks(blocks::BlockMazeViewer::new(1, 1)),
        RenderStyle::HalfBlocks => Viewer::HalfBlocks(half_blocks::HalfBlockMazeViewer::new(1, 1)),
    }
}

/// The largest maze a terminal of `cols` columns and `rows` rows shows in a style, leaving a
/// column and a footer: half the usable columns (at least 3 of them); half the usable rows
/// (at least 3) for lines and blocks, all of them for half blocks; at least 1 each way. An
/// unknown terminal gets a 10 by 6 maze.
pub open spec fn terminal_maze_size(size: Option<(u16, u16)>, style: RenderStyle) -> (int, int) {
    match size {
        None => (10, 6),
        Some((cols, rows)) => {
            let usable_cols = if cols >= 1 { cols - 1 } else { 0 };
            let usable_rows = if rows >= 2 { rows - 2 } else { 0 };
            let w = (if usable_cols >= 3 { usable_cols } else { 3 }) / 2;
            let h = match style {
                RenderStyle::HalfBlocks => usable_rows,
                _ => (if usable_rows >= 3 { usable_rows } else { 3 }) / 2,
            };
            (if w >= 1 { w } else { 1 }, if h >= 1 { h } else { 1 })
        },
    }
}

/// The maze size for a terminal of the given size (columns, rows), if it is known.
pub fn maze_size_from_terminal(size: Option<(u16, u16)>, style: RenderStyle) -> (r: (usize, usize))
    ensures
        (r.0 as int, r.1 as int) == terminal_maze_size(size, style),
        r.0 >= 1 && r.1 >= 1,
        size is None ==> r == (10usize, 6usize),
        size matches Some((cols, rows)) ==> {
            &&& cols >= 4 ==> 2 * r.0 + 1 <= cols && 2 * (r.0 + 1) + 1 > cols
            &&& (style == RenderStyle::Lines || style == RenderStyle::Blocks) && rows >= 5 ==> 2 * r.1 + 1
                <= rows - 1 && 2 * (r.1 + 1) + 1 > rows - 1
            &&& style == RenderStyle::HalfBlocks && rows >= 3 ==> r.1 + 1 <= rows - 1 && r.1 + 2 > rows - 1
        },
{
    proof {
        lemma_terminal_maze_size_fits(size, style);
    }
    if let Some((cols, rows)) = size {
        let usable_cols = cols.saturating_sub(1) as usize;
        let usable_rows = rows.saturating_sub(2) as usize;
        let wide = if usable_cols >= 3 {
            usable_cols
        } else {
            3
        };
        let maze_w = wide / 2;
        let tall = if usable_rows >= 3 {
            usable_rows
        } else {
            3
        };
        let maze_h = match style {
            RenderStyle::Lines | RenderStyle::Blocks => tall / 2,
            RenderStyle::HalfBlocks => usable_rows,
        };
        return (if maze_w >= 1 { maze_w } else { 1 }, if maze_h >= 1 { maze_h } else { 1 });
    }
    (10, 6)
}

/// The maze chosen for a known terminal is the largest that fits with a footer row: in a
/// terminal of at least 4 columns its `2w + 1` drawing columns fit and one more cell column
/// would not; for lines and blocks (one terminal row per drawing row) in at least 5 rows its
/// `2h + 1` drawing rows fit above the footer and one more cell row would not, and the two
/// styles get the same size; for half blocks (two drawing rows per terminal row) in at least
/// 3 rows its `h + 1` terminal rows fit above the footer and one more would not. Every size
/// is at least 1, and an unknown terminal gets 10 by 6.
pub proof fn lemma_terminal_maze_size_fits(size: Option<(u16, u16)>, style: RenderStyle)
    ensures
        terminal_maze_size(size, style).0 >= 1,
        terminal_maze_size(size, style).1 >= 1,
        size is None ==> terminal_maze_size(size, style) == (10int, 6int),
        terminal_maze_size(size, RenderStyle::Lines) == terminal_maze_size(size, RenderStyle::Blocks),
        size matches Some((cols, rows)) ==> {
            let (w, h) = terminal_maze_size(size, style);
            &&& cols >= 4 ==> 2 * w + 1 <= cols && 2 * (w + 1) + 1 > cols
            &&& (style == RenderStyle::Lines || style == RenderStyle::Blocks) && rows >= 5 ==> 2 * h + 1
                <= rows - 1 && 2 * (h + 1) + 1 > rows - 1
            &&& style == RenderStyle::HalfBlocks && rows >= 3 ==> h + 1 <= rows - 1 && h + 2 > rows - 1
        },
{
}

} // verus!
