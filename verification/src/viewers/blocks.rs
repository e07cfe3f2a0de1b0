use vstd::prelude::*;

use super::{TerminalViewport, cell_xy, drawable, grid_cols, grid_rows, lemma_grid_fits};
use crate::types::{CellMark, Dir, Maze, MazeOverlay, Vec2i, lemma_index_bound, lemma_index_coords, lemma_index_injective, opposite_dir, step_toward};

verus! {

/// What a position of the block drawing shows.
#[derive(Clone, Copy, PartialEq, Eq, Structural, Debug)]
pub enum BlockPixel {
    Empty,
    Wall,
    Overlay(CellMark),
}

/// The 256-colour terminal code of a pixel: black floor, white wall, olive for an active
/// cell, dark grey for a dead one, lime for the solution.
pub open spec fn pixel_color(pixel: BlockPixel) -> u8 {
    match pixel {
        BlockPixel::Empty => 16,
        BlockPixel::Wall => 255,
        BlockPixel::Overlay(CellMark::Unmarked) => 16,
        BlockPixel::Overlay(CellMark::Active) => 142,
        BlockPixel::Overlay(CellMark::Dead) => 235,
        BlockPixel::Overlay(CellMark::Solution) => 154,
    }
}

pub fn block_pixel_color(pixel: BlockPixel) -> (c: u8)
    ensures
        c == pixel_color(pixel),
{
    match pixel {
        BlockPixel::Empty => 16,
        BlockPixel::Wall => 255,
        BlockPixel::Overlay(CellMark::Unmarked) => 16,
        BlockPixel::Overlay(CellMark::Active) => 142,
        BlockPixel::Overlay(CellMark::Dead) => 235,
        BlockPixel::Overlay(CellMark::Solution) => 154,
    }
}

/// At a position between two cells: some cell next to it has that wall open.
pub open spec fn open_piece(m: Maze, gy: int, gx: int) -> bool {
    if gy % 2 == 0 && gx % 2 == 1 {
        let x = (gx - 1) / 2;
        let cy = gy / 2;
        (cy >= 1 && !m.wall_of(cell_xy(x, cy - 1), Dir::S)) || (cy < m.h && !m.wall_of(cell_xy(x, cy), Dir::N))
    } else if gy % 2 == 1 && gx % 2 == 0 {
        let y = (gy - 1) / 2;
        let cx = gx / 2;
        (cx >= 1 && !m.wall_of(cell_xy(cx - 1, y), Dir::E)) || (cx < m.w && !m.wall_of(cell_xy(cx, y), Dir::W))
    } else {
        false
    }
}

/// Checks a position between two cells for an open wall.
pub fn is_open_piece(maze: &Maze, gy: usize, gx: usize) -> (b: bool)
    requires
        maze.wf(),
        gy < grid_rows(*maze),
        gx < grid_cols(*maze),
    ensures
        b == open_piece(*maze, gy as int, gx as int),
{
    if gy % 2 == 0 && gx % 2 == 1 {
        let x = (gx - 1) / 2;
        let cy = gy / 2;
        let above = cy >= 1 && !maze.has_wall(Vec2i { x: x as i32, y: (cy - 1) as i32 }, Dir::S);
        let below = cy < maze.h && !maze.has_wall(Vec2i { x: x as i32, y: cy as i32 }, Dir::N);
        above || below
    } else if gy % 2 == 1 && gx % 2 == 0 {
        let y = (gy - 1) / 2;
        let cx = gx / 2;
        let left = cx >= 1 && !maze.has_wall(Vec2i { x: (cx - 1) as i32, y: y as i32 }, Dir::E);
        let right = cx < maze.w && !maze.has_wall(Vec2i { x: cx as i32, y: y as i32 }, Dir::W);
        left || right
    } else {
        false
    }
}

/// The maze alone: cell centres and open walls are floor, everything else is wall.
pub open spec fn base_pixel(m: Maze, gy: int, gx: int) -> BlockPixel {
    if (gy % 2 == 1 && gx % 2 == 1) || open_piece(m, gy, gx) {
        BlockPixel::Empty
    } else {
        BlockPixel::Wall
    }
}

/// The colours of the maze alone, row by row in one sequence.
pub open spec fn base_colors(m: Maze) -> Seq<u8> {
    Seq::new(
        (grid_rows(m) * grid_cols(m)) as nat,
        |i: int| pixel_color(base_pixel(m, i / grid_cols(m), i % grid_cols(m))),
    )
}

/// The colour of the maze alone at row `gy` and column `gx` of the drawing grid.
pub proof fn lemma_base_color_at(m: Maze, gy: int, gx: int)
    requires
        drawable(m),
        0 <= gy < grid_rows(m),
        0 <= gx < grid_cols(m),
    ensures
        0 <= gy * grid_cols(m) + gx < base_colors(m).len(),
        base_colors(m)[gy * grid_cols(m) + gx] == pixel_color(base_pixel(m, gy, gx)),
{
    lemma_index_coords(grid_cols(m), gx, gy);
    lemma_index_bound(grid_cols(m), grid_rows(m), gx, gy);
}

/// The block drawing of the maze alone shows its walls: every cell centre is floor; the
/// position between a cell and the cell below it, or the cell to its right, is floor exactly
/// when the wall between the two is open; every corner position is wall; and when the
/// walls facing out of the grid stand, the whole border (top and bottom rows, left and
/// right columns) is wall.
pub proof fn lemma_block_drawing_shows_walls(m: Maze)
    requires
        drawable(m),
    ensures
        forall|x: int, y: int|
            0 <= x < m.w && 0 <= y < m.h ==> #[trigger] block_colors(m, None)[(2 * y + 1) * grid_cols(m) + 2
                * x + 1] == 16,
        forall|x: int, y: int|
            0 <= x < m.w && 0 <= y && y + 1 < m.h ==> #[trigger] block_colors(m, None)[(2 * y + 2) * grid_cols(
                m,
            ) + 2 * x + 1] == if m.wall_of(cell_xy(x, y), Dir::S) {
                255u8
            } else {
                16u8
            },
        forall|x: int, y: int|
            0 <= x && x + 1 < m.w && 0 <= y < m.h ==> #[trigger] block_colors(m, None)[(2 * y + 1) * grid_cols(
                m,
            ) + 2 * x + 2] == if m.wall_of(cell_xy(x, y), Dir::E) {
                255u8
            } else {
                16u8
            },
        forall|x: int, y: int|
            0 <= x <= m.w && 0 <= y <= m.h ==> #[trigger] block_colors(m, None)[(2 * y) * grid_cols(m) + 2 * x]
                == 255,
        m.outer_walls_closed() ==> forall|gx: int|
            0 <= gx < grid_cols(m) ==> #[trigger] block_colors(m, None)[gx] == 255 && block_colors(m, None)[(
            grid_rows(m) - 1) * grid_cols(m) + gx] == 255,
        m.outer_walls_closed() ==> forall|gy: int|
            0 <= gy < grid_rows(m) ==> #[trigger] block_colors(m, None)[gy * grid_cols(m)] == 255
                && block_colors(m, None)[gy * grid_cols(m) + grid_cols(m) - 1] == 255,
{
    let cols = grid_cols(m);
    let rows = grid_rows(m);
    assert forall|x: int, y: int| 0 <= x < m.w && 0 <= y < m.h implies #[trigger] block_colors(m, None)[(2
        * y + 1) * grid_cols(m) + 2 * x + 1] == 16 by {
        lemma_base_color_at(m, 2 * y + 1, 2 * x + 1);
    }
    assert forall|x: int, y: int| 0 <= x < m.w && 0 <= y && y + 1 < m.h implies #[trigger] block_colors(
        m,
        None,
    )[(2 * y + 2) * grid_cols(m) + 2 * x + 1] == if m.wall_of(cell_xy(x, y), Dir::S) {
        255u8
    } else {
        16u8
    } by {
        lemma_base_color_at(m, 2 * y + 2, 2 * x + 1);
        assert((2 * y + 2) % 2 == 0 && (2 * x + 1) % 2 == 1);
        assert((2 * x + 1 - 1) / 2 == x && (2 * y + 2) / 2 == y + 1);
        let p = cell_xy(x, y);
        assert(m.contains(p) && m.contains(step_toward(p, Dir::S)));
        assert(step_toward(p, Dir::S) == cell_xy(x, y + 1));
        assert(m.wall_of(p, Dir::S) == m.wall_of(step_toward(p, Dir::S), opposite_dir(Dir::S)));
    }
    assert forall|x: int, y: int| 0 <= x && x + 1 < m.w && 0 <= y < m.h implies #[trigger] block_colors(
        m,
        None,
    )[(2 * y + 1) * grid_cols(m) + 2 * x + 2] == if m.wall_of(cell_xy(x, y), Dir::E) {
        255u8
    } else {
        16u8
    } by {
        lemma_base_color_at(m, 2 * y + 1, 2 * x + 2);
        assert((2 * y + 1) % 2 == 1 && (2 * x + 2) % 2 == 0);
        assert((2 * y + 1 - 1) / 2 == y && (2 * x + 2) / 2 == x + 1);
        let p = cell_xy(x, y);
        assert(m.contains(p) && m.contains(step_toward(p, Dir::E)));
        assert(step_toward(p, Dir::E) == cell_xy(x + 1, y));
        assert(m.wall_of(p, Dir::E) == m.wall_of(step_toward(p, Dir::E), opposite_dir(Dir::E)));
    }
    assert forall|x: int, y: int| 0 <= x <= m.w && 0 <= y <= m.h implies #[trigger] block_colors(m, None)[(2
        * y) * grid_cols(m) + 2 * x] == 255 by {
        lemma_base_color_at(m, 2 * y, 2 * x);
        assert((2 * y) % 2 == 0 && (2 * x) % 2 == 0);
    }
    if m.outer_walls_closed() {
        assert forall|gx: int| 0 <= gx < grid_cols(m) implies #[trigger] block_colors(m, None)[gx] == 255
            && block_colors(m, None)[(grid_rows(m) - 1) * grid_cols(m) + gx] == 255 by {
            lemma_base_color_at(m, 0, gx);
            lemma_base_color_at(m, rows - 1, gx);
            assert(0 * cols + gx == gx);
            if gx % 2 == 1 && m.h >= 1 {
                let x = (gx - 1) / 2;
                let top = cell_xy(x, 0);
                assert(m.contains(top) && !m.contains(step_toward(top, Dir::N)));
                assert(m.wall_of(top, Dir::N));
                let bottom = cell_xy(x, m.h - 1);
                assert(m.contains(bottom) && !m.contains(step_toward(bottom, Dir::S)));
                assert(m.wall_of(bottom, Dir::S));
                assert((rows - 1) / 2 == m.h && (rows - 1) % 2 == 0);
            }
        }
        assert forall|gy: int| 0 <= gy < grid_rows(m) implies #[trigger] block_colors(m, None)[gy * grid_cols(
            m,
        )] == 255 && block_colors(m, None)[gy * grid_cols(m) + grid_cols(m) - 1] == 255 by {
            lemma_base_color_at(m, gy, 0);
            lemma_base_color_at(m, gy, cols - 1);
            if gy % 2 == 1 && m.w >= 1 {
                let y = (gy - 1) / 2;
                let left = cell_xy(0, y);
                assert(m.contains(left) && !m.contains(step_toward(left, Dir::W)));
                assert(m.wall_of(left, Dir::W));
                let right = cell_xy(m.w - 1, y);
                assert(m.contains(right) && !m.contains(step_toward(right, Dir::E)));
                assert(m.wall_of(right, Dir::E));
                assert((cols - 1) / 2 == m.w && (cols - 1) % 2 == 0);
            }
        }
    }
}

/// The flat index of the centre of `c`.
pub open spec fn centre_index(m: Maze, c: Vec2i) -> int {
    (2 * c.y + 1) * grid_cols(m) + 2 * c.x + 1
}

/// The flat index of the position halfway between the centres of `c` and `p`.
pub open spec fn halfway_index(m: Maze, c: Vec2i, p: Vec2i) -> int {
    (c.y + p.y + 1) * grid_cols(m) + (c.x + p.x + 1)
}

/// Paints cell `i` of the overlay over `buf`: a marked cell colours its centre, and the
/// position halfway to its parent if it has one, in the colour of its mark.
pub open spec fn paint_cell(m: Maze, o: MazeOverlay, buf: Seq<u8>, i: int) -> Seq<u8> {
    let c = m.cell_at(i);
    let mark = o.mark_at(m.w as int, c);
    if mark == CellMark::Unmarked {
        buf
    } else {
        let color = pixel_color(BlockPixel::Overlay(mark));
        let b = buf.update(centre_index(m, c), color);
        match o.parent_at(m.w as int, c) {
            Some(p) => b.update(halfway_index(m, c, p), color),
            None => b,
        }
    }
}

/// The overlay's cells below index `t` painted in turn (row by row) over `buf`; later cells
/// paint over earlier ones.
pub open spec fn paint_upto(m: Maze, o: MazeOverlay, buf: Seq<u8>, t: int) -> Seq<u8>
    decreases t,
{
    if t <= 0 {
        buf
    } else {
        paint_cell(m, o, paint_upto(m, o, buf, t - 1), t - 1)
    }
}

/// The colours of the block drawing, row by row in one sequence.
pub open spec fn block_colors(m: Maze, overlay: Option<MazeOverlay>) -> Seq<u8> {
    match overlay {
        None => base_colors(m),
        Some(o) => paint_upto(m, o, base_colors(m), m.cell_count()),
    }
}

/// The overlay fits the maze and every recorded parent of a cell is a cell of the grid.
pub open spec fn overlay_over(m: Maze, o: MazeOverlay) -> bool {
    &&& o.wf()
    &&& o.cell_count() == m.cell_count()
    &&& forall|i: int|
        0 <= i < m.cell_count() && #[trigger] o.parent_at(m.w as int, m.cell_at(i)) is Some ==> m.contains(
            o.parent_at(m.w as int, m.cell_at(i))->0,
        )
}

/// The positions that painting cell `i` writes lie in the drawing grid.
pub proof fn lemma_paint_cell_indices(m: Maze, o: MazeOverlay, i: int)
    requires
        drawable(m),
        overlay_over(m, o),
        0 <= i < m.cell_count(),
    ensures
        m.contains(m.cell_at(i)),
        0 <= centre_index(m, m.cell_at(i)) < grid_rows(m) * grid_cols(m),
        o.parent_at(m.w as int, m.cell_at(i)) matches Some(p) ==> m.contains(p) && 0 <= halfway_index(
            m,
            m.cell_at(i),
            p,
        ) < grid_rows(m) * grid_cols(m),
{
    crate::builders::origin_shift::lemma_cell_at_index(m, i);
    let c = m.cell_at(i);
    lemma_index_bound(grid_cols(m), grid_rows(m), 2 * c.x + 1, 2 * c.y + 1);
    if o.parent_at(m.w as int, c) is Some {
        let p = o.parent_at(m.w as int, c)->0;
        lemma_index_bound(grid_cols(m), grid_rows(m), c.x + p.x + 1, c.y + p.y + 1);
    }
}

/// Painting keeps the length of the buffer.
pub proof fn lemma_paint_len(m: Maze, o: MazeOverlay, buf: Seq<u8>, t: int)
    requires
        drawable(m),
        overlay_over(m, o),
        buf.len() == grid_rows(m) * grid_cols(m),
        t <= m.cell_count(),
    ensures
        paint_upto(m, o, buf, t).len() == buf.len(),
    decreases t,
{
    if t > 0 {
        lemma_paint_len(m, o, buf, t - 1);
        lemma_paint_cell_indices(m, o, t - 1);
    }
}

/// No marked cell after cell `i` (in row-major order) draws at grid row `gy`, column `gx`:
/// neither its centre nor the position halfway to its parent is there.
pub open spec fn untouched_after(m: Maze, o: MazeOverlay, i: int, gy: int, gx: int) -> bool {
    forall|j: int|
        i < j < m.cell_count() && #[trigger] o.mark_at(m.w as int, m.cell_at(j)) != CellMark::Unmarked ==> {
            let d = m.cell_at(j);
            &&& (2 * d.y + 1, 2 * d.x + 1) != (gy, gx)
            &&& o.parent_at(m.w as int, d) matches Some(q) ==> (d.y + q.y + 1, d.x + q.x + 1) != (gy, gx)
        }
}

/// Painting the cells from `i + 1` up to `t` leaves a position that none of them draws.
proof fn lemma_block_paint_keeps(m: Maze, o: MazeOverlay, i: int, gy: int, gx: int, t: int)
    requires
        drawable(m),
        overlay_over(m, o),
        0 <= i < t <= m.cell_count(),
        0 <= gy < grid_rows(m),
        0 <= gx < grid_cols(m),
        untouched_after(m, o, i, gy, gx),
    ensures
        paint_upto(m, o, base_colors(m), t)[gy * grid_cols(m) + gx] == paint_upto(
            m,
            o,
            base_colors(m),
            i + 1,
        )[gy * grid_cols(m) + gx],
    decreases t,
{
    if t > i + 1 {
        lemma_block_paint_keeps(m, o, i, gy, gx, t - 1);
        let j = t - 1;
        let d = m.cell_at(j);
        lemma_paint_cell_indices(m, o, j);
        lemma_paint_len(m, o, base_colors(m), j);
        crate::builders::origin_shift::lemma_cell_at_index(m, j);
        let k = gy * grid_cols(m) + gx;
        lemma_index_bound(grid_cols(m), grid_rows(m), gx, gy);
        if o.mark_at(m.w as int, d) != CellMark::Unmarked {
            assert(o.mark_at(m.w as int, m.cell_at(j)) != CellMark::Unmarked);
            if let Some(q) = o.parent_at(m.w as int, d) {
                assert(m.contains(q));
            }
            if centre_index(m, d) == k {
                lemma_index_injective(grid_cols(m), 2 * d.x + 1, 2 * d.y + 1, gx, gy);
            }
            if let Some(q) = o.parent_at(m.w as int, d) {
                if halfway_index(m, d, q) == k {
                    lemma_index_injective(grid_cols(m), d.x + q.x + 1, d.y + q.y + 1, gx, gy);
                }
            }
        }
    }
}

/// With an overlay, a marked cell with a recorded parent paints the grid position halfway
/// between its centre and its parent's centre (row `c.y + p.y + 1`, column `c.x + p.x + 1`),
/// whichever side the parent lies on, in its own mark, unless a later cell draws there.
pub proof fn lemma_blocks_link_to_parent(m: Maze, o: MazeOverlay, i: int)
    requires
        drawable(m),
        overlay_over(m, o),
        0 <= i < m.cell_count(),
        o.mark_at(m.w as int, m.cell_at(i)) != CellMark::Unmarked,
        o.parent_at(m.w as int, m.cell_at(i)) is Some,
        untouched_after(
            m,
            o,
            i,
            m.cell_at(i).y + o.parent_at(m.w as int, m.cell_at(i))->0.y + 1,
            m.cell_at(i).x + o.parent_at(m.w as int, m.cell_at(i))->0.x + 1,
        ),
    ensures
        ({
            let c = m.cell_at(i);
            let p = o.parent_at(m.w as int, c)->0;
            block_colors(m, Some(o))[(c.y + p.y + 1) * grid_cols(m) + (c.x + p.x + 1)]
                == pixel_color(BlockPixel::Overlay(o.mark_at(m.w as int, c)))
        }),
{
    let c = m.cell_at(i);
    let p = o.parent_at(m.w as int, c)->0;
    lemma_paint_cell_indices(m, o, i);
    lemma_paint_len(m, o, base_colors(m), i);
    crate::builders::origin_shift::lemma_cell_at_index(m, i);
    m.lemma_contains_coords_ok(p);
    lemma_index_bound(grid_cols(m), grid_rows(m), c.x + p.x + 1, c.y + p.y + 1);
    assert(paint_upto(m, o, base_colors(m), i + 1)[halfway_index(m, c, p)]
        == pixel_color(BlockPixel::Overlay(o.mark_at(m.w as int, c))));
    lemma_block_paint_keeps(m, o, i, c.y + p.y + 1, c.x + p.x + 1, m.cell_count());
}

/// The maze as coloured blocks, one per position of the drawing grid, with the overlay (if
/// given) painted over it.
pub fn render_blocks(maze: &Maze, overlay: Option<&MazeOverlay>) -> (buf: Vec<Vec<u8>>)
    requires
        drawable(*maze),
        overlay matches Some(o) ==> overlay_over(*maze, *o),
    ensures
        buf@.len() == grid_rows(*maze),
        forall|gy: int| 0 <= gy < grid_rows(*maze) ==> (#[trigger] buf@[gy])@.len() == grid_cols(*maze),
        forall|gy: int, gx: int|
            0 <= gy < grid_rows(*maze) && 0 <= gx < grid_cols(*maze) ==> #[trigger] buf@[gy]@[gx]
                == block_colors(
                *maze,
                match overlay {
                    Some(o) => Some(*o),
                    None => None,
                },
            )[gy * grid_cols(*maze) + gx],
        overlay is None ==> forall|x: int, y: int|
            0 <= x < maze.w && 0 <= y && y + 1 < maze.h ==> #[trigger] buf@[2 * y + 2]@[2 * x + 1] == if maze.wall_of(
                cell_xy(x, y),
                Dir::S,
            ) {
                255u8
            } else {
                16u8
            },
        overlay is None ==> forall|x: int, y: int|
            0 <= x && x + 1 < maze.w && 0 <= y < maze.h ==> #[trigger] buf@[2 * y + 1]@[2 * x + 2] == if maze.wall_of(
                cell_xy(x, y),
                Dir::E,
            ) {
                255u8
            } else {
                16u8
            },
        overlay is None && maze.outer_walls_closed() ==> forall|gx: int|
            0 <= gx < grid_cols(*maze) ==> #[trigger] buf@[0]@[gx] == 255 && buf@[grid_rows(*maze) - 1]@[gx]
                == 255,
        overlay is None && maze.outer_walls_closed() ==> forall|gy: int|
            0 <= gy < grid_rows(*maze) ==> #[trigger] buf@[gy]@[0] == 255 && buf@[gy]@[grid_cols(*maze) - 1]
                == 255,
{
    let rows = maze.h * 2 + 1;
    let cols = maze.w * 2 + 1;
    let ghost total = rows * cols;
    let mut flat: Vec<u8> = Vec::new();
    let mut gy: usize = 0;
    while gy < rows
        invariant
            drawable(*maze),
            rows == grid_rows(*maze),
            cols == grid_cols(*maze),
            gy <= rows,
            flat@.len() == gy * cols,
            forall|i: int| 0 <= i < flat@.len() ==> #[trigger] flat@[i] == base_colors(*maze)[i],
        decreases rows - gy,
    {
        let mut gx: usize = 0;
        while gx < cols
            invariant
                drawable(*maze),
                rows == grid_rows(*maze),
                cols == grid_cols(*maze),
                gy < rows,
                gx <= cols,
                flat@.len() == gy * cols + gx,
                forall|i: int| 0 <= i < flat@.len() ==> #[trigger] flat@[i] == base_colors(*maze)[i],
            decreases cols - gx,
        {
            proof {
                lemma_index_coords(cols as int, gx as int, gy as int);
                lemma_index_bound(cols as int, rows as int, gx as int, gy as int);
            }
            let pixel = if (gy % 2 == 1 && gx % 2 == 1) || is_open_piece(maze, gy, gx) {
                BlockPixel::Empty
            } else {
                BlockPixel::Wall
            };
            flat.push(block_pixel_color(pixel));
            gx = gx + 1;
        }
        proof {
            assert((gy + 1) * cols == gy * cols + cols) by (nonlinear_arith);
        }
        gy = gy + 1;
    }
    assert(flat@ =~= base_colors(*maze));
    let ghost colors = match overlay {
        Some(o) => Some(*o),
        None => None,
    };
    if let Some(overlay) = overlay {
        let n = maze.w * maze.h;
        let mut t: usize = 0;
        while t < n
            invariant
                drawable(*maze),
                overlay_over(*maze, *overlay),
                rows == grid_rows(*maze),
                cols == grid_cols(*maze),
                n == maze.cell_count(),
                t <= n,
                flat@ == paint_upto(*maze, *overlay, base_colors(*maze), t as int),
            decreases n - t,
        {
            proof {
                crate::builders::origin_shift::lemma_cell_at_index(*maze, t as int);
                crate::types::lemma_index_decode(maze.w as int, maze.h as int, t as int);
                lemma_paint_len(*maze, *overlay, base_colors(*maze), t as int);
                lemma_paint_cell_indices(*maze, *overlay, t as int);
                lemma_grid_fits(*maze);
                maze.lemma_contains_coords_ok(maze.cell_at(t as int));
            }
            let x = t % maze.w;
            let y = t / maze.w;
            let cell = Vec2i { x: x as i32, y: y as i32 };
            assert(cell == maze.cell_at(t as int));
            let mark = overlay.get(maze.w, cell);
            if mark != CellMark::Unmarked {
                let gy = y * 2 + 1;
                let gx = x * 2 + 1;
                proof {
                    lemma_index_bound(cols as int, rows as int, gx as int, gy as int);
                }
                let color = block_pixel_color(BlockPixel::Overlay(mark));
                flat.set(gy * cols + gx, color);
                if let Some(parent) = overlay.parent(maze.w, cell) {
                    assert(maze.contains(parent));
                    let pgy = (parent.y as usize) * 2 + 1;
                    let pgx = (parent.x as usize) * 2 + 1;
                    let wall_y = (gy + pgy) / 2;
                    let wall_x = (gx + pgx) / 2;
                    proof {
                        lemma_index_bound(cols as int, rows as int, wall_x as int, wall_y as int);
                    }
                    flat.set(wall_y * cols + wall_x, color);
                }
            }
            t = t + 1;
        }
        proof {
            lemma_paint_len(*maze, *overlay, base_colors(*maze), n as int);
        }
    }
    assert(flat@ == block_colors(*maze, colors));
    let mut buf: Vec<Vec<u8>> = Vec::new();
    let mut gy: usize = 0;
    while gy < rows
        invariant
            drawable(*maze),
            rows == grid_rows(*maze),
            cols == grid_cols(*maze),
            gy <= rows,
            flat@.len() == rows * cols,
            buf@.len() == gy,
            forall|y: int| 0 <= y < gy ==> (#[trigger] buf@[y])@.len() == cols,
            forall|y: int, x: int|
                0 <= y < gy && 0 <= x < cols ==> #[trigger] buf@[y]@[x] == flat@[y * cols + x],
        decreases rows - gy,
    {
        let mut row: Vec<u8> = Vec::new();
        let mut gx: usize = 0;
        while gx < cols
            invariant
                rows == grid_rows(*maze),
                cols == grid_cols(*maze),
                gy < rows,
                gx <= cols,
                flat@.len() == rows * cols,
                rows * cols <= usize::MAX,
                row@.len() == gx,
                forall|x: int| 0 <= x < gx ==> #[trigger] row@[x] == flat@[gy * cols + x],
            decreases cols - gx,
        {
            proof {
                lemma_index_bound(cols as int, rows as int, gx as int, gy as int);
            }
            row.push(flat[gy * cols + gx]);
            gx = gx + 1;
        }
        buf.push(row);
        gy = gy + 1;
    }
    proof {
        lemma_block_drawing_shows_walls(*maze);
        if overlay is None {
            let cols = grid_cols(*maze);
            assert forall|x: int, y: int| 0 <= x < maze.w && 0 <= y && y + 1 < maze.h implies #[trigger] buf@[2
                * y + 2]@[2 * x + 1] == block_colors(*maze, None)[(2 * y + 2) * cols + 2 * x + 1] by {}
            assert forall|x: int, y: int| 0 <= x && x + 1 < maze.w && 0 <= y < maze.h implies #[trigger] buf@[2
                * y + 1]@[2 * x + 2] == block_colors(*maze, None)[(2 * y + 1) * cols + 2 * x + 2] by {}
            assert forall|gx: int| 0 <= gx < cols implies #[trigger] buf@[0]@[gx] == block_colors(*maze, None)[gx]
                && buf@[grid_rows(*maze) - 1]@[gx] == block_colors(*maze, None)[(grid_rows(*maze) - 1) * cols
                + gx] by {
                assert(0 * cols + gx == gx);
            }
            if maze.outer_walls_closed() {
                assert forall|gx: int| 0 <= gx < cols implies #[trigger] buf@[0]@[gx] == 255 && buf@[grid_rows(
                    *maze,
                ) - 1]@[gx] == 255 by {
                    assert(block_colors(*maze, None)[gx] == 255);
                    assert(buf@[0]@[gx] == block_colors(*maze, None)[gx]);
                }
            }
            assert forall|gy: int| 0 <= gy < grid_rows(*maze) implies #[trigger] buf@[gy]@[0] == block_colors(
                *maze,
                None,
            )[gy * cols] && buf@[gy]@[cols - 1] == block_colors(*maze, None)[gy * cols + cols - 1] by {}
        }
    }
    buf
}

/// Draws the maze as solid coloured blocks.
pub struct BlockMazeViewer {
    pub viewport: TerminalViewport,
}

impl BlockMazeViewer {
    pub fn new(row: usize, col: usize) -> (v: Self)
        ensures
            v.viewport.row == row,
            v.viewport.col == col,
    {
        Self { viewport: TerminalViewport::new(row, col) }
    }
}

} // verus!
