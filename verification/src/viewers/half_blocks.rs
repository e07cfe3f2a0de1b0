use std::collections::BTreeSet;

use vstd::prelude::*;

use super::blocks::{
    centre_index, halfway_index, is_open_piece, lemma_paint_cell_indices, open_piece, overlay_over,
    untouched_after, block_colors, lemma_base_color_at, lemma_block_drawing_shows_walls,
};
use super::point_order::{lemma_points_ordered, points_ordered};
use super::{TerminalViewport, cell_xy, drawable, grid_cols, grid_rows, lemma_grid_fits};
use crate::types::{CellMark, Dir, Maze, MazeOverlay, Vec2i, lemma_index_bound, lemma_index_coords, lemma_index_injective, opposite_dir, step_toward};

verus! {

/// What a position of the drawing grid shows in the half-block drawing.
#[derive(Clone, Copy, PartialEq, Eq, Structural, Debug)]
pub enum HalfBlockPixel {
    Empty,
    Wall,
    Overlay(CellMark),
}

/// One character of the half-block drawing: the lower half in the foreground colour, the
/// upper half in the background colour.
#[derive(Clone, Copy, PartialEq, Eq, Structural, Debug)]
pub struct HalfBlockCell {
    pub fg: u8,
    pub bg: u8,
}

/// The 256-colour terminal code of a pixel: black floor, white wall, olive for an active
/// cell, dark grey for a dead one, lime for the solution.
pub open spec fn half_color(pixel: HalfBlockPixel) -> u8 {
    match pixel {
        HalfBlockPixel::Empty => 16,
        HalfBlockPixel::Wall => 255,
        HalfBlockPixel::Overlay(CellMark::Unmarked) => 16,
        HalfBlockPixel::Overlay(CellMark::Active) => 142,
        HalfBlockPixel::Overlay(CellMark::Dead) => 235,
        HalfBlockPixel::Overlay(CellMark::Solution) => 154,
    }
}

pub fn half_block_pixel_color(pixel: HalfBlockPixel) -> (c: u8)
    ensures
        c == half_color(pixel),
{
    match pixel {
        HalfBlockPixel::Empty => 16,
        HalfBlockPixel::Wall => 255,
        HalfBlockPixel::Overlay(CellMark::Unmarked) => 16,
        HalfBlockPixel::Overlay(CellMark::Active) => 142,
        HalfBlockPixel::Overlay(CellMark::Dead) => 235,
        HalfBlockPixel::Overlay(CellMark::Solution) => 154,
    }
}

/// The maze alone: cell centres and open walls are floor, everything else is wall.
pub open spec fn base_half_pixel(m: Maze, gy: int, gx: int) -> HalfBlockPixel {
    if (gy % 2 == 1 && gx % 2 == 1) || open_piece(m, gy, gx) {
        HalfBlockPixel::Empty
    } else {
        HalfBlockPixel::Wall
    }
}

pub open spec fn base_half_pixels(m: Maze) -> Seq<HalfBlockPixel> {
    Seq::new(
        (grid_rows(m) * grid_cols(m)) as nat,
        |i: int| base_half_pixel(m, i / grid_cols(m), i % grid_cols(m)),
    )
}

/// Paints cell `i` of the overlay over `buf`: a marked cell shows its mark at its centre,
/// and halfway to its parent if it has one.
pub open spec fn paint_half_cell(m: Maze, o: MazeOverlay, buf: Seq<HalfBlockPixel>, i: int) -> Seq<
    HalfBlockPixel,
> {
    let c = m.cell_at(i);
    let mark = o.mark_at(m.w as int, c);
    if mark == CellMark::Unmarked {
        buf
    } else {
        let b = buf.update(centre_index(m, c), HalfBlockPixel::Overlay(mark));
        match o.parent_at(m.w as int, c) {
            Some(p) => b.update(halfway_index(m, c, p), HalfBlockPixel::Overlay(mark)),
            None => b,
        }
    }
}

/// The overlay's cells below index `t` painted in turn (row by row); later cells paint over
/// earlier ones.
pub open spec fn paint_half_upto(m: Maze, o: MazeOverlay, buf: Seq<HalfBlockPixel>, t: int) -> Seq<
    HalfBlockPixel,
>
    decreases t,
{
    if t <= 0 {
        buf
    } else {
        paint_half_cell(m, o, paint_half_upto(m, o, buf, t - 1), t - 1)
    }
}

/// The pixels of the drawing grid, row by row in one sequence.
pub open spec fn half_pixels(m: Maze, overlay: Option<MazeOverlay>) -> Seq<HalfBlockPixel> {
    match overlay {
        None => base_half_pixels(m),
        Some(o) => paint_half_upto(m, o, base_half_pixels(m), m.cell_count()),
    }
}

/// The character at row `y` and column `x` of the half-block drawing: grid row `2y` on top,
/// grid row `2y + 1` (floor below the last row) underneath.
pub open spec fn half_cell_at(m: Maze, pixels: Seq<HalfBlockPixel>, y: int, x: int) -> HalfBlockCell {
    let top = pixels[2 * y * grid_cols(m) + x];
    let bottom = if 2 * y + 1 < grid_rows(m) {
        pixels[(2 * y + 1) * grid_cols(m) + x]
    } else {
        HalfBlockPixel::Empty
    };
    HalfBlockCell { fg: half_color(bottom), bg: half_color(top) }
}

pub proof fn lemma_paint_half_len(m: Maze, o: MazeOverlay, buf: Seq<HalfBlockPixel>, t: int)
    requires
        drawable(m),
        overlay_over(m, o),
        buf.len() == grid_rows(m) * grid_cols(m),
        t <= m.cell_count(),
    ensures
        paint_half_upto(m, o, buf, t).len() == buf.len(),
    decreases t,
{
    if t > 0 {
        lemma_paint_half_len(m, o, buf, t - 1);
        lemma_paint_cell_indices(m, o, t - 1);
    }
}

/// The pixel of the maze alone at row `gy` and column `gx` of the drawing grid.
pub proof fn lemma_base_half_at(m: Maze, gy: int, gx: int)
    requires
        drawable(m),
        0 <= gy < grid_rows(m),
        0 <= gx < grid_cols(m),
    ensures
        0 <= gy * grid_cols(m) + gx < base_half_pixels(m).len(),
        base_half_pixels(m)[gy * grid_cols(m) + gx] == base_half_pixel(m, gy, gx),
{
    lemma_index_coords(grid_cols(m), gx, gy);
    lemma_index_bound(grid_cols(m), grid_rows(m), gx, gy);
}

/// The half-block drawing of the maze alone shows its walls: every cell centre is floor; the
/// position between a cell and the cell below it, or the cell to its right, is floor exactly
/// when the wall between the two is open; and every corner position is wall.
#[verifier::spinoff_prover]
#[verifier::rlimit(100)]
pub proof fn lemma_half_block_drawing_shows_walls(m: Maze)
    requires
        drawable(m),
    ensures
        forall|x: int, y: int|
            0 <= x < m.w && 0 <= y < m.h ==> #[trigger] half_pixels(m, None)[(2 * y + 1) * grid_cols(m) + 2
                * x + 1] == HalfBlockPixel::Empty,
        forall|x: int, y: int|
            0 <= x < m.w && 0 <= y && y + 1 < m.h ==> #[trigger] half_pixels(m, None)[(2 * y + 2) * grid_cols(
                m,
            ) + 2 * x + 1] == if m.wall_of(cell_xy(x, y), Dir::S) {
                HalfBlockPixel::Wall
            } else {
                HalfBlockPixel::Empty
            },
        forall|x: int, y: int|
            0 <= x && x + 1 < m.w && 0 <= y < m.h ==> #[trigger] half_pixels(m, None)[(2 * y + 1) * grid_cols(
                m,
            ) + 2 * x + 2] == if m.wall_of(cell_xy(x, y), Dir::E) {
                HalfBlockPixel::Wall
            } else {
                HalfBlockPixel::Empty
            },
        forall|x: int, y: int|
            0 <= x <= m.w && 0 <= y <= m.h ==> #[trigger] half_pixels(m, None)[(2 * y) * grid_cols(m) + 2 * x]
                == HalfBlockPixel::Wall,
{
    let cols = grid_cols(m);
    let rows = grid_rows(m);
    assert forall|x: int, y: int| 0 <= x < m.w && 0 <= y < m.h implies #[trigger] half_pixels(m, None)[(2
        * y + 1) * grid_cols(m) + 2 * x + 1] == HalfBlockPixel::Empty by {
        lemma_base_half_at(m, 2 * y + 1, 2 * x + 1);
    }
    assert forall|x: int, y: int| 0 <= x < m.w && 0 <= y && y + 1 < m.h implies #[trigger] half_pixels(m, None)[(2 * y + 2) * grid_cols(m) + 2 * x + 1] == if m.wall_of(cell_xy(x, y), Dir::S) {
        HalfBlockPixel::Wall
    } else {
        HalfBlockPixel::Empty
    } by {
        lemma_base_half_at(m, 2 * y + 2, 2 * x + 1);
        assert((2 * y + 2) % 2 == 0 && (2 * x + 1) % 2 == 1);
        assert((2 * x + 1 - 1) / 2 == x && (2 * y + 2) / 2 == y + 1);
        let p = cell_xy(x, y);
        assert(m.contains(p) && m.contains(step_toward(p, Dir::S)));
        assert(step_toward(p, Dir::S) == cell_xy(x, y + 1));
        assert(m.wall_of(p, Dir::S) == m.wall_of(step_toward(p, Dir::S), opposite_dir(Dir::S)));
    }
    assert forall|x: int, y: int| 0 <= x && x + 1 < m.w && 0 <= y < m.h implies #[trigger] half_pixels(m, None)[(2 * y + 1) * grid_cols(m) + 2 * x + 2] == if m.wall_of(cell_xy(x, y), Dir::E) {
        HalfBlockPixel::Wall
    } else {
        HalfBlockPixel::Empty
    } by {
        lemma_base_half_at(m, 2 * y + 1, 2 * x + 2);
        assert((2 * y + 1) % 2 == 1 && (2 * x + 2) % 2 == 0);
        assert((2 * y + 1 - 1) / 2 == y && (2 * x + 2) / 2 == x + 1);
        let p = cell_xy(x, y);
        assert(m.contains(p) && m.contains(step_toward(p, Dir::E)));
        assert(step_toward(p, Dir::E) == cell_xy(x + 1, y));
        assert(m.wall_of(p, Dir::E) == m.wall_of(step_toward(p, Dir::E), opposite_dir(Dir::E)));
    }
    assert forall|x: int, y: int| 0 <= x <= m.w && 0 <= y <= m.h implies #[trigger] half_pixels(m, None)[(2
        * y) * grid_cols(m) + 2 * x] == HalfBlockPixel::Wall by {
        lemma_base_half_at(m, 2 * y, 2 * x);
        assert((2 * y) % 2 == 0 && (2 * x) % 2 == 0);
    }
}

/// With every wall facing out of the grid standing, the border of the half-block drawing
/// of the maze alone (top and bottom rows, left and right columns) is wall.
#[verifier::spinoff_prover]
pub proof fn lemma_half_block_border_is_wall(m: Maze)
    requires
        drawable(m),
    ensures
        m.outer_walls_closed() ==> forall|gx: int|
            0 <= gx < grid_cols(m) ==> #[trigger] half_pixels(m, None)[gx] == HalfBlockPixel::Wall && half_pixels(m, None)[(
            grid_rows(m) - 1) * grid_cols(m) + gx] == HalfBlockPixel::Wall,
        m.outer_walls_closed() ==> forall|gy: int|
            0 <= gy < grid_rows(m) ==> #[trigger] half_pixels(m, None)[gy * grid_cols(m)] == HalfBlockPixel::Wall
                && half_pixels(m, None)[gy * grid_cols(m) + grid_cols(m) - 1] == HalfBlockPixel::Wall,
{
    let cols = grid_cols(m);
    let rows = grid_rows(m);
    lemma_block_drawing_shows_walls(m);
    if m.outer_walls_closed() {
        assert forall|gx: int| 0 <= gx < grid_cols(m) implies #[trigger] half_pixels(m, None)[gx]
            == HalfBlockPixel::Wall && half_pixels(m, None)[(grid_rows(m) - 1) * grid_cols(m) + gx]
            == HalfBlockPixel::Wall by {
            assert(block_colors(m, None)[gx] == 255);
            lemma_base_half_at(m, 0, gx);
            lemma_base_half_at(m, rows - 1, gx);
            lemma_base_color_at(m, 0, gx);
            lemma_base_color_at(m, rows - 1, gx);
            assert(0 * cols + gx == gx);
        }
        assert forall|gy: int| 0 <= gy < grid_rows(m) implies #[trigger] half_pixels(m, None)[gy * grid_cols(m)]
            == HalfBlockPixel::Wall && half_pixels(m, None)[gy * grid_cols(m) + grid_cols(m) - 1]
            == HalfBlockPixel::Wall by {
            assert(block_colors(m, None)[gy * cols] == 255);
            lemma_base_half_at(m, gy, 0);
            lemma_base_half_at(m, gy, cols - 1);
            lemma_base_color_at(m, gy, 0);
            lemma_base_color_at(m, gy, cols - 1);
        }
    }
}

/// Painting the cells from `i + 1` up to `t` leaves a position that none of them draws.
proof fn lemma_half_paint_keeps(m: Maze, o: MazeOverlay, i: int, gy: int, gx: int, t: int)
    requires
        drawable(m),
        overlay_over(m, o),
        0 <= i < t <= m.cell_count(),
        0 <= gy < grid_rows(m),
        0 <= gx < grid_cols(m),
        untouched_after(m, o, i, gy, gx),
    ensures
        paint_half_upto(m, o, base_half_pixels(m), t)[gy * grid_cols(m) + gx] == paint_half_upto(
            m,
            o,
            base_half_pixels(m),
            i + 1,
        )[gy * grid_cols(m) + gx],
    decreases t,
{
    if t > i + 1 {
        lemma_half_paint_keeps(m, o, i, gy, gx, t - 1);
        let j = t - 1;
        let d = m.cell_at(j);
        lemma_paint_cell_indices(m, o, j);
        lemma_paint_half_len(m, o, base_half_pixels(m), j);
        crate::builders::origin_shift::lemma_cell_at_index(m, j);
        let k = gy * grid_cols(m) + gx;
        lemma_index_bound(grid_cols(m), grid_rows(m), gx, gy);
        if o.mark_at(m.w as int, d) != CellMark::Unmarked {
            assert(o.mark_at(m.w as int, m.cell_at(j)) != CellMark::Unmarked);
            if let Some(q) = o.parent_at(m.w as int, d) {
                assert(m.contains(q));
            }
            if centre_index(m, d) == k {
                lemma_index_injective(grid_cols(m), 2 * d.x + 1, 2 * d.y + 1, gx, gy);
            }
            if let Some(q) = o.parent_at(m.w as int, d) {
                if halfway_index(m, d, q) == k {
                    lemma_index_injective(grid_cols(m), d.x + q.x + 1, d.y + q.y + 1, gx, gy);
                }
            }
        }
    }
}

/// With an overlay, a marked cell with a recorded parent paints the grid position halfway
/// between its centre and its parent's centre (row `c.y + p.y + 1`, column `c.x + p.x + 1`),
/// whichever side the parent lies on, in its own mark, unless a later cell draws there.
pub proof fn lemma_half_blocks_link_to_parent(m: Maze, o: MazeOverlay, i: int)
    requires
        drawable(m),
        overlay_over(m, o),
        0 <= i < m.cell_count(),
        o.mark_at(m.w as int, m.cell_at(i)) != CellMark::Unmarked,
        o.parent_at(m.w as int, m.cell_at(i)) is Some,
        untouched_after(
            m,
            o,
            i,
            m.cell_at(i).y + o.parent_at(m.w as int, m.cell_at(i))->0.y + 1,
            m.cell_at(i).x + o.parent_at(m.w as int, m.cell_at(i))->0.x + 1,
        ),
    ensures
        ({
            let c = m.cell_at(i);
            let p = o.parent_at(m.w as int, c)->0;
            half_pixels(m, Some(o))[(c.y + p.y + 1) * grid_cols(m) + (c.x + p.x + 1)]
                == HalfBlockPixel::Overlay(o.mark_at(m.w as int, c))
        }),
{
    let c = m.cell_at(i);
    let p = o.parent_at(m.w as int, c)->0;
    lemma_paint_cell_indices(m, o, i);
    lemma_paint_half_len(m, o, base_half_pixels(m), i);
    crate::builders::origin_shift::lemma_cell_at_index(m, i);
    m.lemma_contains_coords_ok(p);
    lemma_index_bound(grid_cols(m), grid_rows(m), c.x + p.x + 1, c.y + p.y + 1);
    assert(paint_half_upto(m, o, base_half_pixels(m), i + 1)[halfway_index(m, c, p)]
        == HalfBlockPixel::Overlay(o.mark_at(m.w as int, c)));
    lemma_half_paint_keeps(m, o, i, c.y + p.y + 1, c.x + p.x + 1, m.cell_count());
}

/// The maze drawn with half blocks: each character shows two rows of the drawing grid, so
/// the drawing has `h + 1` rows of `2 * w + 1` characters.
pub fn render_half_blocks(maze: &Maze, overlay: Option<&MazeOverlay>) -> (buf: Vec<Vec<HalfBlockCell>>)
    requires
        drawable(*maze),
        overlay matches Some(o) ==> overlay_over(*maze, *o),
    ensures
        buf@.len() == maze.h + 1,
        forall|y: int| 0 <= y <= maze.h ==> (#[trigger] buf@[y])@.len() == grid_cols(*maze),
        forall|y: int, x: int|
            0 <= y <= maze.h && 0 <= x < grid_cols(*maze) ==> #[trigger] buf@[y]@[x] == half_cell_at(
                *maze,
                half_pixels(
                    *maze,
                    match overlay {
                        Some(o) => Some(*o),
                        None => None,
                    },
                ),
                y,
                x,
            ),
{
    let virtual_rows = maze.h * 2 + 1;
    let cols = maze.w * 2 + 1;
    let mut pixels: Vec<HalfBlockPixel> = Vec::new();
    let mut gy: usize = 0;
    while gy < virtual_rows
        invariant
            drawable(*maze),
            virtual_rows == grid_rows(*maze),
            cols == grid_cols(*maze),
            gy <= virtual_rows,
            pixels@.len() == gy * cols,
            forall|i: int| 0 <= i < pixels@.len() ==> #[trigger] pixels@[i] == base_half_pixels(*maze)[i],
        decreases virtual_rows - gy,
    {
        let mut gx: usize = 0;
        while gx < cols
            invariant
                drawable(*maze),
                virtual_rows == grid_rows(*maze),
                cols == grid_cols(*maze),
                gy < virtual_rows,
                gx <= cols,
                pixels@.len() == gy * cols + gx,
                forall|i: int| 0 <= i < pixels@.len() ==> #[trigger] pixels@[i] == base_half_pixels(*maze)[i],
            decreases cols - gx,
        {
            proof {
                lemma_index_coords(cols as int, gx as int, gy as int);
                lemma_index_bound(cols as int, virtual_rows as int, gx as int, gy as int);
            }
            let pixel = if (gy % 2 == 1 && gx % 2 == 1) || is_open_piece(maze, gy, gx) {
                HalfBlockPixel::Empty
            } else {
                HalfBlockPixel::Wall
            };
            pixels.push(pixel);
            gx = gx + 1;
        }
        proof {
            assert((gy + 1) * cols == gy * cols + cols) by (nonlinear_arith);
        }
        gy = gy + 1;
    }
    assert(pixels@ =~= base_half_pixels(*maze));
    let ghost chosen = match overlay {
        Some(o) => Some(*o),
        None => None,
    };
    if let Some(overlay) = overlay {
        let n = maze.w * maze.h;
        let mut t: usize = 0;
        while t < n
            invariant
                drawable(*maze),
                overlay_over(*maze, *overlay),
                virtual_rows == grid_rows(*maze),
                cols == grid_cols(*maze),
                n == maze.cell_count(),
                t <= n,
                pixels@ == paint_half_upto(*maze, *overlay, base_half_pixels(*maze), t as int),
            decreases n - t,
        {
            proof {
                crate::builders::origin_shift::lemma_cell_at_index(*maze, t as int);
                crate::types::lemma_index_decode(maze.w as int, maze.h as int, t as int);
                lemma_paint_half_len(*maze, *overlay, base_half_pixels(*maze), t as int);
                lemma_paint_cell_indices(*maze, *overlay, t as int);
                lemma_grid_fits(*maze);
                maze.lemma_contains_coords_ok(maze.cell_at(t as int));
            }
            let x = t % maze.w;
            let y = t / maze.w;
            let cell = Vec2i { x: x as i32, y: y as i32 };
            assert(cell == maze.cell_at(t as int));
            let mark = overlay.get(maze.w, cell);
            if mark != CellMark::Unmarked {
                let gy = y * 2 + 1;
                let gx = x * 2 + 1;
                proof {
                    lemma_index_bound(cols as int, virtual_rows as int, gx as int, gy as int);
                }
                pixels.set(gy * cols + gx, HalfBlockPixel::Overlay(mark));
                if let Some(parent) = overlay.parent(maze.w, cell) {
                    assert(maze.contains(parent));
                    let pgy = (parent.y as usize) * 2 + 1;
                    let pgx = (parent.x as usize) * 2 + 1;
                    let wall_y = (gy + pgy) / 2;
                    let wall_x = (gx + pgx) / 2;
                    proof {
                        lemma_index_bound(cols as int, virtual_rows as int, wall_x as int, wall_y as int);
                    }
                    pixels.set(wall_y * cols + wall_x, HalfBlockPixel::Overlay(mark));
                }
            }
            t = t + 1;
        }
        proof {
            lemma_paint_half_len(*maze, *overlay, base_half_pixels(*maze), n as int);
        }
    }
    assert(pixels@ == half_pixels(*maze, chosen));
    let rows = maze.h + 1;
    let mut buf: Vec<Vec<HalfBlockCell>> = Vec::new();
    let mut y: usize = 0;
    while y < rows
        invariant
            drawable(*maze),
            virtual_rows == grid_rows(*maze),
            cols == grid_cols(*maze),
            rows == maze.h + 1,
            y <= rows,
            pixels@ == half_pixels(*maze, chosen),
            pixels@.len() == virtual_rows * cols,
            buf@.len() == y,
            forall|r: int| 0 <= r < y ==> (#[trigger] buf@[r])@.len() == cols,
            forall|r: int, x: int|
                0 <= r < y && 0 <= x < cols ==> #[trigger] buf@[r]@[x] == half_cell_at(*maze, pixels@, r, x),
        decreases rows - y,
    {
        let top_y = y * 2;
        let bottom_y = top_y + 1;
        let mut row: Vec<HalfBlockCell> = Vec::new();
        let mut x: usize = 0;
        while x < cols
            invariant
                drawable(*maze),
                virtual_rows == grid_rows(*maze),
                cols == grid_cols(*maze),
                rows == maze.h + 1,
                y < rows,
                top_y == 2 * y,
                bottom_y == top_y + 1,
                x <= cols,
                pixels@.len() == virtual_rows * cols,
                row@.len() == x,
                forall|c: int| 0 <= c < x ==> #[trigger] row@[c] == half_cell_at(*maze, pixels@, y as int, c),
            decreases cols - x,
        {
            proof {
                lemma_index_bound(cols as int, virtual_rows as int, x as int, top_y as int);
                if bottom_y < virtual_rows {
                    lemma_index_bound(cols as int, virtual_rows as int, x as int, bottom_y as int);
                }
            }
            let top = pixels[top_y * cols + x];
            let bottom = if bottom_y < virtual_rows {
                pixels[bottom_y * cols + x]
            } else {
                HalfBlockPixel::Empty
            };
            row.push(HalfBlockCell { fg: half_block_pixel_color(bottom), bg: half_block_pixel_color(top) });
            x = x + 1;
        }
        buf.push(row);
        y = y + 1;
    }
    buf
}

/// Each grid position's character row in the half-block drawing: half its grid row.
pub fn compress_half_block_points(points: BTreeSet<(usize, usize)>) -> (r: BTreeSet<(usize, usize)>)
    ensures
        forall|pt: (usize, usize)|
            #[trigger] r@.contains(pt) <==> exists|q: (usize, usize)|
                #[trigger] points@.contains(q) && pt == (q.0 / 2, q.1),
{
    proof {
        lemma_points_ordered();
    }
    broadcast use vstd::std_specs::btree::group_btree_axioms;
    let mut r: BTreeSet<(usize, usize)> = BTreeSet::new();
    let ghost all = points@;
    for q in it: points.iter()
        invariant
            points_ordered(),
            all == points@,
            it.seq().unref().to_set() == all,
            forall|pt: (usize, usize)|
                #[trigger] r@.contains(pt) <==> exists|k: int|
                    0 <= k < it.index() && pt == (it.seq()[k].0 / 2, it.seq()[k].1),
            it.index() == it.seq().len() ==> forall|pt: (usize, usize)|
                #[trigger] r@.contains(pt) <==> exists|q: (usize, usize)|
                    #[trigger] all.contains(q) && pt == (q.0 / 2, q.1),
    {
        let ghost r0 = r@;
        let ghost k0 = it.index();
        r.insert((q.0 / 2, q.1));
        proof {
            assert forall|pt: (usize, usize)| #[trigger] r@.contains(pt) <==> exists|k: int|
                0 <= k < k0 + 1 && pt == (it.seq()[k].0 / 2, it.seq()[k].1) by {
                if r@.contains(pt) && !r0.contains(pt) {
                    assert(pt == (it.seq()[k0].0 / 2, it.seq()[k0].1));
                }
                if exists|k: int| 0 <= k < k0 + 1 && pt == (it.seq()[k].0 / 2, it.seq()[k].1) {
                    let k = choose|k: int| 0 <= k < k0 + 1 && pt == (it.seq()[k].0 / 2, it.seq()[k].1);
                    if k < k0 {
                        assert(r0.contains(pt));
                    }
                }
            }
            assert forall|pt: (usize, usize)| k0 + 1 == it.seq().len() implies (#[trigger] r@.contains(pt)
                <==> exists|q: (usize, usize)| #[trigger] all.contains(q) && pt == (q.0 / 2, q.1)) by {
                if r@.contains(pt) {
                    let k = choose|k: int| 0 <= k < k0 + 1 && pt == (it.seq()[k].0 / 2, it.seq()[k].1);
                    assert(it.seq().unref()[k] == *it.seq()[k]);
                    assert(it.seq().unref().to_set().contains(it.seq().unref()[k]));
                }
                if exists|q: (usize, usize)| #[trigger] all.contains(q) && pt == (q.0 / 2, q.1) {
                    let q = choose|q: (usize, usize)| #[trigger] all.contains(q) && pt == (q.0 / 2, q.1);
                    assert(it.seq().unref().to_set().contains(q));
                    let k = choose|k: int| 0 <= k < it.seq().unref().len() && it.seq().unref()[k] == q;
                    assert(it.seq().unref()[k] == *it.seq()[k]);
                    assert(pt == (it.seq()[k].0 / 2, it.seq()[k].1));
                }
            }
        }
    }
    r
}

/// Draws the maze with half blocks, two grid rows per character row.
pub struct HalfBlockMazeViewer {
    pub viewport: TerminalViewport,
}

impl HalfBlockMazeViewer {
    pub fn new(row: usize, col: usize) -> (v: Self)
        ensures
            v.viewport.row == row,
            v.viewport.col == col,
    {
        Self { viewport: TerminalViewport::new(row, col) }
    }
}

} // verus!
