use vstd::prelude::*;

use super::{TerminalViewport, drawable, grid_cols, grid_rows, is_wall_piece, wall_piece};
use crate::types::{CellMark, Dir, Maze, MazeOverlay, Vec2i, lemma_index_bound, lemma_index_coords, step_toward};
use crate::util::push_char;

verus! {

/// The box-drawing character that joins the arms present among north, east, south, west.
pub open spec fn junction_glyph(n: bool, e: bool, s: bool, w: bool) -> char {
    if n && e && s && w {
        '╋'
    } else if n && e && s && !w {
        '┣'
    } else if n && e && !s && w {
        '┻'
    } else if !n && e && s && w {
        '┳'
    } else if n && !e && s && w {
        '┫'
    } else if n && !e && s && !w {
        '┃'
    } else if !n && e && !s && w {
        '━'
    } else if n && e && !s && !w {
        '┗'
    } else if !n && e && s && !w {
        '┏'
    } else if !n && !e && s && w {
        '┓'
    } else if n && !e && !s && w {
        '┛'
    } else {
        ' '
    }
}

/// The arms (north, east, south, west) that a heavy box-drawing character has: a bar has its
/// two ends, a corner, tee or cross the arms it draws; any other character has none.
pub open spec fn glyph_arms(c: char) -> (bool, bool, bool, bool) {
    if c == '╋' {
        (true, true, true, true)
    } else if c == '┣' {
        (true, true, true, false)
    } else if c == '┻' {
        (true, true, false, true)
    } else if c == '┳' {
        (false, true, true, true)
    } else if c == '┫' {
        (true, false, true, true)
    } else if c == '┃' {
        (true, false, true, false)
    } else if c == '━' {
        (false, true, false, true)
    } else if c == '┗' {
        (true, true, false, false)
    } else if c == '┏' {
        (false, true, true, false)
    } else if c == '┓' {
        (false, false, true, true)
    } else if c == '┛' {
        (true, false, false, true)
    } else {
        (false, false, false, false)
    }
}

/// How many of the four arms are present.
pub open spec fn arm_count(n: bool, e: bool, s: bool, w: bool) -> int {
    (if n { 1int } else { 0int }) + (if e { 1int } else { 0int }) + (if s { 1int } else { 0int }) + (if w {
        1int
    } else {
        0int
    })
}

/// A junction joins exactly the arms asked for: with two or more arms its character has
/// precisely those arms; with fewer it is blank.
pub proof fn lemma_junction_has_its_arms(n: bool, e: bool, s: bool, w: bool)
    ensures
        arm_count(n, e, s, w) >= 2 ==> glyph_arms(junction_glyph(n, e, s, w)) == (n, e, s, w),
        arm_count(n, e, s, w) < 2 ==> junction_glyph(n, e, s, w) == ' ',
{
}

/// The centre of an overlay cell draws its links: with two or more links its character has
/// precisely those arms; with one link it is the straight bar through that link; with none it
/// is blank.
pub proof fn lemma_center_has_its_links(n: bool, e: bool, s: bool, w: bool)
    ensures
        arm_count(n, e, s, w) >= 2 ==> glyph_arms(center_glyph(n, e, s, w)) == (n, e, s, w),
        arm_count(n, e, s, w) == 1 ==> {
            let a = glyph_arms(center_glyph(n, e, s, w));
            &&& (n || s) ==> a == (true, false, true, false)
            &&& (e || w) ==> a == (false, true, false, true)
        },
        arm_count(n, e, s, w) == 0 ==> center_glyph(n, e, s, w) == ' ',
{
}

/// A link between two neighbouring overlay cells is seen the same way from both ends.
pub proof fn lemma_overlay_link_symmetric(m: Maze, o: MazeOverlay, c: Vec2i, d: Dir)
    requires
        m.wf(),
        m.contains(c),
        m.contains(step_toward(c, d)),
    ensures
        overlay_link(m, o, c, d) == overlay_link(m, o, step_toward(c, d), crate::types::opposite_dir(d)),
{
    let n = step_toward(c, d);
    m.lemma_contains_coords_ok(c);
    m.lemma_contains_coords_ok(n);
    assert(step_toward(n, crate::types::opposite_dir(d)) == c);
}

/// The character of a wall piece: a horizontal bar on even rows, a vertical bar on odd ones.
pub open spec fn piece_char(m: Maze, gy: int, gx: int) -> char {
    if wall_piece(m, gy, gx) {
        if gy % 2 == 0 {
            '━'
        } else {
            '┃'
        }
    } else {
        ' '
    }
}

/// What the line drawing shows at a position of the drawing grid: wall pieces as bars, cell
/// centres blank, and each corner joining the wall pieces around it.
pub open spec fn line_glyph(m: Maze, gy: int, gx: int) -> char {
    if gy % 2 == 0 && gx % 2 == 0 {
        junction_glyph(
            gy > 0 && wall_piece(m, gy - 1, gx),
            gx + 1 < grid_cols(m) && wall_piece(m, gy, gx + 1),
            gy + 1 < grid_rows(m) && wall_piece(m, gy + 1, gx),
            gx > 0 && wall_piece(m, gy, gx - 1),
        )
    } else {
        piece_char(m, gy, gx)
    }
}

/// The corner character at `(x, y)` of a `rows` by `cols` buffer stored row by row: it joins
/// the non-blank characters above, right, below and left of it.
pub fn junction_char(rows: usize, cols: usize, x: usize, y: usize, buf: &Vec<char>) -> (c: char)
    requires
        x < cols,
        y < rows,
        rows * cols <= usize::MAX,
        buf@.len() == rows * cols,
    ensures
        c == junction_glyph(
            y > 0 && buf@[(y - 1) * cols + x] != ' ',
            x + 1 < cols && buf@[y * cols + x + 1] != ' ',
            y + 1 < rows && buf@[(y + 1) * cols + x] != ' ',
            x > 0 && buf@[y * cols + x - 1] != ' ',
        ),
{
    proof {
        lemma_index_bound(cols as int, rows as int, x as int, y as int);
        if y > 0 {
            lemma_index_bound(cols as int, rows as int, x as int, y - 1);
        }
        if y + 1 < rows {
            lemma_index_bound(cols as int, rows as int, x as int, y + 1);
        }
    }
    let n = y > 0 && buf[(y - 1) * cols + x] != ' ';
    let s = y + 1 < rows && buf[(y + 1) * cols + x] != ' ';
    let w = x > 0 && buf[y * cols + x - 1] != ' ';
    let e = x + 1 < cols && buf[y * cols + x + 1] != ' ';
    if n && e && s && w {
        '╋'
    } else if n && e && s && !w {
        '┣'
    } else if n && e && !s && w {
        '┻'
    } else if !n && e && s && w {
        '┳'
    } else if n && !e && s && w {
        '┫'
    } else if n && !e && s && !w {
        '┃'
    } else if !n && e && !s && w {
        '━'
    } else if n && e && !s && !w {
        '┗'
    } else if !n && e && s && !w {
        '┏'
    } else if !n && !e && s && w {
        '┓'
    } else if n && !e && !s && w {
        '┛'
    } else {
        ' '
    }
}

/// Draws the maze with box-drawing characters: one row of characters per grid row, wall
/// pieces as bars and corners joining them.
pub fn render_lines(maze: &Maze) -> (buf: Vec<Vec<char>>)
    requires
        drawable(*maze),
    ensures
        buf@.len() == grid_rows(*maze),
        forall|gy: int| 0 <= gy < grid_rows(*maze) ==> (#[trigger] buf@[gy])@.len() == grid_cols(*maze),
        forall|gy: int, gx: int|
            0 <= gy < grid_rows(*maze) && 0 <= gx < grid_cols(*maze) ==> #[trigger] buf@[gy]@[gx]
                == line_glyph(*maze, gy, gx),
        forall|gy: int| 0 <= gy < grid_rows(*maze) ==> (#[trigger] buf@[gy])@ == line_rows(*maze)[gy],
{
    let rows = maze.h * 2 + 1;
    let cols = maze.w * 2 + 1;
    // The wall pieces, row by row.
    let mut flat: Vec<char> = Vec::new();
    let mut gy: usize = 0;
    while gy < rows
        invariant
            drawable(*maze),
            rows == grid_rows(*maze),
            cols == grid_cols(*maze),
            gy <= rows,
            flat@.len() == gy * cols,
            forall|i: int| 0 <= i < flat@.len() ==> #[trigger] flat@[i] == piece_char(*maze, i / (cols as int), i % (cols as int)),
        decreases rows - gy,
    {
        let mut gx: usize = 0;
        while gx < cols
            invariant
                drawable(*maze),
                rows == grid_rows(*maze),
                cols == grid_cols(*maze),
                gy < rows,
                gx <= cols,
                flat@.len() == gy * cols + gx,
                forall|i: int| 0 <= i < flat@.len() ==> #[trigger] flat@[i] == piece_char(*maze, i / (cols as int), i % (cols as int)),
            decreases cols - gx,
        {
            proof {
                lemma_index_coords(cols as int, gx as int, gy as int);
                lemma_index_bound(cols as int, rows as int, gx as int, gy as int);
            }
            let c = if is_wall_piece(maze, gy, gx) {
                if gy % 2 == 0 {
                    '━'
                } else {
                    '┃'
                }
            } else {
                ' '
            };
            flat.push(c);
            gx = gx + 1;
        }
        proof {
            assert((gy + 1) * cols == gy * cols + cols) by (nonlinear_arith);
        }
        gy = gy + 1;
    }
    // The rows, with every corner joined.
    let mut buf: Vec<Vec<char>> = Vec::new();
    let mut gy: usize = 0;
    while gy < rows
        invariant
            drawable(*maze),
            rows == grid_rows(*maze),
            cols == grid_cols(*maze),
            gy <= rows,
            flat@.len() == rows * cols,
            forall|i: int| 0 <= i < flat@.len() ==> #[trigger] flat@[i] == piece_char(*maze, i / (cols as int), i % (cols as int)),
            buf@.len() == gy,
            forall|y: int| 0 <= y < gy ==> (#[trigger] buf@[y])@.len() == cols,
            forall|y: int, x: int|
                0 <= y < gy && 0 <= x < cols ==> #[trigger] buf@[y]@[x] == line_glyph(*maze, y, x),
        decreases rows - gy,
    {
        let mut row: Vec<char> = Vec::new();
        let mut gx: usize = 0;
        while gx < cols
            invariant
                drawable(*maze),
                rows == grid_rows(*maze),
                cols == grid_cols(*maze),
                gy < rows,
                gx <= cols,
                flat@.len() == rows * cols,
                forall|i: int| 0 <= i < flat@.len() ==> #[trigger] flat@[i] == piece_char(*maze, i / (cols as int), i % (cols as int)),
                row@.len() == gx,
                forall|x: int| 0 <= x < gx ==> #[trigger] row@[x] == line_glyph(*maze, gy as int, x),
            decreases cols - gx,
        {
            proof {
                lemma_index_bound(cols as int, rows as int, gx as int, gy as int);
                lemma_index_coords(cols as int, gx as int, gy as int);
                if gy > 0 {
                    lemma_index_coords(cols as int, gx as int, gy - 1);
                    lemma_index_bound(cols as int, rows as int, gx as int, gy - 1);
                }
                if gy + 1 < rows {
                    lemma_index_coords(cols as int, gx as int, gy + 1);
                    lemma_index_bound(cols as int, rows as int, gx as int, gy + 1);
                }
                if gx > 0 {
                    lemma_index_coords(cols as int, gx - 1, gy as int);
                }
                if gx + 1 < cols {
                    lemma_index_coords(cols as int, gx + 1, gy as int);
                }
                lemma_piece_blank_or_bar(*maze, gy as int - 1, gx as int);
                lemma_piece_blank_or_bar(*maze, gy as int + 1, gx as int);
                lemma_piece_blank_or_bar(*maze, gy as int, gx as int - 1);
                lemma_piece_blank_or_bar(*maze, gy as int, gx as int + 1);
            }
            let c = if gy % 2 == 0 && gx % 2 == 0 {
                junction_char(rows, cols, gx, gy, &flat)
            } else {
                flat[gy * cols + gx]
            };
            row.push(c);
            gx = gx + 1;
        }
        buf.push(row);
        gy = gy + 1;
    }
    proof {
        assert forall|y: int| 0 <= y < grid_rows(*maze) implies (#[trigger] buf@[y])@ == line_rows(*maze)[y] by {
            assert(buf@[y]@ =~= line_rows(*maze)[y]);
        }
    }
    buf
}

/// A wall piece shows a bar and anything else a blank.
pub proof fn lemma_piece_blank_or_bar(m: Maze, gy: int, gx: int)
    ensures
        (piece_char(m, gy, gx) != ' ') == wall_piece(m, gy, gx),
{
}

/// Lines of characters joined by newlines.
pub open spec fn joined_lines(rows: Seq<Seq<char>>) -> Seq<char>
    decreases rows.len(),
{
    if rows.len() == 0 {
        Seq::empty()
    } else if rows.len() == 1 {
        rows[0]
    } else {
        joined_lines(rows.drop_last()) + seq!['\n'] + rows.last()
    }
}

/// The line drawing of `m`, row by row.
pub open spec fn line_rows(m: Maze) -> Seq<Seq<char>> {
    Seq::new(grid_rows(m) as nat, |gy: int| Seq::new(grid_cols(m) as nat, |gx: int| line_glyph(m, gy, gx)))
}

/// The line drawing of the maze as one string, rows separated by newlines.
pub fn render_lines_to_string(maze: &Maze) -> (s: String)
    requires
        drawable(*maze),
    ensures
        s@ == joined_lines(line_rows(*maze)),
{
    let rows = render_lines(maze);
    let ghost lr = line_rows(*maze);
    let mut s = String::new();
    let mut y: usize = 0;
    while y < rows.len()
        invariant
            drawable(*maze),
            lr == line_rows(*maze),
            rows@.len() == grid_rows(*maze),
            forall|gy: int| 0 <= gy < grid_rows(*maze) ==> (#[trigger] rows@[gy])@ == lr[gy],
            y <= rows@.len(),
            s@ == joined_lines(lr.take(y as int)),
        decreases rows@.len() - y,
    {
        proof {
            assert(rows@[y as int]@ =~= lr[y as int]);
        }
        let ghost before = s@;
        if y > 0 {
            push_char(&mut s, '\n');
        }
        let row = &rows[y];
        let mut x: usize = 0;
        while x < row.len()
            invariant
                x <= row@.len(),
                s@ == before + (if y > 0 { seq!['\n'] } else { Seq::<char>::empty() }) + row@.take(x as int),
            decreases row@.len() - x,
        {
            push_char(&mut s, row[x]);
            proof {
                assert(row@.take(x + 1) =~= row@.take(x as int).push(row@[x as int]));
            }
            x = x + 1;
        }
        proof {
            assert(row@.take(x as int) =~= row@);
            assert(lr.take(y + 1).drop_last() =~= lr.take(y as int));
            if y == 0 {
                assert(s@ =~= lr.take(1)[0]);
            } else {
                assert(s@ =~= joined_lines(lr.take(y as int)) + seq!['\n'] + lr.take(y + 1).last());
            }
        }
        y = y + 1;
    }
    proof {
        assert(lr.take(rows@.len() as int) =~= lr);
    }
    s
}

/// Draws the maze with box-drawing characters and the overlay as coloured paths.
pub struct LineMazeViewer {
    pub viewport: TerminalViewport,
}

impl LineMazeViewer {
    pub fn new(row: usize, col: usize) -> (v: Self)
        ensures
            v.viewport.row == row,
            v.viewport.col == col,
    {
        Self { viewport: TerminalViewport::new(row, col) }
    }
}

/// The terminal colour code of a mark: plain, bright yellow, bright red, bright green.
pub fn overlay_color(mark: CellMark) -> (s: &'static str)
    ensures
        mark == CellMark::Unmarked ==> s@ == "\x1b[0m"@,
        mark == CellMark::Active ==> s@ == "\x1b[1;93m"@,
        mark == CellMark::Dead ==> s@ == "\x1b[1;91m"@,
        mark == CellMark::Solution ==> s@ == "\x1b[1;92m"@,
{
    match mark {
        CellMark::Unmarked => "\x1b[0m",
        CellMark::Active => "\x1b[1;93m",
        CellMark::Dead => "\x1b[1;91m",
        CellMark::Solution => "\x1b[1;92m",
    }
}

/// The overlay fits the maze and every recorded parent is a cell of the grid.
pub open spec fn overlay_fits(m: Maze, o: MazeOverlay) -> bool {
    &&& drawable(m)
    &&& o.wf()
    &&& o.cell_count() == m.cell_count()
    &&& forall|p: Vec2i|
        #![trigger o.parent_at(m.w as int, p)]
        m.contains(p) && o.parent_at(m.w as int, p) is Some ==> m.contains(o.parent_at(m.w as int, p)->0)
}

/// The overlay draws a path between `c` and its neighbour towards `d`: both are marked and one
/// is the other's parent.
pub open spec fn overlay_link(m: Maze, o: MazeOverlay, c: Vec2i, d: Dir) -> bool {
    let n = step_toward(c, d);
    &&& m.contains(n)
    &&& o.mark_at(m.w as int, c) != CellMark::Unmarked
    &&& o.mark_at(m.w as int, n) != CellMark::Unmarked
    &&& (o.parent_at(m.w as int, c) == Some(n) || o.parent_at(m.w as int, n) == Some(c))
}

pub proof fn lemma_overlay_cell(m: Maze, o: MazeOverlay, c: Vec2i)
    requires
        overlay_fits(m, o),
        m.contains(c),
    ensures
        o.addressable(m.w as int, c),
        crate::types::coords_ok(c),
{
    m.lemma_contains_coords_ok(c);
}

pub fn has_overlay_link(maze: &Maze, overlay: &MazeOverlay, cell: Vec2i, dir: Dir) -> (b: bool)
    requires
        overlay_fits(*maze, *overlay),
        maze.contains(cell),
    ensures
        b == overlay_link(*maze, *overlay, cell, dir),
{
    proof {
        lemma_overlay_cell(*maze, *overlay, cell);
    }
    let next = maze.neighbor(cell, dir);
    if !maze.in_bounds(next) {
        return false;
    }
    proof {
        lemma_overlay_cell(*maze, *overlay, next);
    }
    if overlay.get(maze.w, cell) == CellMark::Unmarked || overlay.get(maze.w, next) == CellMark::Unmarked {
        return false;
    }
    let to_next = match overlay.parent(maze.w, cell) {
        Some(p) => p == next,
        None => false,
    };
    let to_cell = match overlay.parent(maze.w, next) {
        Some(p) => p == cell,
        None => false,
    };
    to_next || to_cell
}

/// The centre character of a cell of the overlay: the junction of its links, a bar when it
/// has a single link, blank when it has none.
pub open spec fn center_glyph(n: bool, e: bool, s: bool, w: bool) -> char {
    if !n && !e && !s && !w {
        ' '
    } else if n && !e && !s && !w {
        '┃'
    } else if !n && e && !s && !w {
        '━'
    } else if !n && !e && s && !w {
        '┃'
    } else if !n && !e && !s && w {
        '━'
    } else {
        junction_glyph(n, e, s, w)
    }
}

pub open spec fn overlay_glyph(m: Maze, o: MazeOverlay, c: Vec2i) -> char {
    center_glyph(
        overlay_link(m, o, c, Dir::N),
        overlay_link(m, o, c, Dir::E),
        overlay_link(m, o, c, Dir::S),
        overlay_link(m, o, c, Dir::W),
    )
}

pub fn overlay_center_char(maze: &Maze, overlay: &MazeOverlay, cell: Vec2i) -> (c: char)
    requires
        overlay_fits(*maze, *overlay),
        maze.contains(cell),
    ensures
        c == overlay_glyph(*maze, *overlay, cell),
{
    let n = has_overlay_link(maze, overlay, cell, Dir::N);
    let e = has_overlay_link(maze, overlay, cell, Dir::E);
    let s = has_overlay_link(maze, overlay, cell, Dir::S);
    let w = has_overlay_link(maze, overlay, cell, Dir::W);
    if n && e && s && w {
        '╋'
    } else if n && e && s && !w {
        '┣'
    } else if n && e && !s && w {
        '┻'
    } else if !n && e && s && w {
        '┳'
    } else if n && !e && s && w {
        '┫'
    } else if n && !e && s && !w {
        '┃'
    } else if !n && e && !s && w {
        '━'
    } else if n && e && !s && !w {
        '┗'
    } else if !n && e && s && !w {
        '┏'
    } else if !n && !e && s && w {
        '┓'
    } else if n && !e && !s && w {
        '┛'
    } else if n && !e && !s && !w {
        '┃'
    } else if !n && e && !s && !w {
        '━'
    } else if !n && !e && s && !w {
        '┃'
    } else if !n && !e && !s && w {
        '━'
    } else {
        ' '
    }
}

/// One character to draw at a position of the drawing grid, in the colour of a mark.
#[derive(Clone, Copy, PartialEq, Eq, Structural, Debug)]
pub struct GlyphDraw {
    pub row: usize,
    pub col: usize,
    pub mark: CellMark,
    pub glyph: char,
}

/// The drawing-grid position of the centre of `c`.
pub open spec fn centre_of(c: Vec2i) -> (int, int) {
    (2 * c.y + 1, 2 * c.x + 1)
}

/// What drawing the link of `c` towards `d` puts on the screen, if there is a link.
pub open spec fn link_draw(m: Maze, o: MazeOverlay, c: Vec2i, d: Dir) -> Seq<GlyphDraw> {
    if overlay_link(m, o, c, d) {
        let (gy, gx) = centre_of(c);
        let (y, x, g) = match d {
            Dir::N => (gy - 1, gx, '┃'),
            Dir::E => (gy, gx + 1, '━'),
            Dir::S => (gy + 1, gx, '┃'),
            Dir::W => (gy, gx - 1, '━'),
        };
        seq![GlyphDraw { row: y as usize, col: x as usize, mark: o.mark_at(m.w as int, c), glyph: g }]
    } else {
        Seq::empty()
    }
}

/// What drawing a cell of the overlay puts on the screen: its links (north, east, south,
/// west) then its centre, all in the colour of its mark.
pub open spec fn cell_draws(m: Maze, o: MazeOverlay, c: Vec2i) -> Seq<GlyphDraw> {
    let (gy, gx) = centre_of(c);
    link_draw(m, o, c, Dir::N) + link_draw(m, o, c, Dir::E) + link_draw(m, o, c, Dir::S) + link_draw(
        m,
        o,
        c,
        Dir::W,
    ) + seq![
        GlyphDraw {
            row: gy as usize,
            col: gx as usize,
            mark: o.mark_at(m.w as int, c),
            glyph: overlay_glyph(m, o, c),
        },
    ]
}

/// The characters that draw one cell of the overlay and its links.
pub fn draw_overlay_cell(maze: &Maze, overlay: &MazeOverlay, cell: Vec2i) -> (draws: Vec<GlyphDraw>)
    requires
        overlay_fits(*maze, *overlay),
        maze.contains(cell),
    ensures
        draws@ == cell_draws(*maze, *overlay, cell),
{
    proof {
        lemma_overlay_cell(*maze, *overlay, cell);
        super::lemma_grid_fits(*maze);
    }
    let gy = (cell.y as usize) * 2 + 1;
    let gx = (cell.x as usize) * 2 + 1;
    let mark = overlay.get(maze.w, cell);
    let glyph = overlay_center_char(maze, overlay, cell);
    let mut draws: Vec<GlyphDraw> = Vec::new();
    let mut k: usize = 0;
    while k < 4
        invariant
            k <= 4,
            overlay_fits(*maze, *overlay),
            maze.contains(cell),
            4 * maze.h + 4 <= usize::MAX,
            4 * maze.w + 4 <= usize::MAX,
            gy == 2 * cell.y + 1,
            gx == 2 * cell.x + 1,
            mark == overlay.mark_at(maze.w as int, cell),
            draws@ == (if k > 0 { link_draw(*maze, *overlay, cell, Dir::N) } else { Seq::empty() })
                + (if k > 1 { link_draw(*maze, *overlay, cell, Dir::E) } else { Seq::empty() })
                + (if k > 2 { link_draw(*maze, *overlay, cell, Dir::S) } else { Seq::empty() })
                + (if k > 3 { link_draw(*maze, *overlay, cell, Dir::W) } else { Seq::empty() }),
        decreases 4 - k,
    {
        let dir = crate::types::dir_at(k);
        let ghost before = draws@;
        if has_overlay_link(maze, overlay, cell, dir) {
            let (wall_y, wall_x, wall_glyph) = match dir {
                Dir::N => (gy - 1, gx, '┃'),
                Dir::E => (gy, gx + 1, '━'),
                Dir::S => (gy + 1, gx, '┃'),
                Dir::W => (gy, gx - 1, '━'),
            };
            draws.push(GlyphDraw { row: wall_y, col: wall_x, mark, glyph: wall_glyph });
            assert(draws@ =~= before + link_draw(*maze, *overlay, cell, dir));
        } else {
            assert(draws@ =~= before + link_draw(*maze, *overlay, cell, dir));
        }
        k = k + 1;
    }
    let ghost links = draws@;
    draws.push(GlyphDraw { row: gy, col: gx, mark, glyph });
    assert(draws@ =~= cell_draws(*maze, *overlay, cell));
    draws
}

/// The cells of `c`'s neighbour towards `d` when it is a marked cell of the grid.
pub open spec fn neighbour_draws(m: Maze, o: MazeOverlay, c: Vec2i, d: Dir) -> Seq<GlyphDraw> {
    let n = step_toward(c, d);
    if m.contains(n) && o.mark_at(m.w as int, n) != CellMark::Unmarked {
        cell_draws(m, o, n)
    } else {
        Seq::empty()
    }
}

/// What redrawing one changed cell puts on the screen: a marked cell is drawn with its links,
/// then each marked neighbour (north, east, south, west) is drawn again; an unmarked cell is
/// blanked, first halfway to its parent if it has one, then at its centre.
pub open spec fn changed_cell_draws(m: Maze, o: MazeOverlay, c: Vec2i) -> Seq<GlyphDraw> {
    if o.mark_at(m.w as int, c) != CellMark::Unmarked {
        cell_draws(m, o, c) + neighbour_draws(m, o, c, Dir::N) + neighbour_draws(m, o, c, Dir::E)
            + neighbour_draws(m, o, c, Dir::S) + neighbour_draws(m, o, c, Dir::W)
    } else {
        let (gy, gx) = centre_of(c);
        let blank_centre = seq![
            GlyphDraw { row: gy as usize, col: gx as usize, mark: CellMark::Unmarked, glyph: ' ' },
        ];
        match o.parent_at(m.w as int, c) {
            Some(p) => seq![
                GlyphDraw {
                    row: (c.y + p.y + 1) as usize,
                    col: (c.x + p.x + 1) as usize,
                    mark: CellMark::Unmarked,
                    glyph: ' ',
                },
            ] + blank_centre,
            None => blank_centre,
        }
    }
}

/// The redrawing of each changed cell in turn.
pub open spec fn update_draws(m: Maze, o: MazeOverlay, cells: Seq<Vec2i>) -> Seq<GlyphDraw>
    decreases cells.len(),
{
    if cells.len() == 0 {
        Seq::empty()
    } else {
        update_draws(m, o, cells.drop_last()) + changed_cell_draws(m, o, cells.last())
    }
}

impl LineMazeViewer {
    /// The characters that redraw the overlay of `cells` (the viewer adds its own offset).
    #[verifier::spinoff_prover]
    #[verifier::rlimit(60)]
    pub fn overlay_draws(&self, maze: &Maze, overlay: &MazeOverlay, cells: &Vec<Vec2i>) -> (draws: Vec<
        GlyphDraw,
    >)
        requires
            overlay_fits(*maze, *overlay),
            forall|i: int| 0 <= i < cells@.len() ==> maze.contains(#[trigger] cells@[i]),
        ensures
            draws@ == update_draws(*maze, *overlay, cells@),
    {
        let mut draws: Vec<GlyphDraw> = Vec::new();
        let mut i: usize = 0;
        while i < cells.len()
            invariant
                i <= cells@.len(),
                overlay_fits(*maze, *overlay),
                forall|j: int| 0 <= j < cells@.len() ==> maze.contains(#[trigger] cells@[j]),
                draws@ == update_draws(*maze, *overlay, cells@.take(i as int)),
            decreases cells@.len() - i,
        {
            let cell = cells[i];
            assert(maze.contains(cells@[i as int]));
            proof {
                lemma_overlay_cell(*maze, *overlay, cell);
                super::lemma_grid_fits(*maze);
                assert(cells@.take(i + 1).drop_last() =~= cells@.take(i as int));
            }
            let ghost before = draws@;
            let mark = overlay.get(maze.w, cell);
            if mark != CellMark::Unmarked {
                let mut own = draw_overlay_cell(maze, overlay, cell);
                draws.append(&mut own);
                let mut k: usize = 0;
                while k < 4
                    invariant
                        k <= 4,
                        overlay_fits(*maze, *overlay),
                        maze.contains(cell),
                        crate::types::coords_ok(cell),
                        draws@ == before + cell_draws(*maze, *overlay, cell) + (if k > 0 {
                            neighbour_draws(*maze, *overlay, cell, Dir::N)
                        } else {
                            Seq::empty()
                        }) + (if k > 1 {
                            neighbour_draws(*maze, *overlay, cell, Dir::E)
                        } else {
                            Seq::empty()
                        }) + (if k > 2 {
                            neighbour_draws(*maze, *overlay, cell, Dir::S)
                        } else {
                            Seq::empty()
                        }) + (if k > 3 {
                            neighbour_draws(*maze, *overlay, cell, Dir::W)
                        } else {
                            Seq::empty()
                        }),
                    decreases 4 - k,
                {
                    let dir = crate::types::dir_at(k);
                    let next = maze.neighbor(cell, dir);
                    let ghost mid = draws@;
                    if maze.in_bounds(next) {
                        proof {
                            lemma_overlay_cell(*maze, *overlay, next);
                        }
                        if overlay.get(maze.w, next) != CellMark::Unmarked {
                            let mut more = draw_overlay_cell(maze, overlay, next);
                            draws.append(&mut more);
                        }
                    }
                    assert(draws@ =~= mid + neighbour_draws(*maze, *overlay, cell, dir));
                    k = k + 1;
                }
                assert(draws@ =~= before + changed_cell_draws(*maze, *overlay, cell));
            } else {
                let gy = (cell.y as usize) * 2 + 1;
                let gx = (cell.x as usize) * 2 + 1;
                if let Some(parent) = overlay.parent(maze.w, cell) {
                    assert(maze.contains(parent));
                    let pgy = (parent.y as usize) * 2 + 1;
                    let pgx = (parent.x as usize) * 2 + 1;
                    draws.push(
                        GlyphDraw {
                            row: (gy + pgy) / 2,
                            col: (gx + pgx) / 2,
                            mark: CellMark::Unmarked,
                            glyph: ' ',
                        },
                    );
                }
                draws.push(GlyphDraw { row: gy, col: gx, mark: CellMark::Unmarked, glyph: ' ' });
                assert(draws@ =~= before + changed_cell_draws(*maze, *overlay, cell));
            }
            i = i + 1;
        }
        proof {
            assert(cells@.take(cells@.len() as int) =~= cells@);
        }
        draws
    }
}

} // verus!
