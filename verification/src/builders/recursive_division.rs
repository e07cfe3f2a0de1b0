use vstd::prelude::*;

use crate::wall_count::{lemma_open_flag_count, open_flag_count};

use super::BuildStrategy;
use crate::rng::{time_seed, xorshift, xorshift_next};
use crate::forest::{grid_joined, joined, lemma_joined_step, lemma_joined_transitive, walk};
use crate::types::{outer_walls_same, 
    Dir, Maze, Vec2i, cell_of, lemma_index_bound, lemma_index_coords, lemma_index_injective, step_toward,
};

verus! {

/// A rectangle of cells still to be divided.
#[derive(Clone, Copy, Debug)]
pub struct Chamber {
    pub x: usize,
    pub y: usize,
    pub w: usize,
    pub h: usize,
}

/// Wall-adding generator: opens every interior wall, then splits the grid into chambers,
/// each split a wall with a single gap, until no chamber is wider and taller than one cell.
pub struct RecursiveDivision {
    stack: Vec<Chamber>,
    initialized: bool,
    seed: u32,
    w: usize,
    h: usize,
    done: bool,
}

/// How much work a chamber still holds: splitting one into two lowers the total by one,
/// and so does discarding a single cell.
pub open spec fn chamber_weight(c: Chamber) -> int {
    2 * (c.w * c.h) - 1
}

pub open spec fn stack_weight(s: Seq<Chamber>) -> int
    decreases s.len(),
{
    if s.len() == 0 {
        0
    } else {
        stack_weight(s.drop_last()) + chamber_weight(s.last())
    }
}

/// How many more passages the chambers hold than a tree through each of them would:
/// `(w - 1) * (h - 1)` for a `w` by `h` chamber.
pub open spec fn stack_slack(s: Seq<Chamber>) -> int
    decreases s.len(),
{
    if s.len() == 0 {
        0
    } else {
        stack_slack(s.drop_last()) + (s.last().w - 1) * (s.last().h - 1)
    }
}

/// The chamber lies inside a `w` by `h` grid and holds at least one cell.
pub open spec fn chamber_ok(c: Chamber, w: int, h: int) -> bool {
    &&& c.w >= 1
    &&& c.h >= 1
    &&& c.x + c.w <= w
    &&& c.y + c.h <= h
}

/// The two chambers share no cell.
pub open spec fn chambers_apart(a: Chamber, b: Chamber) -> bool {
    a.x + a.w <= b.x || b.x + b.w <= a.x || a.y + a.h <= b.y || b.y + b.h <= a.y
}

/// The name of the wall east of cell `(x, y)` in a grid `w` cells wide.
pub open spec fn east_key(w: int, x: int, y: int) -> int {
    2 * (y * w + x)
}

/// The name of the wall south of cell `(x, y)` in a grid `w` cells wide.
pub open spec fn south_key(w: int, x: int, y: int) -> int {
    2 * (y * w + x) + 1
}

/// Every wall between two cells of chamber `c` is in `open`.
pub open spec fn chamber_open(c: Chamber, w: int, open: Set<int>) -> bool {
    &&& forall|x: int, y: int|
        #![trigger east_key(w, x, y)]
        c.x <= x && x + 1 < c.x + c.w && c.y <= y < c.y + c.h ==> open.contains(east_key(w, x, y))
    &&& forall|x: int, y: int|
        #![trigger south_key(w, x, y)]
        c.x <= x < c.x + c.w && c.y <= y && y + 1 < c.y + c.h ==> open.contains(south_key(w, x, y))
}

/// The wall named `k` separates two cells of a `w` by `h` grid.
pub open spec fn inside_key(w: int, h: int, k: int) -> bool {
    &&& 0 <= k < 2 * (w * h)
    &&& if k % 2 == 0 {
        (k / 2) % w + 1 < w
    } else {
        k / 2 + w < w * h
    }
}

/// The walls between two cells of a `w` by `h` grid that belong to the first `i` cells.
pub open spec fn inside_keys(w: int, h: int, i: int) -> Set<int> {
    Set::new(|k: int| k < 2 * i && inside_key(w, h, k))
}

/// The wall that splitting `c` at row `split` builds, below row `c.y + split - 1`, in the
/// columns from `c.x` up to `end` except `passage`.
pub open spec fn row_wall(c: Chamber, split: int, passage: int, w: int, end: int, k: int) -> bool {
    exists|x: int| c.x <= x < end && x != passage && k == #[trigger] south_key(w, x, c.y + split - 1)
}

/// The wall that splitting `c` at column `split` builds, east of column `c.x + split - 1`,
/// in the rows from `c.y` up to `end` except `passage`.
pub open spec fn column_wall(c: Chamber, split: int, passage: int, w: int, end: int, k: int) -> bool {
    exists|y: int| c.y <= y < end && y != passage && k == #[trigger] east_key(w, c.x + split - 1, y)
}

/// How chamber `c` is split with the generator in state `s`: across (by a row wall) when it
/// is one cell wide or taller than wide, along (by a column wall) when it is one cell tall or
/// wider than tall, and by the lowest bit of the next state when square (0: across). The
/// next state `r1` then places the wall at `1 + r1 % (h - 1)` rows (or `w - 1` columns) in,
/// and the state after it, `r2`, places the gap at `r2 % w` (or `r2 % h`) along the wall.
/// Gives the direction, the wall's offset, the gap's row or column, and the final state.
pub open spec fn split_choice(c: Chamber, s: u32) -> (bool, int, int, u32) {
    let (across, s0) = if c.w < 2 {
        (true, s)
    } else if c.h < 2 {
        (false, s)
    } else if c.h > c.w {
        (true, s)
    } else if c.h == c.w {
        (xorshift_next(s) & 1 == 0, xorshift_next(s))
    } else {
        (false, s)
    };
    let r1 = xorshift_next(s0);
    let r2 = xorshift_next(r1);
    if across {
        (true, 1 + (r1 as int) % (c.h - 1), c.x + (r2 as int) % (c.w as int), r2)
    } else {
        (false, 1 + (r1 as int) % (c.w - 1), c.y + (r2 as int) % (c.h as int), r2)
    }
}

/// The two chambers that splitting `c` leaves, the second pushed last.
pub open spec fn split_halves(c: Chamber, across: bool, split: int) -> Seq<Chamber> {
    if across {
        seq![
            Chamber { x: c.x, y: c.y, w: c.w, h: split as usize },
            Chamber { x: c.x, y: (c.y + split) as usize, w: c.w, h: (c.h - split) as usize },
        ]
    } else {
        seq![
            Chamber { x: c.x, y: c.y, w: split as usize, h: c.h },
            Chamber { x: (c.x + split) as usize, y: c.y, w: (c.w - split) as usize, h: c.h },
        ]
    }
}

/// The division work that one step does on chamber stack `st` with the generator in state
/// `s` (at most `fuel` chambers): take the last chamber; drop it if it is a single cell;
/// otherwise split it as `split_choice` says, push the halves, and stop there unless the
/// wall has no segment to build (a one-cell-wide chamber split across, or a one-cell-tall one
/// split along). Gives the stack and state after, and the chamber split with how.
pub open spec fn division_next(st: Seq<Chamber>, s: u32, fuel: nat) -> (Seq<Chamber>, u32, Option<(Chamber, bool, int, int)>)
    decreases fuel,
{
    if st.len() == 0 || fuel == 0 {
        (st, s, None)
    } else {
        let c = st.last();
        let rest = st.drop_last();
        if c.w < 2 && c.h < 2 {
            division_next(rest, s, (fuel - 1) as nat)
        } else {
            let (across, split, passage, s2) = split_choice(c, s);
            let st2 = rest + split_halves(c, across, split);
            if (across && c.w < 2) || (!across && c.h < 2) {
                division_next(st2, s2, (fuel - 1) as nat)
            } else {
                (st2, s2, Some((c, across, split, passage)))
            }
        }
    }
}

/// Cells `2j` and `2j + 1` of `s` are neighbours east or south of each other, and the wall
/// between them is in `before` but not in `after`.
pub open spec fn wall_pair_closed(s: Seq<Vec2i>, j: int, w: int, before: Set<int>, after: Set<int>) -> bool {
    let a = s[2 * j];
    let b = s[2 * j + 1];
    ||| b == step_toward(a, Dir::E) && before.contains(east_key(w, a.x as int, a.y as int))
        && !after.contains(east_key(w, a.x as int, a.y as int))
    ||| b == step_toward(a, Dir::S) && before.contains(south_key(w, a.x as int, a.y as int))
        && !after.contains(south_key(w, a.x as int, a.y as int))
}

/// `s` lists, two cells at a time, the sides of walls that were open in `before` and are
/// closed in `after`.
pub open spec fn closed_pairs(s: Seq<Vec2i>, w: int, before: Set<int>, after: Set<int>) -> bool {
    &&& s.len() % 2 == 0
    &&& forall|j: int| 0 <= j < s.len() / 2 ==> #[trigger] wall_pair_closed(s, j, w, before, after)
}

proof fn lemma_stack_push(s: Seq<Chamber>, c: Chamber)
    ensures
        stack_weight(s.push(c)) == stack_weight(s) + chamber_weight(c),
        stack_slack(s.push(c)) == stack_slack(s) + (c.w - 1) * (c.h - 1),
{
    assert(s.push(c).drop_last() =~= s);
}

proof fn lemma_stack_weight_nonneg(s: Seq<Chamber>, w: int, h: int)
    requires
        forall|i: int| 0 <= i < s.len() ==> chamber_ok(#[trigger] s[i], w, h),
    ensures
        stack_weight(s) >= 0,
    decreases s.len(),
{
    if s.len() > 0 {
        let c = s.last();
        assert(chamber_ok(s[s.len() - 1], w, h));
        assert(c.w * c.h >= 1) by (nonlinear_arith)
            requires
                c.w >= 1,
                c.h >= 1,
        ;
        lemma_stack_weight_nonneg(s.drop_last(), w, h);
    }
}

/// Going from the first `i` cells to the first `i + 1` adds the walls east and south of
/// cell `i` that lie inside the grid.
proof fn lemma_inside_keys_step(w: int, h: int, i: int)
    requires
        w >= 1,
        0 <= i < w * h,
        inside_keys(w, h, i).finite(),
    ensures
        inside_keys(w, h, i + 1).finite(),
        inside_keys(w, h, i + 1).len() == inside_keys(w, h, i).len() + (if i % w + 1 < w {
            1int
        } else {
            0int
        }) + (if i + w < w * h {
            1int
        } else {
            0int
        }),
{
    let a = inside_keys(w, h, i);
    let e = 2 * i;
    let s = 2 * i + 1;
    assert(e / 2 == i && e % 2 == 0);
    assert(s / 2 == i && s % 2 == 1);
    let b = if i % w + 1 < w {
        a.insert(e)
    } else {
        a
    };
    let c = if i + w < w * h {
        b.insert(s)
    } else {
        b
    };
    assert(!a.contains(e) && !a.contains(s));
    assert(!b.contains(s));
    assert(inside_keys(w, h, i + 1) =~= c);
}

/// The walls of the first `x` cells of row `r`, with all rows above, number `r * (2w - 1)`
/// plus one east wall per cell but the last of the row and one south wall per cell unless
/// the row is the bottom one.
proof fn lemma_inside_keys_in_row(w: int, h: int, r: int, x: int)
    requires
        w >= 1,
        0 <= r < h,
        0 <= x <= w,
        inside_keys(w, h, r * w).finite(),
        inside_keys(w, h, r * w).len() == r * (2 * w - 1),
    ensures
        inside_keys(w, h, r * w + x).finite(),
        inside_keys(w, h, r * w + x).len() == r * (2 * w - 1) + (if x < w {
            x
        } else {
            w - 1
        }) + (if r + 1 < h {
            x
        } else {
            0
        }),
    decreases x,
{
    if x > 0 {
        lemma_inside_keys_in_row(w, h, r, x - 1);
        let i = r * w + x - 1;
        lemma_index_coords(w, x - 1, r);
        lemma_index_bound(w, h, x - 1, r);
        assert(i + w < w * h <==> r + 1 < h) by (nonlinear_arith)
            requires
                i == r * w + x - 1,
                1 <= x <= w,
                0 <= r < h,
                w >= 1,
        ;
        lemma_inside_keys_step(w, h, i);
    }
}

proof fn lemma_inside_keys_rows(w: int, h: int, r: int)
    requires
        w >= 1,
        0 <= r < h,
    ensures
        inside_keys(w, h, r * w).finite(),
        inside_keys(w, h, r * w).len() == r * (2 * w - 1),
    decreases r,
{
    if r == 0 {
        assert(r * w == 0) by (nonlinear_arith)
            requires
                r == 0,
        ;
        assert(inside_keys(w, h, 0) =~= Set::<int>::empty());
    } else {
        lemma_inside_keys_rows(w, h, r - 1);
        lemma_inside_keys_in_row(w, h, r - 1, w);
        assert((r - 1) * w + w == r * w) by (nonlinear_arith);
        assert((r - 1) * (2 * w - 1) + (w - 1) + w == r * (2 * w - 1)) by (nonlinear_arith);
    }
}

/// A `w` by `h` grid has `2wh - w - h` walls between two of its cells.
proof fn lemma_inside_keys_all(w: int, h: int)
    requires
        w >= 1,
        h >= 1,
    ensures
        inside_keys(w, h, w * h).finite(),
        inside_keys(w, h, w * h).len() == 2 * (w * h) - w - h,
{
    lemma_inside_keys_rows(w, h, h - 1);
    lemma_inside_keys_in_row(w, h, h - 1, w);
    assert((h - 1) * w + w == w * h) by (nonlinear_arith);
    assert((h - 1) * (2 * w - 1) + (w - 1) == 2 * (w * h) - w - h) by (nonlinear_arith);
}

/// Cells `(x1, y1)` of chamber `a` and `(x2, y2)` of chamber `b`, apart from `a`, have
/// different indices.
proof fn lemma_apart_cells(a: Chamber, b: Chamber, w: int, x1: int, y1: int, x2: int, y2: int)
    requires
        chambers_apart(a, b),
        chamber_ok(a, w, a.y + a.h),
        chamber_ok(b, w, b.y + b.h),
        a.x <= x1 < a.x + a.w,
        a.y <= y1 < a.y + a.h,
        b.x <= x2 < b.x + b.w,
        b.y <= y2 < b.y + b.h,
    ensures
        y1 * w + x1 != y2 * w + x2,
{
    if y1 * w + x1 == y2 * w + x2 {
        lemma_index_injective(w, x1, y1, x2, y2);
    }
}

/// Replacing the last chamber of a settled stack by its two halves across a row wall, when
/// exactly that wall's passages were closed, leaves a settled stack with `c.w - 1` less
/// slack.
proof fn lemma_row_split(s0: Seq<Chamber>, w: int, h: int, split: int, passage: int, open0: Set<int>, open1: Set<int>)
    requires
        s0.len() >= 1,
        w <= usize::MAX,
        h <= usize::MAX,
        forall|i: int| 0 <= i < s0.len() ==> chamber_ok(#[trigger] s0[i], w, h),
        forall|i: int, j: int| 0 <= i < j < s0.len() ==> chambers_apart(s0[i], s0[j]),
        forall|i: int| 0 <= i < s0.len() ==> chamber_open(#[trigger] s0[i], w, open0),
        1 <= split < s0.last().h,
        s0.last().x <= passage < s0.last().x + s0.last().w,
        forall|k: int|
            #[trigger] open1.contains(k) <==> open0.contains(k) && !row_wall(
                s0.last(),
                split,
                passage,
                w,
                s0.last().x + s0.last().w,
                k,
            ),
    ensures
        ({
            let c = s0.last();
            let c1 = Chamber { x: c.x, y: c.y, w: c.w, h: split as usize };
            let c2 = Chamber { x: c.x, y: (c.y + split) as usize, w: c.w, h: (c.h - split) as usize };
            let s1 = s0.drop_last().push(c1).push(c2);
            &&& forall|i: int| 0 <= i < s1.len() ==> chamber_ok(#[trigger] s1[i], w, h)
            &&& forall|i: int, j: int| 0 <= i < j < s1.len() ==> chambers_apart(s1[i], s1[j])
            &&& forall|i: int| 0 <= i < s1.len() ==> chamber_open(#[trigger] s1[i], w, open1)
            &&& stack_slack(s1) + c.w - 1 == stack_slack(s0)
        }),
{
    let c = s0.last();
    let n = s0.len() - 1;
    assert(c == s0[n]);
    assert(chamber_ok(s0[n], w, h));
    let r = c.y + split - 1;
    let c1 = Chamber { x: c.x, y: c.y, w: c.w, h: split as usize };
    let c2 = Chamber { x: c.x, y: (c.y + split) as usize, w: c.w, h: (c.h - split) as usize };
    let rest = s0.drop_last();
    let s1 = rest.push(c1).push(c2);
    assert forall|i: int| 0 <= i < s1.len() implies chamber_open(#[trigger] s1[i], w, open1) by {
        let d = s1[i];
        if i == n {
            assert(d == c1);
        } else if i == n + 1 {
            assert(d == c2);
        }
        if i < n {
            assert(d == s0[i]);
            assert(chamber_open(s0[i], w, open0));
            assert(chambers_apart(s0[i], s0[n]));
            assert(chamber_ok(s0[i], w, h));
        }
        assert forall|x: int, y: int|
            d.x <= x && x + 1 < d.x + d.w && d.y <= y < d.y + d.h implies open1.contains(
            #[trigger] east_key(w, x, y),
        ) by {
            if i < n {
                assert(open0.contains(east_key(w, x, y)));
            } else {
                assert(chamber_open(s0[n], w, open0));
                assert(open0.contains(east_key(w, x, y)));
            }
            if row_wall(c, split, passage, w, c.x + c.w, east_key(w, x, y)) {
                let x2 = choose|x2: int|
                    c.x <= x2 < c.x + c.w && x2 != passage && east_key(w, x, y) == #[trigger] south_key(w, x2, r);
                assert(false);
            }
        }
        assert forall|x: int, y: int|
            d.x <= x < d.x + d.w && d.y <= y && y + 1 < d.y + d.h implies open1.contains(
            #[trigger] south_key(w, x, y),
        ) by {
            if i < n {
                assert(open0.contains(south_key(w, x, y)));
            } else {
                assert(chamber_open(s0[n], w, open0));
                assert(open0.contains(south_key(w, x, y)));
            }
            if row_wall(c, split, passage, w, c.x + c.w, south_key(w, x, y)) {
                let x2 = choose|x2: int|
                    c.x <= x2 < c.x + c.w && x2 != passage && south_key(w, x, y) == #[trigger] south_key(w, x2, r);
                assert(y * w + x == r * w + x2);
                if i < n {
                    lemma_apart_cells(s0[i], c, w, x, y, x2, r);
                } else {
                    lemma_index_injective(w, x, y, x2, r);
                }
            }
        }
    }
    assert forall|i: int, j: int| 0 <= i < j < s1.len() implies chambers_apart(s1[i], s1[j]) by {
        if j < n {
            assert(s1[i] == s0[i] && s1[j] == s0[j]);
        } else if i < n {
            assert(s1[i] == s0[i]);
            assert(chambers_apart(s0[i], s0[n]));
        }
    }
    assert forall|i: int| 0 <= i < s1.len() implies chamber_ok(#[trigger] s1[i], w, h) by {
        if i < n {
            assert(s1[i] == s0[i]);
        }
    }
    lemma_stack_push(rest, c1);
    lemma_stack_push(rest.push(c1), c2);
    lemma_stack_push(rest, c);
    assert(s0 =~= rest.push(c));
    assert((c.w - 1) * (split - 1) + (c.w - 1) * (c.h - split - 1) + c.w - 1 == (c.w - 1) * (c.h
        - 1)) by (nonlinear_arith);
}

/// The same across a column wall, with `c.h - 1` less slack.
proof fn lemma_column_split(s0: Seq<Chamber>, w: int, h: int, split: int, passage: int, open0: Set<int>, open1: Set<int>)
    requires
        s0.len() >= 1,
        w <= usize::MAX,
        h <= usize::MAX,
        forall|i: int| 0 <= i < s0.len() ==> chamber_ok(#[trigger] s0[i], w, h),
        forall|i: int, j: int| 0 <= i < j < s0.len() ==> chambers_apart(s0[i], s0[j]),
        forall|i: int| 0 <= i < s0.len() ==> chamber_open(#[trigger] s0[i], w, open0),
        1 <= split < s0.last().w,
        s0.last().y <= passage < s0.last().y + s0.last().h,
        forall|k: int|
            #[trigger] open1.contains(k) <==> open0.contains(k) && !column_wall(
                s0.last(),
                split,
                passage,
                w,
                s0.last().y + s0.last().h,
                k,
            ),
    ensures
        ({
            let c = s0.last();
            let c1 = Chamber { x: c.x, y: c.y, w: split as usize, h: c.h };
            let c2 = Chamber { x: (c.x + split) as usize, y: c.y, w: (c.w - split) as usize, h: c.h };
            let s1 = s0.drop_last().push(c1).push(c2);
            &&& forall|i: int| 0 <= i < s1.len() ==> chamber_ok(#[trigger] s1[i], w, h)
            &&& forall|i: int, j: int| 0 <= i < j < s1.len() ==> chambers_apart(s1[i], s1[j])
            &&& forall|i: int| 0 <= i < s1.len() ==> chamber_open(#[trigger] s1[i], w, open1)
            &&& stack_slack(s1) + c.h - 1 == stack_slack(s0)
        }),
{
    let c = s0.last();
    let n = s0.len() - 1;
    assert(c == s0[n]);
    assert(chamber_ok(s0[n], w, h));
    let col = c.x + split - 1;
    let c1 = Chamber { x: c.x, y: c.y, w: split as usize, h: c.h };
    let c2 = Chamber { x: (c.x + split) as usize, y: c.y, w: (c.w - split) as usize, h: c.h };
    let rest = s0.drop_last();
    let s1 = rest.push(c1).push(c2);
    assert forall|i: int| 0 <= i < s1.len() implies chamber_open(#[trigger] s1[i], w, open1) by {
        let d = s1[i];
        if i == n {
            assert(d == c1);
        } else if i == n + 1 {
            assert(d == c2);
        }
        if i < n {
            assert(d == s0[i]);
            assert(chamber_open(s0[i], w, open0));
            assert(chambers_apart(s0[i], s0[n]));
            assert(chamber_ok(s0[i], w, h));
        }
        assert forall|x: int, y: int|
            d.x <= x && x + 1 < d.x + d.w && d.y <= y < d.y + d.h implies open1.contains(
            #[trigger] east_key(w, x, y),
        ) by {
            if i < n {
                assert(open0.contains(east_key(w, x, y)));
            } else {
                assert(chamber_open(s0[n], w, open0));
                assert(open0.contains(east_key(w, x, y)));
            }
            if column_wall(c, split, passage, w, c.y + c.h, east_key(w, x, y)) {
                let y2 = choose|y2: int|
                    c.y <= y2 < c.y + c.h && y2 != passage && east_key(w, x, y) == #[trigger] east_key(w, col, y2);
                assert(y * w + x == y2 * w + col);
                if i < n {
                    lemma_apart_cells(s0[i], c, w, x, y, col, y2);
                } else {
                    lemma_index_injective(w, x, y, col, y2);
                }
            }
        }
        assert forall|x: int, y: int|
            d.x <= x < d.x + d.w && d.y <= y && y + 1 < d.y + d.h implies open1.contains(
            #[trigger] south_key(w, x, y),
        ) by {
            if i < n {
                assert(open0.contains(south_key(w, x, y)));
            } else {
                assert(chamber_open(s0[n], w, open0));
                assert(open0.contains(south_key(w, x, y)));
            }
            if column_wall(c, split, passage, w, c.y + c.h, south_key(w, x, y)) {
                let y2 = choose|y2: int|
                    c.y <= y2 < c.y + c.h && y2 != passage && south_key(w, x, y) == #[trigger] east_key(w, col, y2);
                assert(false);
            }
        }
    }
    assert forall|i: int, j: int| 0 <= i < j < s1.len() implies chambers_apart(s1[i], s1[j]) by {
        if j < n {
            assert(s1[i] == s0[i] && s1[j] == s0[j]);
        } else if i < n {
            assert(s1[i] == s0[i]);
            assert(chambers_apart(s0[i], s0[n]));
        }
    }
    assert forall|i: int| 0 <= i < s1.len() implies chamber_ok(#[trigger] s1[i], w, h) by {
        if i < n {
            assert(s1[i] == s0[i]);
        }
    }
    lemma_stack_push(rest, c1);
    lemma_stack_push(rest.push(c1), c2);
    lemma_stack_push(rest, c);
    assert(s0 =~= rest.push(c));
    assert((split - 1) * (c.h - 1) + (c.w - split - 1) * (c.h - 1) + c.h - 1 == (c.w - 1) * (c.h
        - 1)) by (nonlinear_arith);
}

/// Along row `y`, from column `a` to column `b`, every east wall open: the two ends are
/// joined both ways.
proof fn lemma_row_path(m: Maze, y: int, a: int, b: int)
    requires
        m.dims_ok(),
        0 <= y < m.h,
        0 <= a <= b < m.w,
        forall|x: int| a <= x < b ==> m.open_edges().contains(#[trigger] east_key(m.w as int, x, y)),
    ensures
        joined(m, cell_of(a, y), cell_of(b, y)),
        joined(m, cell_of(b, y), cell_of(a, y)),
    decreases b - a,
{
    if a == b {
        assert(walk(m, cell_of(a, y), cell_of(b, y), 0));
    } else {
        lemma_row_path(m, y, a, b - 1);
        let c = cell_of(b - 1, y);
        assert(step_toward(c, Dir::E) == cell_of(b, y));
        assert(m.edge_key(c, Dir::E) == east_key(m.w as int, b - 1, y));
        lemma_joined_step(m, c, Dir::E);
        lemma_joined_transitive(m, cell_of(a, y), c, cell_of(b, y));
        lemma_joined_transitive(m, cell_of(b, y), c, cell_of(a, y));
    }
}

/// Down column `x`, from row `a` to row `b`, every south wall open: the two ends are
/// joined both ways.
proof fn lemma_column_path(m: Maze, x: int, a: int, b: int)
    requires
        m.dims_ok(),
        0 <= x < m.w,
        0 <= a <= b < m.h,
        forall|y: int| a <= y < b ==> m.open_edges().contains(#[trigger] south_key(m.w as int, x, y)),
    ensures
        joined(m, cell_of(x, a), cell_of(x, b)),
        joined(m, cell_of(x, b), cell_of(x, a)),
    decreases b - a,
{
    if a == b {
        assert(walk(m, cell_of(x, a), cell_of(x, b), 0));
    } else {
        lemma_column_path(m, x, a, b - 1);
        let c = cell_of(x, b - 1);
        assert(step_toward(c, Dir::S) == cell_of(x, b));
        assert(m.edge_key(c, Dir::S) == south_key(m.w as int, x, b - 1));
        lemma_joined_step(m, c, Dir::S);
        lemma_joined_transitive(m, cell_of(x, a), c, cell_of(x, b));
        lemma_joined_transitive(m, cell_of(x, b), c, cell_of(x, a));
    }
}

/// Within an open chamber, any two of its cells are joined (along a row, then a column).
proof fn lemma_chamber_joined(m: Maze, c: Chamber, p: Vec2i, q: Vec2i)
    requires
        m.dims_ok(),
        chamber_ok(c, m.w as int, m.h as int),
        chamber_open(c, m.w as int, m.open_edges()),
        c.x <= p.x < c.x + c.w,
        c.y <= p.y < c.y + c.h,
        c.x <= q.x < c.x + c.w,
        c.y <= q.y < c.y + c.h,
    ensures
        joined(m, p, q),
{
    let w = m.w as int;
    let px = p.x as int;
    let py = p.y as int;
    let qx = q.x as int;
    let qy = q.y as int;
    let corner = cell_of(qx, py);
    assert(p == cell_of(px, py));
    assert(q == cell_of(qx, qy));
    let lo_x = if px <= qx { px } else { qx };
    let hi_x = if px <= qx { qx } else { px };
    let lo_y = if py <= qy { py } else { qy };
    let hi_y = if py <= qy { qy } else { py };
    assert forall|x: int| lo_x <= x < hi_x implies m.open_edges().contains(#[trigger] east_key(w, x, py)) by {}
    assert forall|y: int| lo_y <= y < hi_y implies m.open_edges().contains(#[trigger] south_key(w, qx, y)) by {}
    lemma_row_path(m, py, lo_x, hi_x);
    lemma_column_path(m, qx, lo_y, hi_y);
    lemma_joined_transitive(m, p, corner, q);
}

/// A removed wall of a row split is bridged: its two sides stay joined through the gap.
proof fn lemma_row_detour(m1: Maze, c: Chamber, split: int, passage: int, x: int)
    requires
        m1.dims_ok(),
        chamber_ok(c, m1.w as int, m1.h as int),
        1 <= split < c.h,
        c.x <= passage < c.x + c.w,
        c.x <= x < c.x + c.w,
        forall|xx: int|
            c.x <= xx && xx + 1 < c.x + c.w ==> m1.open_edges().contains(
                #[trigger] east_key(m1.w as int, xx, c.y + split - 1),
            ) && m1.open_edges().contains(east_key(m1.w as int, xx, c.y + split)),
        m1.open_edges().contains(south_key(m1.w as int, passage, c.y + split - 1)),
    ensures
        joined(m1, cell_of(x, c.y + split - 1), cell_of(x, c.y + split)),
        joined(m1, cell_of(x, c.y + split), cell_of(x, c.y + split - 1)),
{
    let w = m1.w as int;
    let r = c.y + split - 1;
    let lo = if x <= passage { x } else { passage };
    let hi = if x <= passage { passage } else { x };
    assert forall|xx: int| lo <= xx < hi implies m1.open_edges().contains(#[trigger] east_key(w, xx, r)) by {}
    lemma_row_path(m1, r, lo, hi);
    assert forall|xx: int| lo <= xx < hi implies m1.open_edges().contains(#[trigger] east_key(w, xx, r + 1)) by {
        assert(m1.open_edges().contains(east_key(w, xx, r)));
    }
    lemma_row_path(m1, r + 1, lo, hi);
    let gap = cell_of(passage, r);
    assert(step_toward(gap, Dir::S) == cell_of(passage, r + 1));
    assert(m1.edge_key(gap, Dir::S) == south_key(w, passage, r));
    lemma_joined_step(m1, gap, Dir::S);
    lemma_joined_transitive(m1, cell_of(x, r), gap, cell_of(passage, r + 1));
    lemma_joined_transitive(m1, cell_of(x, r), cell_of(passage, r + 1), cell_of(x, r + 1));
    lemma_joined_transitive(m1, cell_of(x, r + 1), cell_of(passage, r + 1), gap);
    lemma_joined_transitive(m1, cell_of(x, r + 1), gap, cell_of(x, r));
}

/// A removed wall of a column split is bridged the same way.
proof fn lemma_column_detour(m1: Maze, c: Chamber, split: int, passage: int, y: int)
    requires
        m1.dims_ok(),
        chamber_ok(c, m1.w as int, m1.h as int),
        1 <= split < c.w,
        c.y <= passage < c.y + c.h,
        c.y <= y < c.y + c.h,
        forall|yy: int|
            c.y <= yy && yy + 1 < c.y + c.h ==> m1.open_edges().contains(
                #[trigger] south_key(m1.w as int, c.x + split - 1, yy),
            ) && m1.open_edges().contains(south_key(m1.w as int, c.x + split, yy)),
        m1.open_edges().contains(east_key(m1.w as int, c.x + split - 1, passage)),
    ensures
        joined(m1, cell_of(c.x + split - 1, y), cell_of(c.x + split, y)),
        joined(m1, cell_of(c.x + split, y), cell_of(c.x + split - 1, y)),
{
    let w = m1.w as int;
    let col = c.x + split - 1;
    let lo = if y <= passage { y } else { passage };
    let hi = if y <= passage { passage } else { y };
    assert forall|yy: int| lo <= yy < hi implies m1.open_edges().contains(#[trigger] south_key(w, col, yy)) by {}
    lemma_column_path(m1, col, lo, hi);
    assert forall|yy: int| lo <= yy < hi implies m1.open_edges().contains(#[trigger] south_key(w, col + 1, yy)) by {
        assert(m1.open_edges().contains(south_key(w, col, yy)));
    }
    lemma_column_path(m1, col + 1, lo, hi);
    let gap = cell_of(col, passage);
    assert(step_toward(gap, Dir::E) == cell_of(col + 1, passage));
    assert(m1.edge_key(gap, Dir::E) == east_key(w, col, passage));
    lemma_joined_step(m1, gap, Dir::E);
    lemma_joined_transitive(m1, cell_of(col, y), gap, cell_of(col + 1, passage));
    lemma_joined_transitive(m1, cell_of(col, y), cell_of(col + 1, passage), cell_of(col + 1, y));
    lemma_joined_transitive(m1, cell_of(col + 1, y), cell_of(col + 1, passage), gap);
    lemma_joined_transitive(m1, cell_of(col + 1, y), gap, cell_of(col, y));
}

/// A walk of `m0` stays a connection in `m1` when every passage of `m0` is bridged in `m1`.
proof fn lemma_walk_bridged(m0: Maze, m1: Maze, p: Vec2i, q: Vec2i, n: nat)
    requires
        walk(m0, p, q, n),
        forall|a: Vec2i, d: Dir|
            #![trigger step_toward(a, d)]
            m0.contains(a) && m0.contains(step_toward(a, d)) && m0.open_edges().contains(
                m0.edge_key(a, d),
            ) ==> joined(m1, a, step_toward(a, d)),
        m0.contains(p),
    ensures
        joined(m1, p, q),
    decreases n,
{
    if p == q {
        assert(walk(m1, p, q, 0));
    } else {
        let e = choose|e: Dir|
            #![trigger step_toward(p, e)]
            m0.contains(step_toward(p, e)) && m0.open_edges().contains(m0.edge_key(p, e)) && walk(
                m0,
                step_toward(p, e),
                q,
                (n - 1) as nat,
            );
        let p1 = step_toward(p, e);
        assert(joined(m1, p, p1));
        lemma_walk_bridged(m0, m1, p1, q, (n - 1) as nat);
        lemma_joined_transitive(m1, p, p1, q);
    }
}

/// A connected grid stays connected when every passage closed is bridged.
proof fn lemma_grid_joined_bridged(m0: Maze, m1: Maze)
    requires
        grid_joined(m0),
        m1.w == m0.w,
        m1.h == m0.h,
        forall|a: Vec2i, d: Dir|
            #![trigger step_toward(a, d)]
            m0.contains(a) && m0.contains(step_toward(a, d)) && m0.open_edges().contains(
                m0.edge_key(a, d),
            ) ==> joined(m1, a, step_toward(a, d)),
    ensures
        grid_joined(m1),
{
    reveal(grid_joined);
    assert forall|p: Vec2i, q: Vec2i| m1.contains(p) && m1.contains(q) implies #[trigger] joined(
        m1,
        p,
        q,
    ) by {
        assert(joined(m0, p, q));
        let n = choose|n: nat| walk(m0, p, q, n);
        lemma_walk_bridged(m0, m1, p, q, n);
    }
}

/// Splitting a chamber across a row keeps the grid connected.
proof fn lemma_row_split_joined(m0: Maze, m1: Maze, c: Chamber, split: int, passage: int)
    requires
        m0.wf(),
        m1.dims_ok(),
        m1.w == m0.w,
        m1.h == m0.h,
        chamber_ok(c, m0.w as int, m0.h as int),
        1 <= split < c.h,
        c.x <= passage < c.x + c.w,
        chamber_open(c, m0.w as int, m0.open_edges()),
        forall|k: int|
            #[trigger] m1.open_edges().contains(k) <==> m0.open_edges().contains(k) && !row_wall(
                c,
                split,
                passage,
                m0.w as int,
                c.x + c.w,
                k,
            ),
        grid_joined(m0),
    ensures
        grid_joined(m1),
{
    let w = m0.w as int;
    let r = c.y + split - 1;
    assert forall|xx: int|
        c.x <= xx && xx + 1 < c.x + c.w implies m1.open_edges().contains(#[trigger] east_key(w, xx, r))
        && m1.open_edges().contains(east_key(w, xx, r + 1)) by {
        assert(m0.open_edges().contains(east_key(w, xx, r)));
        assert(m0.open_edges().contains(east_key(w, xx, r + 1)));
        if row_wall(c, split, passage, w, c.x + c.w, east_key(w, xx, r)) {
            let x2 = choose|x2: int| c.x <= x2 < c.x + c.w && x2 != passage && east_key(w, xx, r) == #[trigger] south_key(w, x2, r);
        }
        if row_wall(c, split, passage, w, c.x + c.w, east_key(w, xx, r + 1)) {
            let x2 = choose|x2: int| c.x <= x2 < c.x + c.w && x2 != passage && east_key(w, xx, r + 1) == #[trigger] south_key(w, x2, r);
        }
    }
    assert(m1.open_edges().contains(south_key(w, passage, r))) by {
        assert(m0.open_edges().contains(south_key(w, passage, r)));
        if row_wall(c, split, passage, w, c.x + c.w, south_key(w, passage, r)) {
            let x2 = choose|x2: int| c.x <= x2 < c.x + c.w && x2 != passage && south_key(w, passage, r) == #[trigger] south_key(w, x2, r);
        }
    }
    assert forall|a: Vec2i, d: Dir|
        #![trigger step_toward(a, d)]
        m0.contains(a) && m0.contains(step_toward(a, d)) && m0.open_edges().contains(m0.edge_key(a, d))
            implies joined(m1, a, step_toward(a, d)) by {
        let b = step_toward(a, d);
        let k = m0.edge_key(a, d);
        m0.lemma_contains_coords_ok(a);
        m0.lemma_contains_coords_ok(b);
        if m1.open_edges().contains(k) {
            assert(m1.edge_key(a, d) == k);
            lemma_joined_step(m1, a, d);
        } else {
            let x2 = choose|x2: int| c.x <= x2 < c.x + c.w && x2 != passage && k == #[trigger] south_key(w, x2, r);
            m0.lemma_edge_key(a, d);
            assert(m0.key_ends(k) == (r * w + x2, r * w + x2 + w));
            assert(r * w + x2 + w == (r + 1) * w + x2) by (nonlinear_arith);
            lemma_index_bound(w, m0.h as int, x2, r + 1);
            lemma_row_detour(m1, c, split, passage, x2);
            if m0.index_of(a) == r * w + x2 {
                lemma_index_injective(w, a.x as int, a.y as int, x2, r);
                lemma_index_injective(w, b.x as int, b.y as int, x2, r + 1);
                assert(a == cell_of(x2, r) && b == cell_of(x2, r + 1));
            } else {
                lemma_index_injective(w, a.x as int, a.y as int, x2, r + 1);
                lemma_index_injective(w, b.x as int, b.y as int, x2, r);
                assert(a == cell_of(x2, r + 1) && b == cell_of(x2, r));
            }
        }
    }
    lemma_grid_joined_bridged(m0, m1);
}

/// Splitting a chamber across a column keeps the grid connected.
proof fn lemma_column_split_joined(m0: Maze, m1: Maze, c: Chamber, split: int, passage: int)
    requires
        m0.wf(),
        m1.dims_ok(),
        m1.w == m0.w,
        m1.h == m0.h,
        chamber_ok(c, m0.w as int, m0.h as int),
        1 <= split < c.w,
        c.y <= passage < c.y + c.h,
        chamber_open(c, m0.w as int, m0.open_edges()),
        forall|k: int|
            #[trigger] m1.open_edges().contains(k) <==> m0.open_edges().contains(k) && !column_wall(
                c,
                split,
                passage,
                m0.w as int,
                c.y + c.h,
                k,
            ),
        grid_joined(m0),
    ensures
        grid_joined(m1),
{
    let w = m0.w as int;
    let col = c.x + split - 1;
    assert forall|yy: int|
        c.y <= yy && yy + 1 < c.y + c.h implies m1.open_edges().contains(#[trigger] south_key(w, col, yy))
        && m1.open_edges().contains(south_key(w, col + 1, yy)) by {
        assert(m0.open_edges().contains(south_key(w, col, yy)));
        assert(m0.open_edges().contains(south_key(w, col + 1, yy)));
        if column_wall(c, split, passage, w, c.y + c.h, south_key(w, col, yy)) {
            let y2 = choose|y2: int| c.y <= y2 < c.y + c.h && y2 != passage && south_key(w, col, yy) == #[trigger] east_key(w, col, y2);
        }
        if column_wall(c, split, passage, w, c.y + c.h, south_key(w, col + 1, yy)) {
            let y2 = choose|y2: int| c.y <= y2 < c.y + c.h && y2 != passage && south_key(w, col + 1, yy) == #[trigger] east_key(w, col, y2);
        }
    }
    assert(m1.open_edges().contains(east_key(w, col, passage))) by {
        assert(m0.open_edges().contains(east_key(w, col, passage)));
        if column_wall(c, split, passage, w, c.y + c.h, east_key(w, col, passage)) {
            let y2 = choose|y2: int| c.y <= y2 < c.y + c.h && y2 != passage && east_key(w, col, passage) == #[trigger] east_key(w, col, y2);
            lemma_index_injective(w, col, passage, col, y2);
        }
    }
    assert forall|a: Vec2i, d: Dir|
        #![trigger step_toward(a, d)]
        m0.contains(a) && m0.contains(step_toward(a, d)) && m0.open_edges().contains(m0.edge_key(a, d))
            implies joined(m1, a, step_toward(a, d)) by {
        let b = step_toward(a, d);
        let k = m0.edge_key(a, d);
        m0.lemma_contains_coords_ok(a);
        m0.lemma_contains_coords_ok(b);
        if m1.open_edges().contains(k) {
            assert(m1.edge_key(a, d) == k);
            lemma_joined_step(m1, a, d);
        } else {
            let y2 = choose|y2: int| c.y <= y2 < c.y + c.h && y2 != passage && k == #[trigger] east_key(w, col, y2);
            m0.lemma_edge_key(a, d);
            assert(m0.key_ends(k) == (y2 * w + col, y2 * w + col + 1));
            lemma_column_detour(m1, c, split, passage, y2);
            if m0.index_of(a) == y2 * w + col {
                lemma_index_injective(w, a.x as int, a.y as int, col, y2);
                lemma_index_injective(w, b.x as int, b.y as int, col + 1, y2);
                assert(a == cell_of(col, y2) && b == cell_of(col + 1, y2));
            } else {
                lemma_index_injective(w, a.x as int, a.y as int, col + 1, y2);
                lemma_index_injective(w, b.x as int, b.y as int, col, y2);
                assert(a == cell_of(col + 1, y2) && b == cell_of(col, y2));
            }
        }
    }
    lemma_grid_joined_bridged(m0, m1);
}

/// Builds the wall below row `c.y + split - 1` of chamber `c`, but for its cell in column
/// `passage`, and returns the two cells beside each wall built, west to east.
fn build_row_wall(maze: &mut Maze, c: Chamber, split: usize, passage: usize) -> (updated: Vec<Vec2i>)
    requires
        old(maze).wf(),
        chamber_ok(c, old(maze).w as int, old(maze).h as int),
        1 <= split < c.h,
        c.x <= passage < c.x + c.w,
        chamber_open(c, old(maze).w as int, old(maze).open_edges()),
    ensures
        outer_walls_same(*old(maze), *final(maze)),
        final(maze).wf(),
        final(maze).w == old(maze).w,
        final(maze).h == old(maze).h,
        forall|k: int|
            #[trigger] final(maze).open_edges().contains(k) <==> old(maze).open_edges().contains(k)
                && !row_wall(c, split as int, passage as int, old(maze).w as int, c.x + c.w, k),
        final(maze).open_edges().len() + c.w - 1 == old(maze).open_edges().len(),
        updated@.len() == 2 * (c.w - 1),
        updated@.len() == 0 ==> final(maze).grid@ == old(maze).grid@,
        closed_pairs(updated@, old(maze).w as int, old(maze).open_edges(), final(maze).open_edges()),
{
    let ghost w = maze.w as int;
    let ghost open0 = maze.open_edges();
    let ghost r = c.y + split - 1;
    proof {
        maze.lemma_open_edges_finite();
    }
    let mut updated: Vec<Vec2i> = Vec::new();
    let mut x = c.x;
    while x < c.x + c.w
        invariant
            outer_walls_same(*old(maze), *maze),
            maze.wf(),
            maze.w == old(maze).w,
            maze.h == old(maze).h,
            w == maze.w,
            open0 == old(maze).open_edges(),
            open0.finite(),
            chamber_ok(c, w, maze.h as int),
            chamber_open(c, w, open0),
            1 <= split < c.h,
            r == c.y + split - 1,
            c.x <= passage < c.x + c.w,
            c.x <= x <= c.x + c.w,
            forall|k: int|
                #[trigger] maze.open_edges().contains(k) <==> open0.contains(k) && !row_wall(
                    c,
                    split as int,
                    passage as int,
                    w,
                    x as int,
                    k,
                ),
            maze.open_edges().finite(),
            maze.open_edges().len() + x - c.x - (if passage < x {
                1int
            } else {
                0int
            }) == open0.len(),
            updated@.len() == 2 * (x - c.x - (if passage < x {
                1int
            } else {
                0int
            })),
            updated@.len() == 0 ==> maze.grid@ == old(maze).grid@,
            forall|j: int|
                0 <= j < updated@.len() / 2 ==> #[trigger] wall_pair_closed(
                    updated@,
                    j,
                    w,
                    open0,
                    maze.open_edges(),
                ),
        decreases c.x + c.w - x,
    {
        let ghost m0 = *maze;
        if x != passage {
            let above = Vec2i { x: x as i32, y: (c.y + split - 1) as i32 };
            proof {
                maze.lemma_contains_coords_ok(above);
            }
            maze.build(above, Dir::S);
            let ghost u0 = updated@;
            updated.push(above);
            updated.push(Vec2i { x: x as i32, y: (c.y + split) as i32 });
            proof {
                let k0 = south_key(w, x as int, r);
                assert forall|j: int| 0 <= j < updated@.len() / 2 implies #[trigger] wall_pair_closed(
                    updated@,
                    j,
                    w,
                    open0,
                    maze.open_edges(),
                ) by {
                    if j < u0.len() / 2 {
                        assert(wall_pair_closed(u0, j, w, open0, m0.open_edges()));
                        assert(updated@[2 * j] == u0[2 * j]);
                        assert(updated@[2 * j + 1] == u0[2 * j + 1]);
                    } else {
                        assert(j == u0.len() / 2);
                        assert(updated@[2 * j] == above);
                    }
                }
                assert(m0.edge_key(above, Dir::S) == k0);
                assert(open0.contains(k0));
                assert(!row_wall(c, split as int, passage as int, w, x as int, k0));
                assert(m0.open_edges().contains(k0));
                assert(maze.open_edges() == m0.open_edges().remove(k0));
                assert forall|k: int| #[trigger] maze.open_edges().contains(k) <==> open0.contains(k)
                    && !row_wall(c, split as int, passage as int, w, x + 1, k) by {
                    if k == k0 {
                        assert(row_wall(c, split as int, passage as int, w, x + 1, k));
                    } else if row_wall(c, split as int, passage as int, w, x + 1, k) {
                        let x2 = choose|x2: int|
                            c.x <= x2 < x + 1 && x2 != passage && k == #[trigger] south_key(w, x2, r);
                        assert(x2 != x);
                        assert(row_wall(c, split as int, passage as int, w, x as int, k));
                    }
                }
            }
        } else {
            proof {
                assert forall|k: int| #[trigger] maze.open_edges().contains(k) <==> open0.contains(k)
                    && !row_wall(c, split as int, passage as int, w, x + 1, k) by {
                    if row_wall(c, split as int, passage as int, w, x + 1, k) {
                        let x2 = choose|x2: int|
                            c.x <= x2 < x + 1 && x2 != passage && k == #[trigger] south_key(w, x2, r);
                        assert(row_wall(c, split as int, passage as int, w, x as int, k));
                    }
                }
            }
        }
        x = x + 1;
    }
    updated
}

/// Builds the wall east of column `c.x + split - 1` of chamber `c`, but for its cell in row
/// `passage`, and returns the two cells beside each wall built, north to south.
fn build_column_wall(maze: &mut Maze, c: Chamber, split: usize, passage: usize) -> (updated: Vec<Vec2i>)
    requires
        old(maze).wf(),
        chamber_ok(c, old(maze).w as int, old(maze).h as int),
        1 <= split < c.w,
        c.y <= passage < c.y + c.h,
        chamber_open(c, old(maze).w as int, old(maze).open_edges()),
    ensures
        outer_walls_same(*old(maze), *final(maze)),
        final(maze).wf(),
        final(maze).w == old(maze).w,
        final(maze).h == old(maze).h,
        forall|k: int|
            #[trigger] final(maze).open_edges().contains(k) <==> old(maze).open_edges().contains(k)
                && !column_wall(c, split as int, passage as int, old(maze).w as int, c.y + c.h, k),
        final(maze).open_edges().len() + c.h - 1 == old(maze).open_edges().len(),
        updated@.len() == 2 * (c.h - 1),
        updated@.len() == 0 ==> final(maze).grid@ == old(maze).grid@,
        closed_pairs(updated@, old(maze).w as int, old(maze).open_edges(), final(maze).open_edges()),
{
    let ghost w = maze.w as int;
    let ghost open0 = maze.open_edges();
    let ghost col = c.x + split - 1;
    proof {
        maze.lemma_open_edges_finite();
    }
    let mut updated: Vec<Vec2i> = Vec::new();
    let mut y = c.y;
    while y < c.y + c.h
        invariant
            outer_walls_same(*old(maze), *maze),
            maze.wf(),
            maze.w == old(maze).w,
            maze.h == old(maze).h,
            w == maze.w,
            open0 == old(maze).open_edges(),
            open0.finite(),
            chamber_ok(c, w, maze.h as int),
            chamber_open(c, w, open0),
            1 <= split < c.w,
            col == c.x + split - 1,
            c.y <= passage < c.y + c.h,
            c.y <= y <= c.y + c.h,
            forall|k: int|
                #[trigger] maze.open_edges().contains(k) <==> open0.contains(k) && !column_wall(
                    c,
                    split as int,
                    passage as int,
                    w,
                    y as int,
                    k,
                ),
            maze.open_edges().finite(),
            maze.open_edges().len() + y - c.y - (if passage < y {
                1int
            } else {
                0int
            }) == open0.len(),
            updated@.len() == 2 * (y - c.y - (if passage < y {
                1int
            } else {
                0int
            })),
            updated@.len() == 0 ==> maze.grid@ == old(maze).grid@,
            forall|j: int|
                0 <= j < updated@.len() / 2 ==> #[trigger] wall_pair_closed(
                    updated@,
                    j,
                    w,
                    open0,
                    maze.open_edges(),
                ),
        decreases c.y + c.h - y,
    {
        let ghost m0 = *maze;
        if y != passage {
            let left = Vec2i { x: (c.x + split - 1) as i32, y: y as i32 };
            proof {
                maze.lemma_contains_coords_ok(left);
            }
            maze.build(left, Dir::E);
            let ghost u0 = updated@;
            updated.push(left);
            updated.push(Vec2i { x: (c.x + split) as i32, y: y as i32 });
            proof {
                let k0 = east_key(w, col, y as int);
                assert forall|j: int| 0 <= j < updated@.len() / 2 implies #[trigger] wall_pair_closed(
                    updated@,
                    j,
                    w,
                    open0,
                    maze.open_edges(),
                ) by {
                    if j < u0.len() / 2 {
                        assert(wall_pair_closed(u0, j, w, open0, m0.open_edges()));
                        assert(updated@[2 * j] == u0[2 * j]);
                        assert(updated@[2 * j + 1] == u0[2 * j + 1]);
                    } else {
                        assert(j == u0.len() / 2);
                        assert(updated@[2 * j] == left);
                    }
                }
                assert(m0.edge_key(left, Dir::E) == k0);
                assert(open0.contains(k0));
                assert(!column_wall(c, split as int, passage as int, w, y as int, k0)) by {
                    if column_wall(c, split as int, passage as int, w, y as int, k0) {
                        let y2 = choose|y2: int|
                            c.y <= y2 < y && y2 != passage && k0 == #[trigger] east_key(w, col, y2);
                        lemma_index_injective(w, col, y as int, col, y2);
                    }
                }
                assert(m0.open_edges().contains(k0));
                assert(maze.open_edges() == m0.open_edges().remove(k0));
                assert forall|k: int| #[trigger] maze.open_edges().contains(k) <==> open0.contains(k)
                    && !column_wall(c, split as int, passage as int, w, y + 1, k) by {
                    if k == k0 {
                        assert(column_wall(c, split as int, passage as int, w, y + 1, k));
                    } else if column_wall(c, split as int, passage as int, w, y + 1, k) {
                        let y2 = choose|y2: int|
                            c.y <= y2 < y + 1 && y2 != passage && k == #[trigger] east_key(w, col, y2);
                        assert(y2 != y);
                        assert(column_wall(c, split as int, passage as int, w, y as int, k));
                    }
                }
            }
        } else {
            proof {
                assert forall|k: int| #[trigger] maze.open_edges().contains(k) <==> open0.contains(k)
                    && !column_wall(c, split as int, passage as int, w, y + 1, k) by {
                    if column_wall(c, split as int, passage as int, w, y + 1, k) {
                        let y2 = choose|y2: int|
                            c.y <= y2 < y + 1 && y2 != passage && k == #[trigger] east_key(w, col, y2);
                        assert(column_wall(c, split as int, passage as int, w, y as int, k));
                    }
                }
            }
        }
        y = y + 1;
    }
    updated
}

impl RecursiveDivision {
    pub closed spec fn chambers(&self) -> Seq<Chamber> {
        self.stack@
    }

    pub closed spec fn seed_state(&self) -> u32 {
        self.seed
    }

    /// Whether the first step, which opens every wall, has been made.
    pub closed spec fn opened(&self) -> bool {
        self.initialized
    }

    /// A builder that has not yet opened the grid and holds the whole grid as one chamber.
    /// The width of the grid.
    pub closed spec fn grid_width(&self) -> int {
        self.w as int
    }

    /// The height of the grid.
    pub closed spec fn grid_height(&self) -> int {
        self.h as int
    }

    pub open spec fn fresh(&self, maze: &Maze) -> bool {
        &&& self.chambers() == seq![Chamber { x: 0, y: 0, w: maze.w, h: maze.h }]
        &&& !self.opened()
        &&& self.grid_width() == maze.w
        &&& self.grid_height() == maze.h
        &&& !self.is_done()
    }

    /// Seeds the builder from the clock.
    pub fn new(maze: &Maze) -> (r: Self)
        requires
            maze.wf(),
            maze.w >= 1,
            maze.h >= 1,
        ensures
            r.fresh(maze),
            r.inv(maze),
    {
        Self::new_with_seed(maze, time_seed())
    }

    pub fn new_with_seed(maze: &Maze, seed: u32) -> (r: Self)
        requires
            maze.wf(),
            maze.w >= 1,
            maze.h >= 1,
        ensures
            r.fresh(maze),
            r.seed_state() == seed,
            r.inv(maze),
    {
        let r = Self {
            stack: vec![Chamber { x: 0, y: 0, w: maze.w, h: maze.h }],
            initialized: false,
            seed,
            w: maze.w,
            h: maze.h,
            done: false,
        };
        assert(r.stack@ =~= seq![Chamber { x: 0, y: 0, w: maze.w, h: maze.h }]);
        r
    }

    /// The chambers on the stack are apart from each other, every wall inside each of them
    /// is open, and the maze has as many passages as a tree through the whole grid plus
    /// the slack of the chambers.
    closed spec fn settled(&self, maze: &Maze) -> bool {
        let s = self.stack@;
        &&& forall|i: int, j: int| 0 <= i < j < s.len() ==> chambers_apart(s[i], s[j])
        &&& forall|i: int| 0 <= i < s.len() ==> chamber_open(#[trigger] s[i], self.w as int, maze.open_edges())
        &&& maze.open_edges().len() == maze.cell_count() - 1 + stack_slack(s)
    }

    /// The first step: opens every wall between two cells, and returns each cell once per
    /// wall opened east or south of it.
    fn open_all(&mut self, maze: &mut Maze) -> (updated: Vec<Vec2i>)
        requires
            old(self).inv(old(maze)),
            !old(self).initialized,
            !old(self).done,
        ensures
            outer_walls_same(*old(maze), *final(maze)),
            final(self).inv(final(maze)),
            !final(self).done,
            final(maze).w == old(maze).w,
            final(maze).h == old(maze).h,
            updated@.len() == 0 ==> final(maze).grid@ == old(maze).grid@,
            final(maze).open_edges() == inside_keys(old(maze).w as int, old(maze).h as int, old(maze).w * old(maze).h),
            updated@.len() == 2 * (old(maze).w * old(maze).h) - old(maze).w - old(maze).h,
            final(self).chambers() == old(self).chambers(),
            final(self).opened(),
    {
        self.initialized = true;
        let ghost w = self.w as int;
        let ghost h = self.h as int;
        let mut updated: Vec<Vec2i> = Vec::new();
        let mut y: usize = 0;
        let ghost g0 = maze.grid@;
        proof {
            assert(0 * w == 0) by (nonlinear_arith);
            lemma_inside_keys_rows(w, h, 0);
        }
        while y < self.h
            invariant
                outer_walls_same(*old(maze), *maze),
                maze.wf(),
                self.w == maze.w,
                self.h == maze.h,
                w == self.w,
                h == self.h,
                w >= 1,
                h >= 1,
                self.stack@ == old(self).stack@,
                self.initialized,
                !self.done,
                maze.w == old(maze).w,
                maze.h == old(maze).h,
                y <= self.h,
                forall|k: int|
                    #![trigger maze.open_edges().contains(k)]
                    #![trigger inside_key(w, h, k)]
                    0 <= k < 2 * (y * w) ==> (maze.open_edges().contains(k) <==> inside_key(w, h, k)),
                updated@.len() == 0 ==> maze.grid@ == g0,
                y < h ==> inside_keys(w, h, y * w).finite() && updated@.len() == inside_keys(w, h, y * w).len(),
                y == h ==> updated@.len() == 2 * (w * h) - w - h,
            decreases self.h - y,
        {
            let mut x: usize = 0;
            proof {
                assert(y * w + 0 == y * w);
                lemma_inside_keys_rows(w, h, y as int);
            }
            while x < self.w
                invariant
                    outer_walls_same(*old(maze), *maze),
                    maze.wf(),
                    self.w == maze.w,
                    self.h == maze.h,
                    w == self.w,
                    h == self.h,
                    w >= 1,
                    self.stack@ == old(self).stack@,
                    self.initialized,
                    !self.done,
                    maze.w == old(maze).w,
                    maze.h == old(maze).h,
                    y < self.h,
                    x <= self.w,
                    forall|k: int|
                        #![trigger maze.open_edges().contains(k)]
                        #![trigger inside_key(w, h, k)]
                        0 <= k < 2 * (y * w + x) ==> (maze.open_edges().contains(k) <==> inside_key(
                            w,
                            h,
                            k,
                        )),
                    updated@.len() == 0 ==> maze.grid@ == g0,
                    inside_keys(w, h, y * w + x).finite(),
                    updated@.len() == inside_keys(w, h, y * w + x).len(),
                decreases self.w - x,
            {
                let cell = Vec2i { x: x as i32, y: y as i32 };
                let ghost i = y * w + x;
                let ghost m0 = *maze;
                proof {
                    maze.lemma_contains_coords_ok(cell);
                    lemma_index_coords(w, x as int, y as int);
                    lemma_index_bound(w, h, x as int, y as int);
                    assert(i + w < w * h <==> y + 1 < h) by (nonlinear_arith)
                        requires
                            i == y * w + x,
                            0 <= x < w,
                            0 <= y < h,
                    ;
                    assert(m0.index_of(cell) == i);
                }
                if x + 1 < self.w {
                    maze.carve(cell, Dir::E);
                    updated.push(cell);
                }
                let ghost m1 = *maze;
                if y + 1 < self.h {
                    maze.carve(cell, Dir::S);
                    updated.push(cell);
                }
                proof {
                    lemma_inside_keys_step(w, h, i);
                    let e = 2 * i;
                    let s = 2 * i + 1;
                    assert(e / 2 == i && e % 2 == 0);
                    assert(s / 2 == i && s % 2 == 1);
                    assert(m0.edge_key(cell, Dir::E) == e);
                    assert(m1.edge_key(cell, Dir::S) == s);
                    assert forall|k: int|
                        #![trigger maze.open_edges().contains(k)]
                        #![trigger inside_key(w, h, k)]
                        0 <= k < 2 * (i + 1) implies (maze.open_edges().contains(k) <==> inside_key(
                            w,
                            h,
                            k,
                        )) by {
                        if k < e {
                            assert(m0.open_edges().contains(k) == maze.open_edges().contains(k));
                        }
                    }
                }
                x = x + 1;
            }
            proof {
                assert(y * w + w == (y + 1) * w) by (nonlinear_arith);
                if y + 1 == h {
                    lemma_inside_keys_all(w, h);
                    assert(y * w + w == w * h) by (nonlinear_arith)
                        requires
                            y + 1 == h,
                    ;
                }
            }
            y = y + 1;
        }
        proof {
            let open = maze.open_edges();
            maze.lemma_open_edges_finite();
            assert(h * w == w * h) by (nonlinear_arith);
            lemma_inside_keys_all(w, h);
            assert(open =~= inside_keys(w, h, w * h)) by {
                assert forall|k: int| #[trigger] open.contains(k) implies k < 2 * (w * h) by {
                    assert(vstd::set_lib::set_int_range(0, 2 * maze.cell_count()).contains(k));
                }
            }
            let grid = Chamber { x: 0, y: 0, w: self.w, h: self.h };
            assert(self.stack@ =~= seq![grid]);
            assert(seq![grid].drop_last() =~= Seq::<Chamber>::empty());
            assert(stack_slack(seq![grid]) == stack_slack(seq![grid].drop_last()) + (grid.w - 1) * (
            grid.h - 1));
            assert(stack_slack(self.stack@) == (w - 1) * (h - 1));
            assert(2 * (w * h) - w - h == w * h - 1 + (w - 1) * (h - 1)) by (nonlinear_arith);
            assert forall|x: int, y: int|
                #![trigger east_key(w, x, y)]
                0 <= x && x + 1 < w && 0 <= y < h implies open.contains(east_key(w, x, y)) by {
                lemma_index_coords(w, x, y);
                lemma_index_bound(w, h, x, y);
                let k = east_key(w, x, y);
                assert(k / 2 == y * w + x && k % 2 == 0);
            }
            assert forall|x: int, y: int|
                #![trigger south_key(w, x, y)]
                0 <= x < w && 0 <= y && y + 1 < h implies open.contains(south_key(w, x, y)) by {
                lemma_index_bound(w, h, x, y + 1);
                assert((y + 1) * w == y * w + w) by (nonlinear_arith);
                let k = south_key(w, x, y);
                assert(k / 2 == y * w + x && k % 2 == 1);
            }
            assert(chamber_open(self.stack@[0], w, open));
            assert(grid_joined(*maze)) by {
                reveal(grid_joined);
                assert forall|p: Vec2i, q: Vec2i| maze.contains(p) && maze.contains(q) implies #[trigger] joined(
                    *maze,
                    p,
                    q,
                ) by {
                    lemma_chamber_joined(*maze, grid, p, q);
                }
            }
        }
        updated
    }
}

impl BuildStrategy for RecursiveDivision {
    /// Every chamber on the stack lies inside the grid; before the first step the stack is
    /// the whole grid, and after it the stack is settled; the builder is done only once the
    /// stack is empty.
    closed spec fn inv(&self, maze: &Maze) -> bool {
        &&& maze.wf()
        &&& self.w == maze.w
        &&& self.h == maze.h
        &&& self.w >= 1
        &&& self.h >= 1
        &&& forall|i: int|
            0 <= i < self.stack@.len() ==> chamber_ok(
                #[trigger] self.stack@[i],
                self.w as int,
                self.h as int,
            )
        &&& self.done ==> self.stack@.len() == 0 && self.initialized
        &&& !self.initialized ==> self.stack@ == seq![Chamber { x: 0, y: 0, w: self.w, h: self.h }]
        &&& self.initialized ==> self.settled(maze)
        &&& self.initialized ==> grid_joined(*maze)
    }

    closed spec fn is_done(&self) -> bool {
        self.done
    }

    fn name(&self) -> (s: &'static str)
        ensures
            s@ == "Recursive Division"@,
    {
        "Recursive Division"
    }

    fn done(&self) -> (b: bool) {
        self.done
    }

    /// The first step opens every interior wall and returns, for each cell, itself once per
    /// wall opened east or south of it. Later steps split chambers (along the longer side,
    /// by coin flip when square) until a split builds at least one wall, and return the
    /// cells on both sides of every wall built.
    #[verifier::spinoff_prover]
    #[verifier::rlimit(80)]
    fn step(&mut self, maze: &mut Maze) -> (updated: Vec<Vec2i>)
        ensures
            old(self).is_done() ==> updated@.len() == 0 && final(maze).grid@ == old(maze).grid@,
            updated@.len() == 0 ==> final(maze).grid@ == old(maze).grid@,
            !old(self).is_done() && !old(self).opened() ==> {
                &&& final(maze).open_edges() == inside_keys(
                    old(maze).w as int,
                    old(maze).h as int,
                    old(maze).w * old(maze).h,
                )
                &&& updated@.len() == 2 * (old(maze).w * old(maze).h) - old(maze).w - old(maze).h
                &&& final(self).opened()
                &&& !final(self).is_done()
            },
            !old(self).is_done() && old(self).opened() ==> {
                &&& closed_pairs(
                    updated@,
                    old(maze).w as int,
                    old(maze).open_edges(),
                    final(maze).open_edges(),
                )
                &&& final(maze).open_edges().subset_of(old(maze).open_edges())
                &&& final(maze).open_edges().len() + updated@.len() / 2 == old(
                    maze,
                ).open_edges().len()
                &&& final(self).is_done() == (updated@.len() == 0)
            },
            !old(self).is_done() && old(self).opened() ==> ({
                let r = division_next(
                    old(self).chambers(),
                    old(self).seed_state(),
                    stack_weight(old(self).chambers()) as nat,
                );
                &&& final(self).chambers() == r.0
                &&& final(self).seed_state() == r.1
                &&& match r.2 {
                    None => updated@.len() == 0 && final(self).is_done(),
                    Some((c, across, split, passage)) => forall|k: int|
                        #[trigger] final(maze).open_edges().contains(k) <==> old(maze).open_edges().contains(k)
                            && !(if across {
                            row_wall(c, split, passage, old(maze).w as int, c.x + c.w, k)
                        } else {
                            column_wall(c, split, passage, old(maze).w as int, c.y + c.h, k)
                        }),
                }
            }),
    {
        if self.done {
            return Vec::new();
        }
        if !self.initialized {
            return self.open_all(maze);
        }
        proof {
            lemma_stack_weight_nonneg(self.stack@, self.w as int, self.h as int);
        }
        let ghost fuel0: nat = stack_weight(self.stack@) as nat;
        let ghost mut fuel: nat = fuel0;
        loop
            invariant
                fuel >= stack_weight(self.stack@),
                division_next(self.stack@, self.seed, fuel) == division_next(
                    old(self).stack@,
                    old(self).seed,
                    fuel0,
                ),
                fuel0 == stack_weight(old(self).stack@) as nat,
                maze.open_edges() == old(maze).open_edges(),
                self.inv(maze),
                self.initialized,
                old(self).initialized,
                !self.done,
                !old(self).done,
                maze.grid@ == old(maze).grid@,
                maze.w == old(maze).w,
                maze.h == old(maze).h,
            decreases stack_weight(self.stack@),
        {
            proof {
                lemma_stack_weight_nonneg(self.stack@, self.w as int, self.h as int);
            }
            let ghost s0 = self.stack@;
            let ghost seed0 = self.seed;
            let chamber = match self.stack.pop() {
                Some(c) => c,
                None => {
                    self.done = true;
                    assert(maze.open_edges() =~= old(maze).open_edges());
                    return Vec::new();
                },
            };
            assert(self.stack@ == s0.drop_last());
            assert(chamber == s0.last());
            assert(chamber_ok(s0[s0.len() - 1], self.w as int, self.h as int));
            if chamber.w < 2 && chamber.h < 2 {
                assert(stack_weight(s0) == stack_weight(s0.drop_last()) + chamber_weight(chamber));
                assert(chamber.w * chamber.h == 1) by (nonlinear_arith)
                    requires
                        chamber.w == 1,
                        chamber.h == 1,
                ;
                proof {
                    lemma_stack_weight_nonneg(self.stack@, self.w as int, self.h as int);
                    assert(stack_slack(s0) == stack_slack(s0.drop_last()) + (s0.last().w - 1) * (
                    s0.last().h - 1));
                    assert((chamber.w - 1) * (chamber.h - 1) == 0) by (nonlinear_arith)
                        requires
                            chamber.w == 1,
                            chamber.h == 1,
                    ;
                    assert(stack_slack(s0) == stack_slack(s0.drop_last()));
                    lemma_stack_weight_nonneg(self.stack@, self.w as int, self.h as int);
                    assert(division_next(s0, seed0, fuel) == division_next(s0.drop_last(), seed0, (fuel - 1) as nat));
                    fuel = (fuel - 1) as nat;
                    assert forall|i: int| 0 <= i < self.stack@.len() implies chamber_open(
                        #[trigger] self.stack@[i],
                        self.w as int,
                        maze.open_edges(),
                    ) by {
                        assert(self.stack@[i] == s0[i]);
                    }
                    assert forall|i: int, j: int|
                        0 <= i < j < self.stack@.len() implies chambers_apart(
                        self.stack@[i],
                        self.stack@[j],
                    ) by {
                        assert(self.stack@[i] == s0[i] && self.stack@[j] == s0[j]);
                    }
                }
                continue;
            }
            let divide_h = if chamber.w < 2 {
                true
            } else if chamber.h < 2 {
                false
            } else {
                chamber.h > chamber.w || (chamber.h == chamber.w && xorshift(&mut self.seed) & 1
                    == 0)
            };
            let ghost open0 = maze.open_edges();
            proof {
                lemma_stack_weight_nonneg(self.stack@, self.w as int, self.h as int);
            }
            assert(open0 =~= old(maze).open_edges());
            if divide_h {
                let split = 1 + (xorshift(&mut self.seed) as usize) % (chamber.h - 1);
                let passage = chamber.x + (xorshift(&mut self.seed) as usize) % chamber.w;
                assert(split_choice(chamber, seed0) == (true, split as int, passage as int, self.seed));
                proof {
                    assert(chamber_open(s0[s0.len() - 1], self.w as int, open0));
                }
                let ghost m_before = *maze;
                let updated = build_row_wall(maze, chamber, split, passage);
                proof {
                    lemma_row_split_joined(m_before, *maze, chamber, split as int, passage as int);
                }
                let ghost s1 = self.stack@;
                self.stack.push(Chamber { x: chamber.x, y: chamber.y, w: chamber.w, h: split });
                self.stack.push(
                    Chamber { x: chamber.x, y: chamber.y + split, w: chamber.w, h: chamber.h - split },
                );
                proof {
                    let c1 = Chamber { x: chamber.x, y: chamber.y, w: chamber.w, h: split };
                    lemma_row_split(s0, self.w as int, self.h as int, split as int, passage as int, open0, maze.open_edges());
                    lemma_stack_push(s1, c1);
                    lemma_stack_push(s1.push(c1), Chamber { x: chamber.x, y: (chamber.y + split) as usize, w: chamber.w, h: (chamber.h - split) as usize });
                    assert(c1.w * c1.h + chamber.w * (chamber.h - split) == chamber.w * chamber.h) by (nonlinear_arith)
                        requires
                            c1.w == chamber.w,
                            c1.h == split,
                    ;
                    assert(s0 =~= s1.push(chamber));
                    lemma_stack_push(s1, chamber);
                    lemma_stack_weight_nonneg(self.stack@, self.w as int, self.h as int);
                }
                assert(self.stack@ =~= s0.drop_last() + split_halves(chamber, true, split as int));
                assert(division_next(s0, seed0, fuel) == if updated@.len() > 0 {
                    (self.stack@, self.seed, Some((chamber, true, split as int, passage as int)))
                } else {
                    division_next(self.stack@, self.seed, (fuel - 1) as nat)
                });
                if updated.len() > 0 {
                    return updated;
                }
                proof {
                    fuel = (fuel - 1) as nat;
                }
            } else {
                let split = 1 + (xorshift(&mut self.seed) as usize) % (chamber.w - 1);
                let passage = chamber.y + (xorshift(&mut self.seed) as usize) % chamber.h;
                assert(split_choice(chamber, seed0) == (false, split as int, passage as int, self.seed));
                proof {
                    assert(chamber_open(s0[s0.len() - 1], self.w as int, open0));
                }
                let ghost m_before = *maze;
                let updated = build_column_wall(maze, chamber, split, passage);
                proof {
                    lemma_column_split_joined(m_before, *maze, chamber, split as int, passage as int);
                }
                let ghost s1 = self.stack@;
                self.stack.push(Chamber { x: chamber.x, y: chamber.y, w: split, h: chamber.h });
                self.stack.push(
                    Chamber { x: chamber.x + split, y: chamber.y, w: chamber.w - split, h: chamber.h },
                );
                proof {
                    let c1 = Chamber { x: chamber.x, y: chamber.y, w: split, h: chamber.h };
                    lemma_column_split(s0, self.w as int, self.h as int, split as int, passage as int, open0, maze.open_edges());
                    lemma_stack_push(s1, c1);
                    lemma_stack_push(s1.push(c1), Chamber { x: (chamber.x + split) as usize, y: chamber.y, w: (chamber.w - split) as usize, h: chamber.h });
                    assert(c1.w * c1.h + (chamber.w - split) * chamber.h == chamber.w * chamber.h) by (nonlinear_arith)
                        requires
                            c1.h == chamber.h,
                            c1.w == split,
                    ;
                    assert(s0 =~= s1.push(chamber));
                    lemma_stack_push(s1, chamber);
                    lemma_stack_weight_nonneg(self.stack@, self.w as int, self.h as int);
                }
                assert(self.stack@ =~= s0.drop_last() + split_halves(chamber, false, split as int));
                assert(division_next(s0, seed0, fuel) == if updated@.len() > 0 {
                    (self.stack@, self.seed, Some((chamber, false, split as int, passage as int)))
                } else {
                    division_next(self.stack@, self.seed, (fuel - 1) as nat)
                });
                if updated.len() > 0 {
                    return updated;
                }
                proof {
                    fuel = (fuel - 1) as nat;
                }
            }
        }
    }
}

impl RecursiveDivision {
    /// Once done, the maze is a spanning tree, whatever walls it had at the start: it has
    /// exactly one passage fewer than cells, and a walk joins any two cells.
    pub proof fn lemma_done_is_perfect(&self, maze: &Maze)
        requires
            self.inv(maze),
            self.is_done(),
        ensures
            maze.open_edges().len() == maze.cell_count() - 1,
            maze.outer_walls_closed() ==> open_flag_count(*maze) == 2 * (maze.cell_count() - 1),
            forall|p: Vec2i, q: Vec2i|
                maze.contains(p) && maze.contains(q) ==> #[trigger] joined(*maze, p, q),
    {
        reveal(grid_joined);
        if maze.outer_walls_closed() {
            lemma_open_flag_count(*maze);
        }
    }
}

} // verus!
