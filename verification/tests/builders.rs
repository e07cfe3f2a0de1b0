use mazegen::builders::aldous_broder::AldousBroder;
use mazegen::builders::binary_tree::BinaryTree;
use mazegen::builders::braided::BraidedMaze;
use mazegen::builders::eller::EllerGen;
use mazegen::builders::growing_tree::GrowingTree;
use mazegen::builders::houston::HoustonGen;
use mazegen::builders::hunt_and_kill::HuntAndKill;
use mazegen::builders::kruskal::KruskalGen;
use mazegen::builders::origin_shift::OriginShift;
use mazegen::builders::prim::PrimGen;
use mazegen::builders::recursive_backtracker::RecursiveBacktracker;
use mazegen::builders::recursive_division::RecursiveDivision;
use mazegen::builders::sidewinder::Sidewinder;
use mazegen::builders::spiral_backtracker::SpiralBacktracker;
use mazegen::builders::wilson::WilsonGen;
use mazegen::builders::BuildStrategy;
use mazegen::builders::spiral_backtracker::{reverse, turn_left, turn_right};
use mazegen::rng::{shuffle_dirs, xorshift};
use mazegen::types::{dir_at, Dir, Maze, Vec2i};
use mazegen::viewers::lines::render_lines_to_string;

fn count_passages(maze: &Maze) -> usize {
    maze.grid
        .iter()
        .map(|c| c.wall.iter().filter(|&&w| !w).count())
        .sum::<usize>()
        / 2
}

#[test]
fn aldous_broder_4x4_produces_perfect_maze() {
    let mut maze = Maze::new(4, 4);
    let mut builder = AldousBroder::new_with_seed(&maze, 0xABCD_1234);
    while !builder.done() {
        builder.step(&mut maze);
    }
    assert_eq!(count_passages(&maze), 15);
}

#[test]
fn binary_tree_4x4_produces_perfect_maze() {
    let mut maze = Maze::new(4, 4);
    let mut builder = BinaryTree::new_with_seed(&maze, 0x1111_2222);
    while !builder.done() {
        builder.step(&mut maze);
    }
    assert_eq!(count_passages(&maze), 15);
}

#[test]
fn eller_4x4_produces_perfect_maze() {
    let mut maze = Maze::new(4, 4);
    let mut builder = EllerGen::new_with_seed(&maze, 0xE77E_E77E);
    while !builder.done() {
        builder.step(&mut maze);
    }
    assert_eq!(count_passages(&maze), 15);
}

#[test]
fn growing_tree_4x4_produces_perfect_maze() {
    let mut maze = Maze::new(4, 4);
    let mut builder = GrowingTree::new_with_seed(&maze, 0x6785_4321);
    while !builder.done() {
        builder.step(&mut maze);
    }
    assert_eq!(count_passages(&maze), 15);
}

#[test]
fn houston_4x4_produces_perfect_maze() {
    let mut maze = Maze::new(4, 4);
    let mut builder = HoustonGen::new_with_seed(&maze, 0xC0DE_CAFE);
    while !builder.done() {
        builder.step(&mut maze);
    }
    assert_eq!(count_passages(&maze), 15);
}

#[test]
fn hunt_and_kill_4x4_produces_perfect_maze() {
    let mut maze = Maze::new(4, 4);
    let mut builder = HuntAndKill::new_with_seed(&maze, 0xDEAD_BEEF);
    while !builder.done() {
        builder.step(&mut maze);
    }
    assert_eq!(count_passages(&maze), 15);
}

#[test]
fn recursive_backtracker_4x4_produces_perfect_maze() {
    let mut maze = Maze::new(4, 4);
    let mut builder = RecursiveBacktracker::new_with_seed(&maze, 0xCAFE_BABE);
    while !builder.done() {
        builder.step(&mut maze);
    }
    assert_eq!(count_passages(&maze), 15);
}

#[test]
fn recursive_division_4x4_produces_perfect_maze() {
    let mut maze = Maze::new(4, 4);
    let mut builder = RecursiveDivision::new_with_seed(&maze, 0xC0DE_CAFE);
    while !builder.done() {
        builder.step(&mut maze);
    }
    assert_eq!(count_passages(&maze), 15);
}

#[test]
fn sidewinder_4x4_produces_perfect_maze() {
    let mut maze = Maze::new(4, 4);
    let mut builder = Sidewinder::new_with_seed(&maze, 0x5EED_5EED);
    while !builder.done() {
        builder.step(&mut maze);
    }
    assert_eq!(count_passages(&maze), 15);
}

#[test]
fn spiral_backtracker_4x4_produces_perfect_maze() {
    let mut maze = Maze::new(4, 4);
    let mut builder = SpiralBacktracker::new_with_seed(&maze, 0x5721_5721);
    while !builder.done() {
        builder.step(&mut maze);
    }
    assert_eq!(count_passages(&maze), 15);
}

#[test]
fn wilson_4x4_produces_perfect_maze() {
    let mut maze = Maze::new(4, 4);
    let mut builder = WilsonGen::new_with_seed(&maze, 0xFEED_FACE);
    while !builder.done() {
        builder.step(&mut maze);
    }
    assert_eq!(count_passages(&maze), 15);
}

#[test]
fn origin_shift_4x4_produces_perfect_maze() {
    let mut maze = Maze::new(4, 4);
    let mut builder = OriginShift::new_with_seed(&maze, 0xFEED_FACE);
    while !builder.done() {
        builder.step(&mut maze);
    }
    assert_eq!(count_passages(&maze), 15);
}

#[test]
fn origin_shift_1x8_produces_perfect_maze() {
    let mut maze = Maze::new(1, 8);
    let mut builder = OriginShift::new_with_seed(&maze, 0x1234_ABCD);
    while !builder.done() {
        builder.step(&mut maze);
    }
    assert_eq!(count_passages(&maze), 7);
}

#[test]
fn prim_4x4_seeded_produces_valid_maze() {
    let mut maze = Maze::new(4, 4);
    let mut builder = PrimGen::new_with_seed(&maze, 0xDEAD_BEEF);
    while !builder.done() {
        builder.step(&mut maze);
    }
    let rendered = render_lines_to_string(&maze);
    let passages = count_passages(&maze);
    assert_eq!(
        passages, 15,
        "4x4 perfect maze must have exactly 15 passages\n{rendered}"
    );
}

#[test]
fn braided_has_no_dead_ends() {
    let mut maze = Maze::new(6, 6);
    let mut builder = BraidedMaze::new_with_seed(&maze, 0xB8A1_DEF0);
    while !builder.done() {
        builder.step(&mut maze);
    }
    let dead_ends = (0..maze.h)
        .flat_map(|y| (0..maze.w).map(move |x| (x, y)))
        .filter(|&(x, y)| {
            let cell = Vec2i {
                x: x as i32,
                y: y as i32,
            };
            [Dir::N, Dir::E, Dir::S, Dir::W]
                .iter()
                .filter(|&&d| !maze.has_wall(cell, d))
                .count()
                == 1
        })
        .count();
    assert_eq!(dead_ends, 0, "braided maze should have no dead ends");
}

#[test]
fn kruskal_4x4_seeded_first_carves_match_snapshots() {
    let mut maze = Maze::new(4, 4);
    let mut generator = KruskalGen::new_with_seed(&maze, 0x1234_5678);
    let expected = [
        (
            vec![(1, 1), (1, 2)],
            "┏━┳━┳━┳━┓\n┃ ┃ ┃ ┃ ┃\n┣━╋━╋━╋━┫\n┃ ┃ ┃ ┃ ┃\n┣━┫ ┣━╋━┫\n┃ ┃ ┃ ┃ ┃\n┣━╋━╋━╋━┫\n┃ ┃ ┃ ┃ ┃\n┗━┻━┻━┻━┛",
        ),
        (
            vec![(3, 2), (3, 3)],
            "┏━┳━┳━┳━┓\n┃ ┃ ┃ ┃ ┃\n┣━╋━╋━╋━┫\n┃ ┃ ┃ ┃ ┃\n┣━┫ ┣━╋━┫\n┃ ┃ ┃ ┃ ┃\n┣━╋━╋━┫ ┃\n┃ ┃ ┃ ┃ ┃\n┗━┻━┻━┻━┛",
        ),
        (
            vec![(1, 2), (2, 2)],
            "┏━┳━┳━┳━┓\n┃ ┃ ┃ ┃ ┃\n┣━╋━╋━╋━┫\n┃ ┃ ┃ ┃ ┃\n┣━┫ ┗━╋━┫\n┃ ┃   ┃ ┃\n┣━╋━┳━┫ ┃\n┃ ┃ ┃ ┃ ┃\n┗━┻━┻━┻━┛",
        ),
        (
            vec![(3, 1), (3, 2)],
            "┏━┳━┳━┳━┓\n┃ ┃ ┃ ┃ ┃\n┣━╋━╋━╋━┫\n┃ ┃ ┃ ┃ ┃\n┣━┫ ┗━┫ ┃\n┃ ┃   ┃ ┃\n┣━╋━┳━┫ ┃\n┃ ┃ ┃ ┃ ┃\n┗━┻━┻━┻━┛",
        ),
        (
            vec![(1, 0), (1, 1)],
            "┏━┳━┳━┳━┓\n┃ ┃ ┃ ┃ ┃\n┣━┫ ┣━╋━┫\n┃ ┃ ┃ ┃ ┃\n┣━┫ ┗━┫ ┃\n┃ ┃   ┃ ┃\n┣━╋━┳━┫ ┃\n┃ ┃ ┃ ┃ ┃\n┗━┻━┻━┻━┛",
        ),
        (
            vec![(1, 3), (2, 3)],
            "┏━┳━┳━┳━┓\n┃ ┃ ┃ ┃ ┃\n┣━┫ ┣━╋━┫\n┃ ┃ ┃ ┃ ┃\n┣━┫ ┗━┫ ┃\n┃ ┃   ┃ ┃\n┣━╋━━━┫ ┃\n┃ ┃   ┃ ┃\n┗━┻━━━┻━┛",
        ),
    ];

    for (expected_cells, expected_render) in expected {
        let updated = loop {
            let updated = generator.step(&mut maze);
            if !updated.is_empty() {
                break updated;
            }
        };

        let updated_cells = updated.into_iter().map(|p| (p.x, p.y)).collect::<Vec<_>>();
        assert_eq!(updated_cells, expected_cells);
        assert_eq!(render_lines_to_string(&maze), expected_render);
    }
}

fn stepped(p: Vec2i, d: Dir) -> Vec2i {
    match d {
        Dir::N => Vec2i { x: p.x, y: p.y - 1 },
        Dir::S => Vec2i { x: p.x, y: p.y + 1 },
        Dir::W => Vec2i { x: p.x - 1, y: p.y },
        Dir::E => Vec2i { x: p.x + 1, y: p.y },
    }
}

fn free_cell(w: usize, h: usize, visited: &[bool], p: Vec2i) -> bool {
    p.x >= 0 && p.y >= 0 && (p.x as usize) < w && (p.y as usize) < h && !visited[p.y as usize * w + p.x as usize]
}

fn mark(w: usize, visited: &mut [bool], p: Vec2i) {
    visited[p.y as usize * w + p.x as usize] = true;
}

#[test]
fn spiral_backtracker_tries_straight_then_turns_as_drawn() {
    for seed in [1u32, 0x1234_5678, 0xCAFE_F00D] {
        let (w, h) = (5usize, 4usize);
        let mut maze = Maze::new(w, h);
        let mut builder = SpiralBacktracker::new_with_seed(&maze, seed);
        let mut s = seed;
        xorshift(&mut s);
        let mut stack = vec![(Vec2i { x: 0, y: 0 }, dir_at((s as usize) % 4))];
        let mut visited = vec![false; w * h];
        visited[0] = true;
        loop {
            let mut expected = None;
            while let Some(&(c, f)) = stack.last() {
                let r = xorshift(&mut s) % 4;
                let order = if r <= 1 {
                    [f, turn_left(f), turn_right(f), reverse(f)]
                } else if r == 2 {
                    [turn_left(f), f, turn_right(f), reverse(f)]
                } else {
                    [turn_right(f), f, turn_left(f), reverse(f)]
                };
                match order.iter().copied().find(|&d| free_cell(w, h, &visited, stepped(c, d))) {
                    Some(d) => {
                        let n = stepped(c, d);
                        mark(w, &mut visited, n);
                        stack.push((n, d));
                        expected = Some(vec![c, n]);
                        break;
                    }
                    None => {
                        stack.pop();
                    }
                }
            }
            let got = builder.step(&mut maze);
            match expected {
                Some(e) => assert_eq!(got, e),
                None => {
                    assert!(got.is_empty());
                    assert!(builder.done());
                    break;
                }
            }
        }
        assert_eq!(count_passages(&maze), w * h - 1);
    }
}

#[test]
fn growing_tree_grows_from_the_newest_cell_unless_the_draw_says_otherwise() {
    for seed in [3u32, 0x0BAD_CAFE, 0x7777_0001] {
        let (w, h) = (5usize, 4usize);
        let mut maze = Maze::new(w, h);
        let mut builder = GrowingTree::new_with_seed(&maze, seed);
        let mut s = seed;
        let mut cells = vec![Vec2i { x: 0, y: 0 }];
        let mut visited = vec![false; w * h];
        visited[0] = true;
        loop {
            let mut expected = None;
            while !cells.is_empty() {
                let idx = if xorshift(&mut s) % 4 == 0 {
                    (xorshift(&mut s) as usize) % cells.len()
                } else {
                    cells.len() - 1
                };
                let c = cells[idx];
                let dirs = shuffle_dirs(&mut s);
                match dirs.iter().copied().find(|&d| free_cell(w, h, &visited, stepped(c, d))) {
                    Some(d) => {
                        let n = stepped(c, d);
                        mark(w, &mut visited, n);
                        cells.push(n);
                        expected = Some(vec![c, n]);
                        break;
                    }
                    None => {
                        cells.swap_remove(idx);
                    }
                }
            }
            let got = builder.step(&mut maze);
            match expected {
                Some(e) => assert_eq!(got, e),
                None => {
                    assert!(got.is_empty());
                    assert!(builder.done());
                    break;
                }
            }
        }
        assert_eq!(count_passages(&maze), w * h - 1);
    }
}

#[test]
fn recursive_backtracker_carves_from_the_top_of_its_stack() {
    for seed in [5u32, 0x1357_2468] {
        let (w, h) = (4usize, 4usize);
        let mut maze = Maze::new(w, h);
        let mut builder = RecursiveBacktracker::new_with_seed(&maze, seed);
        let mut s = seed;
        let mut stack = vec![Vec2i { x: 0, y: 0 }];
        let mut visited = vec![false; w * h];
        visited[0] = true;
        loop {
            let mut expected = None;
            while let Some(&c) = stack.last() {
                let dirs = shuffle_dirs(&mut s);
                match dirs.iter().copied().find(|&d| free_cell(w, h, &visited, stepped(c, d))) {
                    Some(d) => {
                        let n = stepped(c, d);
                        mark(w, &mut visited, n);
                        stack.push(n);
                        expected = Some(vec![c, n]);
                        break;
                    }
                    None => {
                        stack.pop();
                    }
                }
            }
            let got = builder.step(&mut maze);
            match expected {
                Some(e) => assert_eq!(got, e),
                None => {
                    assert!(got.is_empty());
                    assert!(builder.done());
                    break;
                }
            }
        }
    }
}

#[test]
fn wilson_joins_each_walk_cell_to_the_next_through_an_open_wall() {
    for seed in [9u32, 0xFACE_B00C] {
        let mut maze = Maze::new(5, 4);
        let mut builder = WilsonGen::new_with_seed(&maze, seed);
        let mut guard = 0;
        while !builder.done() {
            let updated = builder.step(&mut maze);
            for pair in updated.chunks(2) {
                let (a, b) = (pair[0], pair[1]);
                let d = [Dir::N, Dir::E, Dir::S, Dir::W]
                    .iter()
                    .copied()
                    .find(|&d| stepped(a, d) == b)
                    .expect("joined cells are neighbours");
                assert!(!maze.has_wall(a, d));
            }
            guard += 1;
            assert!(guard < 1_000_000);
        }
        assert_eq!(count_passages(&maze), 19);
    }
}
