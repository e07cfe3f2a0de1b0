use std::collections::BTreeSet;

use mazegen::builders::aldous_broder::AldousBroder;
use mazegen::builders::binary_tree::BinaryTree;
use mazegen::builders::braided::BraidedMaze;
use mazegen::builders::eller::EllerGen;
use mazegen::builders::growing_tree::GrowingTree;
use mazegen::builders::houston::HoustonGen;
use mazegen::builders::hunt_and_kill::HuntAndKill;
use mazegen::builders::kruskal::KruskalGen;
use mazegen::builders::prim::PrimGen;
use mazegen::builders::spiral_backtracker::SpiralBacktracker;
use mazegen::builders::wilson::WilsonGen;
use mazegen::builders::origin_shift::{isqrt, OriginShift};
use mazegen::builders::recursive_division::RecursiveDivision;
use mazegen::builders::sidewinder::Sidewinder;
use mazegen::builders::recursive_backtracker::RecursiveBacktracker;
use mazegen::builders::{
    build_builder_at, builder_count, index_from_nanos, random_index, random_neighbor, BuildStrategy, Builder,
};
use mazegen::config::{
    parse_step_count, parse_style, read_flag, strip_seconds_suffix, ArgFlag, ConfigError, CountError,
};
use mazegen::rng::xorshift;
use mazegen::session::{
    decode_input, footer_left, next_phase, react, run_build_steps, run_solve_steps, Action, Input, Phase, Session,
};
use mazegen::solvers::{
    build_solver_at, find_solver_index, solver_names, SolveStrategy,
};
use mazegen::types::{CellMark, Dir, Maze, MazeOverlay, RenderStyle, Vec2i};
use mazegen::util::{is_whitespace, normalize_name};
use mazegen::viewers::blocks::render_blocks;
use mazegen::viewers::half_blocks::{compress_half_block_points, render_half_blocks, HalfBlockCell};
use mazegen::viewers::lines::{render_lines, render_lines_to_string};
use mazegen::viewers::{maze_size_from_terminal, maze_update_points, overlay_update_points};

fn count_passages(maze: &Maze) -> usize {
    maze.grid
        .iter()
        .map(|c| c.wall.iter().filter(|&&w| !w).count())
        .sum::<usize>()
        / 2
}

fn perfect_maze(w: usize, h: usize, seed: u32) -> Maze {
    let mut maze = Maze::new(w, h);
    let mut builder = RecursiveBacktracker::new_with_seed(&maze, seed);
    while !builder.done() {
        builder.step(&mut maze);
    }
    maze
}

#[test]
fn origin_shift_every_shift_leaves_a_perfect_maze() {
    let mut maze = Maze::new(5, 4);
    let mut builder = OriginShift::new_with_seed(&maze, 0x0BAD_F00D);
    let mut steps = 0;
    while !builder.done() {
        builder.step(&mut maze);
        steps += 1;
        if steps >= 19 {
            assert_eq!(count_passages(&maze), 19);
        }
    }
    assert_eq!(count_passages(&maze), 19);
}

#[test]
fn origin_shift_carves_the_snake_first() {
    let mut maze = Maze::new(3, 2);
    let mut builder = OriginShift::new_with_seed(&maze, 7);
    let first = builder.step(&mut maze);
    assert_eq!(first, vec![Vec2i { x: 1, y: 0 }, Vec2i { x: 0, y: 0 }]);
    let second = builder.step(&mut maze);
    assert_eq!(second, vec![Vec2i { x: 2, y: 0 }, Vec2i { x: 1, y: 0 }]);
    let third = builder.step(&mut maze);
    assert_eq!(third, vec![Vec2i { x: 0, y: 1 }, Vec2i { x: 1, y: 1 }]);
    assert_eq!(count_passages(&maze), 3);
}

#[test]
fn isqrt_is_the_integer_square_root() {
    assert_eq!(isqrt(0), 0);
    assert_eq!(isqrt(15), 3);
    assert_eq!(isqrt(16), 4);
    assert_eq!(isqrt(1_000_000), 1000);
}

#[test]
fn origin_shift_batch_is_a_quarter_root() {
    let maze = Maze::new(40, 10);
    let builder = OriginShift::new_with_seed(&maze, 1);
    assert_eq!(builder.step_hint(), 5);
}

#[test]
fn xorshift_known_values() {
    let mut seed = 1u32;
    assert_eq!(xorshift(&mut seed), 270369);
    assert_eq!(seed, 270369);
}

#[test]
fn every_builder_of_the_list_builds_a_perfect_maze() {
    for idx in 0..builder_count() {
        let mut maze = Maze::new(5, 3);
        let mut builder: Builder = build_builder_at(idx, &maze);
        let mut guard = 0;
        while !builder.done() && guard < 100_000 {
            builder.step(&mut maze);
            guard += 1;
        }
        assert!(builder.done());
        assert_eq!(count_passages(&maze), 14, "builder {}", builder.name());
    }
}

#[test]
fn builder_names() {
    let maze = Maze::new(2, 2);
    let names: Vec<&str> = (0..builder_count())
        .map(|i| build_builder_at(i, &maze).name())
        .collect();
    assert_eq!(
        names,
        vec!["Kruskal's", "Prim's", "Recursive Backtracker", "Aldous-Broder", "Binary Tree"]
    );
}

fn check_solution(maze: &Maze, overlay: &MazeOverlay) {
    let start = Vec2i { x: 0, y: 0 };
    let goal = Vec2i { x: maze.w as i32 - 1, y: maze.h as i32 - 1 };
    assert_eq!(overlay.get(maze.w, start), CellMark::Solution);
    assert_eq!(overlay.get(maze.w, goal), CellMark::Solution);
    let mut cursor = goal;
    let mut guard = 0;
    while cursor != start {
        let parent = overlay.parent(maze.w, cursor).expect("solution cell has a parent");
        let dir = [Dir::N, Dir::E, Dir::S, Dir::W]
            .into_iter()
            .find(|&d| maze.neighbor(cursor, d) == parent)
            .expect("parent is a neighbour");
        assert!(!maze.has_wall(cursor, dir));
        assert_eq!(overlay.get(maze.w, parent), CellMark::Solution);
        cursor = parent;
        guard += 1;
        assert!(guard <= maze.w * maze.h);
    }
}

#[test]
fn every_solver_marks_a_path_from_goal_to_start() {
    let maze = perfect_maze(6, 5, 0x5151_0001);
    for idx in 0..3 {
        let mut solver = build_solver_at(idx, &maze);
        let mut overlay = MazeOverlay::new(maze.w, maze.h);
        let mut guard = 0;
        while !solver.done() {
            solver.step(&maze, &mut overlay);
            guard += 1;
            assert!(guard < 10_000);
        }
        check_solution(&maze, &overlay);
    }
}

#[test]
fn solver_lookup_by_name() {
    assert_eq!(solver_names(), vec!["dfs".to_string(), "bfs".to_string(), "flood-fill".to_string()]);
    assert_eq!(find_solver_index("BFS"), Some(1));
    assert_eq!(find_solver_index("  flood   Fill "), Some(2));
    assert_eq!(find_solver_index("dfs's"), Some(0));
    assert_eq!(find_solver_index("a-star"), None);
}

#[test]
fn normalize_names() {
    assert_eq!(normalize_name("Kruskal's"), "kruskal");
    assert_eq!(normalize_name("Aldous-Broder"), "aldous-broder");
    assert_eq!(normalize_name("Recursive   Backtracker"), "recursive-backtracker");
    assert_eq!(normalize_name("Prim\u{2019}"), "prim");
    assert_eq!(normalize_name(" Hunt & Kill! "), "hunt-kill");
    assert_eq!(normalize_name(""), "");
}

#[test]
fn step_counts() {
    assert_eq!(parse_step_count("5", ArgFlag::BuildSteps), Ok(5));
    assert_eq!(parse_step_count("+7", ArgFlag::BuildSteps), Ok(7));
    assert_eq!(parse_step_count("0", ArgFlag::SolveSteps), Err(ConfigError::ZeroCount(ArgFlag::SolveSteps)));
    assert_eq!(
        parse_step_count("", ArgFlag::BuildSteps),
        Err(ConfigError::InvalidCount(ArgFlag::BuildSteps, String::new(), CountError::Empty))
    );
    assert_eq!(
        parse_step_count("+", ArgFlag::BuildSteps),
        Err(ConfigError::InvalidCount(ArgFlag::BuildSteps, "+".to_string(), CountError::InvalidDigit))
    );
    assert_eq!(
        parse_step_count("-1", ArgFlag::BuildSteps),
        Err(ConfigError::InvalidCount(ArgFlag::BuildSteps, "-1".to_string(), CountError::InvalidDigit))
    );
    assert_eq!(
        parse_step_count("12a", ArgFlag::BuildSteps),
        Err(ConfigError::InvalidCount(ArgFlag::BuildSteps, "12a".to_string(), CountError::InvalidDigit))
    );
    let too_big = "99999999999999999999999999";
    assert_eq!(
        parse_step_count(too_big, ArgFlag::BuildSteps),
        Err(ConfigError::InvalidCount(ArgFlag::BuildSteps, too_big.to_string(), CountError::TooLarge))
    );
    assert_eq!(parse_step_count(&usize::MAX.to_string(), ArgFlag::BuildSteps), Ok(usize::MAX));
}

#[test]
fn styles() {
    assert_eq!(parse_style("lines"), Ok(RenderStyle::Lines));
    assert_eq!(parse_style("blocks"), Ok(RenderStyle::Blocks));
    assert_eq!(parse_style("half-blocks"), Ok(RenderStyle::HalfBlocks));
    assert_eq!(parse_style("dots"), Err(ConfigError::InvalidStyle("dots".to_string())));
}

#[test]
fn flags() {
    let args: Vec<String> = vec!["--style".into(), "lines".into(), "--wait".into()];
    assert_eq!(read_flag(&args, 0), Ok((ArgFlag::Style, 1)));
    assert_eq!(read_flag(&args, 2), Err(ConfigError::MissingValue(ArgFlag::Wait)));
    assert_eq!(read_flag(&args, 1), Err(ConfigError::UnknownArgument("lines".to_string())));
    assert_eq!(strip_seconds_suffix("0.5s"), "0.5");
    assert_eq!(strip_seconds_suffix("2"), "2");
}

#[test]
fn input_decoding() {
    assert_eq!(decode_input(&vec![]), Input::Nothing);
    assert_eq!(decode_input(&vec![b'q']), Input::Quit);
    assert_eq!(decode_input(&vec![0x1b]), Input::Quit);
    assert_eq!(decode_input(&vec![0x1b, b'[', b'C']), Input::SkipSecond);
    assert_eq!(decode_input(&vec![0x1b, b'[', b'A']), Input::Nothing);
    assert_eq!(decode_input(&vec![b'.', b'p', b'x']), Input::TogglePause);
    assert_eq!(decode_input(&vec![b'b', b'N']), Input::NewMaze);
}

#[test]
fn reactions() {
    let mut s = Session { phase: Phase::Build, paused: false, random_mode: true, builder_idx: None };
    assert_eq!(react(&mut s, Input::CycleBuilder, 5), (Action::Nothing, true));
    assert_eq!(s.builder_idx, Some(0));
    assert!(!s.random_mode);
    assert_eq!(react(&mut s, Input::CyclePrevBuilder, 5), (Action::Nothing, true));
    assert_eq!(s.builder_idx, Some(4));
    assert_eq!(react(&mut s, Input::TogglePause, 5), (Action::ShowFooter, false));
    assert!(s.paused);
    assert_eq!(react(&mut s, Input::Advance, 5), (Action::AdvanceOne, false));
    assert_eq!(react(&mut s, Input::RandomBuilder, 5), (Action::Nothing, true));
    assert_eq!(s.builder_idx, None);
    let mut done = Session { phase: Phase::Complete, paused: false, random_mode: true, builder_idx: Some(2) };
    assert_eq!(react(&mut done, Input::Nothing, 5), (Action::Nothing, true));
    assert_eq!(react(&mut done, Input::Quit, 5), (Action::Quit, false));
    assert_eq!(react(&mut done, Input::SkipSecond, 5), (Action::Nothing, false));
}

#[test]
fn footer() {
    assert_eq!(footer_left("Building", "Prim's", true, false), "Building: Prim's (random)");
    assert_eq!(footer_left("Solving", "BFS", false, true), "Solving: BFS  [PAUSED]");
}

#[test]
fn running_steps_stops_when_done() {
    let mut maze = Maze::new(3, 3);
    let mut builder = build_builder_at(2, &maze);
    let updated = run_build_steps(&mut builder, &mut maze, 1000);
    assert!(builder.done());
    assert!(!updated.is_empty());
    assert_eq!(count_passages(&maze), 8);
    assert!(run_build_steps(&mut builder, &mut maze, 10).is_empty());
    let mut solver = build_solver_at(1, &maze);
    let mut overlay = MazeOverlay::new(3, 3);
    run_solve_steps(&mut solver, &maze, &mut overlay, 1000);
    assert!(solver.done());
    check_solution(&maze, &overlay);
}

#[test]
fn single_cell_drawings() {
    let maze = Maze::new(1, 1);
    assert_eq!(render_lines_to_string(&maze), "┏━┓\n┃ ┃\n┗━┛");
    assert_eq!(render_lines(&maze).len(), 3);
    assert_eq!(
        render_blocks(&maze, None),
        vec![vec![255, 255, 255], vec![255, 16, 255], vec![255, 255, 255]]
    );
    let wall = HalfBlockCell { fg: 255, bg: 255 };
    let floor = HalfBlockCell { fg: 16, bg: 255 };
    assert_eq!(render_half_blocks(&maze, None), vec![vec![wall, floor, wall], vec![floor, floor, floor]]);
}

#[test]
fn overlay_colours_blocks() {
    let mut maze = Maze::new(2, 1);
    maze.carve(Vec2i { x: 0, y: 0 }, Dir::E);
    let mut overlay = MazeOverlay::new(2, 1);
    overlay.set(2, Vec2i { x: 1, y: 0 }, CellMark::Solution);
    overlay.set_parent(2, Vec2i { x: 1, y: 0 }, Vec2i { x: 0, y: 0 });
    let plain = render_blocks(&maze, None);
    assert_eq!(plain[1], vec![255, 16, 16, 16, 255]);
    let painted = render_blocks(&maze, Some(&overlay));
    assert_eq!(painted[1], vec![255, 16, 154, 154, 255]);
}

#[test]
fn update_points() {
    let points = maze_update_points(vec![Vec2i { x: 0, y: 0 }]);
    let expected: BTreeSet<(usize, usize)> =
        (0..3).flat_map(|y| (0..3).map(move |x| (y, x))).collect();
    assert_eq!(points, expected);
    let maze = Maze::new(2, 2);
    let mut overlay = MazeOverlay::new(2, 2);
    overlay.set_parent(2, Vec2i { x: 1, y: 1 }, Vec2i { x: 1, y: 0 });
    let points = overlay_update_points(&maze, &overlay, vec![Vec2i { x: 1, y: 1 }]);
    assert_eq!(points, BTreeSet::from([(3, 3), (2, 3)]));
    let compressed = compress_half_block_points(BTreeSet::from([(3, 1), (2, 1), (5, 0)]));
    assert_eq!(compressed, BTreeSet::from([(1, 1), (2, 0)]));
}

#[test]
fn terminal_sizes() {
    assert_eq!(maze_size_from_terminal(None, RenderStyle::Lines), (10, 6));
    assert_eq!(maze_size_from_terminal(Some((80, 24)), RenderStyle::Lines), (39, 11));
    assert_eq!(maze_size_from_terminal(Some((80, 24)), RenderStyle::HalfBlocks), (39, 22));
    assert_eq!(maze_size_from_terminal(Some((1, 1)), RenderStyle::Blocks), (1, 1));
    assert_eq!(maze_size_from_terminal(Some((1, 1)), RenderStyle::HalfBlocks), (1, 1));
}

#[test]
fn eller_builds_perfect_mazes_of_many_shapes() {
    for &(w, h) in &[(1usize, 1usize), (1, 6), (6, 1), (2, 2), (5, 3), (3, 7)] {
        for seed in [1u32, 0xE77E_E77E, 0x1234_5678] {
            let mut maze = Maze::new(w, h);
            let mut builder = EllerGen::new_with_seed(&maze, seed);
            while !builder.done() {
                builder.step(&mut maze);
            }
            assert_eq!(count_passages(&maze), w * h - 1);
        }
    }
}

#[test]
fn recursive_division_first_step_opens_every_wall() {
    let mut maze = Maze::new(5, 3);
    let mut builder = RecursiveDivision::new_with_seed(&maze, 7);
    let updated = builder.step(&mut maze);
    assert_eq!(updated.len(), 2 * 15 - 5 - 3);
    assert_eq!(count_passages(&maze), 2 * 15 - 5 - 3);
    let mut closed = 0;
    while !builder.done() {
        let pairs = builder.step(&mut maze);
        assert_eq!(pairs.len() % 2, 0);
        closed += pairs.len() / 2;
    }
    assert_eq!(closed, 2 * 15 - 5 - 3 - 14);
    assert_eq!(count_passages(&maze), 14);
}

#[test]
fn recursive_division_ignores_the_walls_it_starts_with() {
    let mut maze = perfect_maze(4, 5, 99);
    let mut builder = RecursiveDivision::new_with_seed(&maze, 0xC0DE_CAFE);
    while !builder.done() {
        builder.step(&mut maze);
    }
    assert_eq!(count_passages(&maze), 19);
}

#[test]
fn sidewinder_top_row_is_one_corridor() {
    for seed in [3u32, 0x5151_5151, 0xDEAD_BEEF] {
        let mut maze = Maze::new(6, 4);
        let mut builder = Sidewinder::new_with_seed(&maze, seed);
        while !builder.done() {
            builder.step(&mut maze);
        }
        for x in 0..5 {
            assert!(!maze.has_wall(Vec2i { x, y: 0 }, Dir::E));
        }
        assert_eq!(count_passages(&maze), 23);
    }
}

fn reachable_from_origin(maze: &Maze) -> usize {
    let mut seen = vec![false; maze.w * maze.h];
    let mut stack = vec![Vec2i { x: 0, y: 0 }];
    seen[0] = true;
    let mut count = 1;
    while let Some(c) = stack.pop() {
        for d in [Dir::N, Dir::E, Dir::S, Dir::W] {
            if maze.has_wall(c, d) {
                continue;
            }
            let n = maze.neighbor(c, d);
            if !maze.in_bounds(n) {
                continue;
            }
            let i = maze.idx(n);
            if !seen[i] {
                seen[i] = true;
                count += 1;
                stack.push(n);
            }
        }
    }
    count
}

fn run_to_end<B: BuildStrategy>(mut builder: B, maze: &mut Maze) {
    while !builder.done() {
        builder.step(maze);
    }
}

#[test]
fn every_builder_joins_every_cell() {
    let (w, h) = (6usize, 5usize);
    let n = w * h;
    let seeds = [3u32, 0x5EED_1234, 0xCAFE_BABE];
    for seed in seeds {
        let mut results: Vec<(&str, Maze, bool)> = Vec::new();
        let mut m = Maze::new(w, h);
        run_to_end(AldousBroder::new_with_seed(&m, seed), &mut m);
        results.push(("aldous", m, true));
        let mut m = Maze::new(w, h);
        run_to_end(BinaryTree::new_with_seed(&m, seed), &mut m);
        results.push(("binary", m, true));
        let mut m = Maze::new(w, h);
        run_to_end(BraidedMaze::new_with_seed(&m, seed), &mut m);
        results.push(("braided", m, false));
        let mut m = Maze::new(w, h);
        run_to_end(EllerGen::new_with_seed(&m, seed), &mut m);
        results.push(("eller", m, true));
        let mut m = Maze::new(w, h);
        run_to_end(GrowingTree::new_with_seed(&m, seed), &mut m);
        results.push(("growing", m, true));
        let mut m = Maze::new(w, h);
        run_to_end(HoustonGen::new_with_seed(&m, seed), &mut m);
        results.push(("houston", m, true));
        let mut m = Maze::new(w, h);
        run_to_end(HuntAndKill::new_with_seed(&m, seed), &mut m);
        results.push(("hunt", m, true));
        let mut m = Maze::new(w, h);
        run_to_end(KruskalGen::new_with_seed(&m, seed), &mut m);
        results.push(("kruskal", m, true));
        let mut m = Maze::new(w, h);
        run_to_end(OriginShift::new_with_seed(&m, seed), &mut m);
        results.push(("origin", m, true));
        let mut m = Maze::new(w, h);
        run_to_end(PrimGen::new_with_seed(&m, seed), &mut m);
        results.push(("prim", m, true));
        let mut m = Maze::new(w, h);
        run_to_end(RecursiveBacktracker::new_with_seed(&m, seed), &mut m);
        results.push(("backtracker", m, true));
        let mut m = Maze::new(w, h);
        run_to_end(RecursiveDivision::new_with_seed(&m, seed), &mut m);
        results.push(("division", m, true));
        let mut m = Maze::new(w, h);
        run_to_end(Sidewinder::new_with_seed(&m, seed), &mut m);
        results.push(("sidewinder", m, true));
        let mut m = Maze::new(w, h);
        run_to_end(SpiralBacktracker::new_with_seed(&m, seed), &mut m);
        results.push(("spiral", m, true));
        let mut m = Maze::new(w, h);
        run_to_end(WilsonGen::new_with_seed(&m, seed), &mut m);
        results.push(("wilson", m, true));
        for (name, maze, tree) in &results {
            assert_eq!(reachable_from_origin(maze), n, "{}", name);
            if *tree {
                assert_eq!(count_passages(maze), n - 1, "{}", name);
            }
        }
    }
}

fn walls_of(maze: &Maze) -> Vec<[bool; 4]> {
    maze.grid.iter().map(|c| c.wall).collect()
}

#[test]
fn random_neighbor_takes_the_first_draw_that_fits() {
    let maze = Maze::new(2, 2);
    let from = Vec2i { x: 0, y: 0 };
    for start in [1u32, 7, 12345, 0xDEAD_BEEF] {
        let mut expected_seed = start;
        let expected = loop {
            let d = match xorshift(&mut expected_seed) % 4 {
                0 => Dir::N,
                1 => Dir::E,
                2 => Dir::S,
                _ => Dir::W,
            };
            match d {
                Dir::E => break (d, Vec2i { x: 1, y: 0 }),
                Dir::S => break (d, Vec2i { x: 0, y: 1 }),
                _ => {}
            }
        };
        let mut seed = start;
        assert_eq!(random_neighbor(&maze, from, &mut seed), Some(expected));
        assert_eq!(seed, expected_seed);
    }
}

#[test]
fn running_steps_joins_the_outputs_of_single_steps() {
    let mut maze_a = Maze::new(4, 3);
    let mut maze_b = Maze::new(4, 3);
    let mut a = Builder::RecursiveBacktracker(RecursiveBacktracker::new_with_seed(&maze_a, 99));
    let mut b = Builder::RecursiveBacktracker(RecursiveBacktracker::new_with_seed(&maze_b, 99));
    let together = run_build_steps(&mut a, &mut maze_a, 5);
    let mut one_by_one = Vec::new();
    for _ in 0..5 {
        one_by_one.extend(b.step(&mut maze_b));
    }
    assert_eq!(together, one_by_one);
    assert_eq!(walls_of(&maze_a), walls_of(&maze_b));
    assert!(run_build_steps(&mut a, &mut maze_a, 0).is_empty());
    assert_eq!(walls_of(&maze_a), walls_of(&maze_b));
}

#[test]
fn wilson_on_two_cells_starts_a_walk_then_joins_it() {
    for seed in [1u32, 5, 0xFEED_BEEF] {
        let mut maze = Maze::new(2, 1);
        let mut builder = WilsonGen::new_with_seed(&maze, seed);
        assert!(builder.step(&mut maze).is_empty());
        assert!(!builder.done());
        let joined = builder.step(&mut maze);
        assert_eq!(joined, vec![Vec2i { x: 1, y: 0 }, Vec2i { x: 0, y: 0 }]);
        assert!(builder.done());
        assert_eq!(count_passages(&maze), 1);
    }
}

#[test]
fn eller_single_row_joins_then_finishes() {
    for seed in [3u32, 77, 0xABCD_1234] {
        let mut maze = Maze::new(2, 1);
        let mut builder = EllerGen::new_with_seed(&maze, seed);
        assert_eq!(builder.step(&mut maze), vec![Vec2i { x: 0, y: 0 }, Vec2i { x: 1, y: 0 }]);
        assert!(!builder.done());
        assert!(builder.step(&mut maze).is_empty());
        assert!(builder.done());
    }
}

#[test]
fn nanosecond_counts_select_positions_modulo_the_length() {
    assert_eq!(index_from_nanos(0, 5), 0);
    assert_eq!(index_from_nanos(17, 5), 2);
    assert_eq!(index_from_nanos(999_999_999, 1000), 999);
    assert!(random_index(3) < 3);
}

#[test]
fn a_step_back_from_the_edge_of_the_coordinates_is_allowed() {
    let maze = Maze::new(1, 1);
    let far = Vec2i { x: i32::MAX, y: i32::MIN };
    assert_eq!(maze.neighbor(far, Dir::W), Vec2i { x: i32::MAX - 1, y: i32::MIN });
    assert_eq!(maze.neighbor(far, Dir::S), Vec2i { x: i32::MAX, y: i32::MIN + 1 });
}

#[test]
fn finished_builders_leave_two_open_flags_per_passage() {
    let mut maze = Maze::new(5, 3);
    let mut builder = Builder::RecursiveBacktracker(RecursiveBacktracker::new_with_seed(&maze, 4242));
    while !builder.done() {
        builder.step(&mut maze);
    }
    let open_flags: usize = maze.grid.iter().map(|c| c.wall.iter().filter(|&&w| !w).count()).sum();
    assert_eq!(open_flags, 2 * 14);
    for x in 0..5 {
        assert!(maze.grid[x].wall[0]);
        assert!(maze.grid[2 * 5 + x].wall[2]);
    }
}

#[test]
fn white_space_table_matches_the_standard_library() {
    for u in 0u32..=0x10FFFF {
        if let Some(c) = char::from_u32(u) {
            assert_eq!(is_whitespace(c), c.is_whitespace(), "{u:#x}");
        }
    }
}

#[test]
fn binary_tree_carves_north_or_east_from_each_cell_in_turn() {
    for seed in [1u32, 0x2468_ACE0, 0xDEAD_BEEF] {
        let (w, h) = (3usize, 2usize);
        let mut maze = Maze::new(w, h);
        let mut builder = BinaryTree::new_with_seed(&maze, seed);
        let mut s = seed;
        for k in 0..w * h {
            assert!(!builder.done());
            let c = Vec2i { x: (k % w) as i32, y: (k / w) as i32 };
            let can_north = c.y > 0;
            let can_east = (c.x as usize) + 1 < w;
            let expected_dir = if can_north && can_east {
                if xorshift(&mut s) & 1 == 0 { Some(Dir::N) } else { Some(Dir::E) }
            } else if can_north {
                Some(Dir::N)
            } else if can_east {
                Some(Dir::E)
            } else {
                None
            };
            let updated = builder.step(&mut maze);
            match expected_dir {
                Some(Dir::N) => {
                    assert_eq!(updated, vec![c, Vec2i { x: c.x, y: c.y - 1 }]);
                    assert!(!maze.has_wall(c, Dir::N));
                }
                Some(_) => {
                    assert_eq!(updated, vec![c, Vec2i { x: c.x + 1, y: c.y }]);
                    assert!(!maze.has_wall(c, Dir::E));
                }
                None => assert_eq!(updated, vec![c]),
            }
            assert_eq!(builder.done(), k + 1 == w * h);
        }
        assert_eq!(count_passages(&maze), w * h - 1);
    }
}

#[test]
fn sidewinder_is_done_after_one_step_per_cell() {
    for (w, h) in [(1usize, 1usize), (4, 3), (1, 5), (6, 1)] {
        let mut maze = Maze::new(w, h);
        let mut builder = Sidewinder::new_with_seed(&maze, 0x5EED_0001);
        let mut steps = 0;
        while !builder.done() {
            builder.step(&mut maze);
            steps += 1;
        }
        assert_eq!(steps, w * h);
        assert_eq!(count_passages(&maze), w * h - 1);
    }
}

#[test]
fn eller_first_merge_follows_the_seeded_coin() {
    let mut merged = 0;
    for seed in [1u32, 2, 3, 4, 5, 6, 0xABCD_0001, 0x1357_9BDF] {
        let mut maze = Maze::new(2, 2);
        let mut builder = EllerGen::new_with_seed(&maze, seed);
        let mut s = seed;
        let coin = xorshift(&mut s) & 1 == 0;
        let first = builder.step(&mut maze);
        if coin {
            merged += 1;
            assert_eq!(first, vec![Vec2i { x: 0, y: 0 }, Vec2i { x: 1, y: 0 }]);
            assert!(!maze.has_wall(Vec2i { x: 0, y: 0 }, Dir::E));
        } else {
            assert_eq!(first, vec![Vec2i { x: 0, y: 0 }, Vec2i { x: 0, y: 1 }]);
            assert!(maze.has_wall(Vec2i { x: 0, y: 0 }, Dir::E));
        }
    }
    assert!(merged > 0 && merged < 8);
}

#[test]
fn recursive_division_splits_the_longer_side_at_the_seeded_line() {
    for seed in [7u32, 11, 0xC0FF_EE00] {
        let (w, h) = (5usize, 3usize);
        let mut maze = Maze::new(w, h);
        let mut builder = RecursiveDivision::new_with_seed(&maze, seed);
        builder.step(&mut maze);
        let mut s = seed;
        let r1 = xorshift(&mut s);
        let r2 = xorshift(&mut s);
        let split = 1 + (r1 as usize) % (w - 1);
        let gap = (r2 as usize) % h;
        let pairs = builder.step(&mut maze);
        assert_eq!(pairs.len(), 2 * (h - 1));
        let mut rows = BTreeSet::new();
        for pair in pairs.chunks(2) {
            let (a, b) = if pair[0].x < pair[1].x { (pair[0], pair[1]) } else { (pair[1], pair[0]) };
            assert_eq!(a.y, b.y);
            assert_eq!(a.x as usize, split - 1);
            assert_eq!(b.x as usize, split);
            assert!(maze.has_wall(a, Dir::E));
            rows.insert(a.y as usize);
        }
        let expected: BTreeSet<usize> = (0..h).filter(|&y| y != gap).collect();
        assert_eq!(rows, expected);
    }
}

#[test]
fn every_solver_records_open_parent_links_in_the_overlay() {
    let maze = perfect_maze(5, 4, 0x0DD_BA11);
    for idx in 0..3 {
        let mut solver = build_solver_at(idx, &maze);
        let mut overlay = MazeOverlay::new(maze.w, maze.h);
        let mut guard = 0;
        while !solver.done() {
            solver.step(&maze, &mut overlay);
            guard += 1;
            assert!(guard < 10_000);
        }
        let goal = Vec2i { x: (maze.w - 1) as i32, y: (maze.h - 1) as i32 };
        assert!(overlay.parent(maze.w, goal).is_some());
        for y in 0..maze.h {
            for x in 0..maze.w {
                let p = Vec2i { x: x as i32, y: y as i32 };
                if let Some(q) = overlay.parent(maze.w, p) {
                    let open = [Dir::N, Dir::S, Dir::W, Dir::E].iter().any(|&d| {
                        !maze.has_wall(p, d) && maze.neighbor(p, d) == q
                    });
                    assert!(open);
                }
            }
        }
    }
}

#[test]
fn phases_advance_when_their_work_is_done() {
    assert_eq!(next_phase(Phase::Build, false, true), Phase::Build);
    assert_eq!(next_phase(Phase::Build, true, false), Phase::Solve);
    assert_eq!(next_phase(Phase::Solve, true, false), Phase::Solve);
    assert_eq!(next_phase(Phase::Solve, false, true), Phase::Complete);
    assert_eq!(next_phase(Phase::Complete, false, false), Phase::Complete);
}

#[test]
fn generators_start_on_a_maze_with_open_walls() {
    let mut maze = perfect_maze(3, 2, 42);
    let eller = EllerGen::new_with_seed(&maze, 9);
    assert!(!eller.done());
    let wilson = WilsonGen::new_with_seed(&maze, 9);
    assert!(!wilson.done());
    let mut sidewinder = Sidewinder::new_with_seed(&maze, 9);
    let mut steps = 0;
    while !sidewinder.done() {
        sidewinder.step(&mut maze);
        steps += 1;
    }
    assert_eq!(steps, 6);
}

fn open_wall_set(maze: &Maze) -> BTreeSet<(i32, i32, u8)> {
    let mut open = BTreeSet::new();
    for y in 0..maze.h {
        for x in 0..maze.w {
            let p = Vec2i { x: x as i32, y: y as i32 };
            if !maze.has_wall(p, Dir::E) {
                open.insert((p.x, p.y, 0));
            }
            if !maze.has_wall(p, Dir::S) {
                open.insert((p.x, p.y, 1));
            }
        }
    }
    open
}

fn all_reachable(maze: &Maze) -> bool {
    let mut seen = vec![false; maze.w * maze.h];
    let mut stack = vec![Vec2i { x: 0, y: 0 }];
    seen[0] = true;
    while let Some(p) = stack.pop() {
        for d in [Dir::N, Dir::S, Dir::W, Dir::E] {
            if !maze.has_wall(p, d) {
                let q = maze.neighbor(p, d);
                if q.x >= 0 && q.y >= 0 && (q.x as usize) < maze.w && (q.y as usize) < maze.h {
                    let i = q.y as usize * maze.w + q.x as usize;
                    if !seen[i] {
                        seen[i] = true;
                        stack.push(q);
                    }
                }
            }
        }
    }
    seen.iter().all(|&s| s)
}

#[test]
fn origin_shift_moves_at_most_one_wall_per_step_after_the_snake() {
    let mut maze = Maze::new(4, 3);
    let mut builder = OriginShift::new_with_seed(&maze, 0x5EA5_0123);
    for _ in 0..11 {
        builder.step(&mut maze);
    }
    assert!(all_reachable(&maze));
    let mut guard = 0;
    while !builder.done() {
        let before = open_wall_set(&maze);
        builder.step(&mut maze);
        let after = open_wall_set(&maze);
        assert_eq!(after.len(), 11);
        assert!(before.difference(&after).count() <= 1);
        assert_eq!(before.difference(&after).count(), after.difference(&before).count());
        assert!(all_reachable(&maze));
        guard += 1;
        assert!(guard < 100_000);
    }
}

#[test]
fn solvers_mark_no_solution_when_the_goal_is_walled_off() {
    let maze = Maze::new(3, 3);
    for idx in 0..3 {
        let mut solver = build_solver_at(idx, &maze);
        let mut overlay = MazeOverlay::new(maze.w, maze.h);
        let mut guard = 0;
        while !solver.done() {
            solver.step(&maze, &mut overlay);
            guard += 1;
            assert!(guard < 1_000);
        }
        for y in 0..3 {
            for x in 0..3 {
                assert_ne!(overlay.get(maze.w, Vec2i { x, y }), CellMark::Solution);
            }
        }
    }
}
