use vstd::prelude::*;

use crate::builders::{BuildStrategy, Builder};
use crate::solvers::{SolveStrategy, Solver};
use crate::types::{Maze, MazeOverlay, Vec2i, lemma_outer_walls_same_trans, outer_walls_same};

verus! {

/// A key press, from least to most urgent.
#[derive(Clone, Copy, PartialEq, Eq, Structural, Debug)]
pub enum Input {
    Nothing,
    SkipSecond,
    Advance,
    TogglePause,
    CycleBuilder,
    CyclePrevBuilder,
    RandomBuilder,
    NewMaze,
    Quit,
}

/// How urgent an input is: the later in the list, the more.
pub open spec fn rank(i: Input) -> int {
    match i {
        Input::Nothing => 0,
        Input::SkipSecond => 1,
        Input::Advance => 2,
        Input::TogglePause => 3,
        Input::CycleBuilder => 4,
        Input::CyclePrevBuilder => 5,
        Input::RandomBuilder => 6,
        Input::NewMaze => 7,
        Input::Quit => 8,
    }
}

pub fn input_rank(i: Input) -> (r: u8)
    ensures
        r == rank(i),
{
    match i {
        Input::Nothing => 0,
        Input::SkipSecond => 1,
        Input::Advance => 2,
        Input::TogglePause => 3,
        Input::CycleBuilder => 4,
        Input::CyclePrevBuilder => 5,
        Input::RandomBuilder => 6,
        Input::NewMaze => 7,
        Input::Quit => 8,
    }
}

/// What a single key means: Ctrl-D, Esc, q and Q quit; n and N start a new maze; r and R go
/// back to random generators; b and B cycle the generators forward and back; p and P pause;
/// `.` advances one step.
pub open spec fn key_meaning(b: u8) -> Input {
    if b == 4 || b == 27 || b == 0x71 || b == 0x51 {
        Input::Quit
    } else if b == 0x6e || b == 0x4e {
        Input::NewMaze
    } else if b == 0x72 || b == 0x52 {
        Input::RandomBuilder
    } else if b == 0x62 {
        Input::CycleBuilder
    } else if b == 0x42 {
        Input::CyclePrevBuilder
    } else if b == 0x70 || b == 0x50 {
        Input::TogglePause
    } else if b == 0x2e {
        Input::Advance
    } else {
        Input::Nothing
    }
}

/// Letter keys do not depend on case, except `b` and `B`, which cycle the generators in
/// opposite directions: for every upper-case ASCII letter other than `B`, the letter and its
/// lower-case form mean the same. The command letters are q, n, r, b/B and p: every other
/// letter means nothing, and each of q, n, r, p means something different.
pub proof fn lemma_keys_ignore_case()
    ensures
        forall|b: u8| 0x41 <= b <= 0x5a && b != 0x42 ==> #[trigger] key_meaning(b) == key_meaning(
            (b + 0x20) as u8,
        ),
        key_meaning(0x62) == Input::CycleBuilder && key_meaning(0x42) == Input::CyclePrevBuilder,
        forall|b: u8|
            0x61 <= b <= 0x7a && b != 0x71 && b != 0x6e && b != 0x72 && b != 0x62 && b != 0x70
                ==> #[trigger] key_meaning(b) == Input::Nothing,
        key_meaning(0x71) == Input::Quit,
        key_meaning(0x6e) == Input::NewMaze,
        key_meaning(0x72) == Input::RandomBuilder,
        key_meaning(0x70) == Input::TogglePause,
{
}

/// A single byte read on its own decodes to what that key means: any byte, escape included
/// (there is no room for an arrow sequence), gives `key_meaning` of it.
pub proof fn lemma_single_key_decodes(b: u8)
    ensures
        scan_input(seq![b], 0, Input::Nothing) == key_meaning(b),
{
    assert(scan_input(seq![b], 1, more_urgent(Input::Nothing, key_meaning(b))) == more_urgent(
        Input::Nothing,
        key_meaning(b),
    ));
    assert(rank(Input::Nothing) == 0);
}

pub fn key_input(b: u8) -> (i: Input)
    ensures
        i == key_meaning(b),
{
    if b == 4 || b == 27 || b == 0x71 || b == 0x51 {
        Input::Quit
    } else if b == 0x6e || b == 0x4e {
        Input::NewMaze
    } else if b == 0x72 || b == 0x52 {
        Input::RandomBuilder
    } else if b == 0x62 {
        Input::CycleBuilder
    } else if b == 0x42 {
        Input::CyclePrevBuilder
    } else if b == 0x70 || b == 0x50 {
        Input::TogglePause
    } else if b == 0x2e {
        Input::Advance
    } else {
        Input::Nothing
    }
}

/// The more urgent of two inputs (the first when they are equally urgent).
pub open spec fn more_urgent(a: Input, b: Input) -> Input {
    if rank(b) > rank(a) {
        b
    } else {
        a
    }
}

/// The most urgent input among the bytes from position `i` on, starting from `best`: an
/// escape, `[` and a third byte form one arrow key (right arrow skips a second, the others
/// mean nothing); any other byte is a key on its own.
pub open spec fn scan_input(bytes: Seq<u8>, i: int, best: Input) -> Input
    decreases bytes.len() - i,
{
    if i >= bytes.len() || i < 0 {
        best
    } else if bytes[i] == 0x1b && i + 2 < bytes.len() && bytes[i + 1] == 0x5b {
        let arrow = if bytes[i + 2] == 0x43 {
            Input::SkipSecond
        } else {
            Input::Nothing
        };
        scan_input(bytes, i + 3, more_urgent(best, arrow))
    } else {
        scan_input(bytes, i + 1, more_urgent(best, key_meaning(bytes[i])))
    }
}

/// Scanning bytes without escapes from position `i` on, starting from `best`, ends at an
/// input at least as urgent as `best` and as every key scanned, and that is `best` itself or
/// the meaning of one of those keys.
proof fn lemma_scan_most_urgent(bytes: Seq<u8>, i: int, best: Input)
    requires
        0 <= i <= bytes.len(),
        forall|j: int| i <= j < bytes.len() ==> bytes[j] != 0x1b,
    ensures
        rank(scan_input(bytes, i, best)) >= rank(best),
        forall|j: int|
            i <= j < bytes.len() ==> rank(scan_input(bytes, i, best)) >= rank(#[trigger] key_meaning(bytes[j])),
        scan_input(bytes, i, best) == best || exists|j: int|
            i <= j < bytes.len() && scan_input(bytes, i, best) == #[trigger] key_meaning(bytes[j]),
    decreases bytes.len() - i,
{
    if i < bytes.len() {
        let next = more_urgent(best, key_meaning(bytes[i]));
        lemma_scan_most_urgent(bytes, i + 1, next);
        let r = scan_input(bytes, i, best);
        assert(r == scan_input(bytes, i + 1, next));
        if r != best && r != next {
            let j = choose|j: int| i + 1 <= j < bytes.len() && r == #[trigger] key_meaning(bytes[j]);
            assert(i <= j < bytes.len() && r == key_meaning(bytes[j]));
        }
        if r == next && next != best {
            assert(r == key_meaning(bytes[i]));
        }
    }
}

/// Bytes read in one go without escape sequences decode to their most urgent key: the
/// result is at least as urgent as what every byte means, and it is what one of the bytes
/// means (or nothing, when there are no bytes).
pub proof fn lemma_decode_picks_most_urgent(bytes: Seq<u8>)
    requires
        forall|j: int| 0 <= j < bytes.len() ==> bytes[j] != 0x1b,
    ensures
        forall|j: int|
            0 <= j < bytes.len() ==> rank(scan_input(bytes, 0, Input::Nothing)) >= rank(
                #[trigger] key_meaning(bytes[j]),
            ),
        bytes.len() == 0 ==> scan_input(bytes, 0, Input::Nothing) == Input::Nothing,
        bytes.len() > 0 ==> exists|j: int|
            0 <= j < bytes.len() && scan_input(bytes, 0, Input::Nothing) == #[trigger] key_meaning(bytes[j]),
{
    lemma_scan_most_urgent(bytes, 0, Input::Nothing);
    if bytes.len() > 0 && scan_input(bytes, 0, Input::Nothing) == Input::Nothing {
        assert(rank(scan_input(bytes, 0, Input::Nothing)) >= rank(key_meaning(bytes[0])));
        assert(key_meaning(bytes[0]) == Input::Nothing);
    }
}

/// The most urgent input among the bytes read from the terminal in one go.
pub fn decode_input(bytes: &Vec<u8>) -> (r: Input)
    ensures
        r == scan_input(bytes@, 0, Input::Nothing),
        bytes@.len() == 1 ==> r == key_meaning(bytes@[0]),
        (forall|j: int| 0 <= j < bytes@.len() ==> bytes@[j] != 0x1b) ==> {
            &&& forall|j: int| 0 <= j < bytes@.len() ==> rank(r) >= rank(#[trigger] key_meaning(bytes@[j]))
            &&& bytes@.len() > 0 ==> exists|j: int| 0 <= j < bytes@.len() && r == #[trigger] key_meaning(bytes@[j])
        },
{
    proof {
        if forall|j: int| 0 <= j < bytes@.len() ==> bytes@[j] != 0x1b {
            lemma_decode_picks_most_urgent(bytes@);
        }
        if bytes@.len() == 1 {
            lemma_single_key_decodes(bytes@[0]);
            assert(bytes@ =~= seq![bytes@[0]]);
        }
    }
    let mut result = Input::Nothing;
    let mut i: usize = 0;
    while i < bytes.len()
        invariant
            i <= bytes@.len() + 2,
            scan_input(bytes@, i as int, result) == scan_input(bytes@, 0, Input::Nothing),
        decreases bytes@.len() - i,
    {
        let input = if bytes[i] == 0x1b && bytes.len() - i > 2 && bytes[i + 1] == 0x5b {
            let arrow = if bytes[i + 2] == 0x43 {
                Input::SkipSecond
            } else {
                Input::Nothing
            };
            i = i + 3;
            arrow
        } else {
            let key = key_input(bytes[i]);
            i = i + 1;
            key
        };
        if input_rank(input) > input_rank(result) {
            result = input;
        }
    }
    result
}

/// What the program is doing with the current maze.
#[derive(Clone, Copy, PartialEq, Eq, Structural, Debug)]
pub enum Phase {
    Build,
    Solve,
    Complete,
}

/// The phase that follows `phase` at the top of a round of the animation: a build that has
/// finished moves on to solving, a solver that has finished (or is missing) completes the
/// maze, and otherwise the phase stays.
pub open spec fn phase_after(phase: Phase, builder_done: bool, solver_done: bool) -> Phase {
    match phase {
        Phase::Build => if builder_done {
            Phase::Solve
        } else {
            Phase::Build
        },
        Phase::Solve => if solver_done {
            Phase::Complete
        } else {
            Phase::Solve
        },
        Phase::Complete => Phase::Complete,
    }
}

/// Decides the next phase (see `phase_after`).
pub fn next_phase(phase: Phase, builder_done: bool, solver_done: bool) -> (r: Phase)
    ensures
        r == phase_after(phase, builder_done, solver_done),
{
    match phase {
        Phase::Build => if builder_done {
            Phase::Solve
        } else {
            Phase::Build
        },
        Phase::Solve => if solver_done {
            Phase::Complete
        } else {
            Phase::Solve
        },
        Phase::Complete => Phase::Complete,
    }
}

/// The state that key presses change.
#[derive(Clone, Copy, PartialEq, Eq, Structural, Debug)]
pub struct Session {
    pub phase: Phase,
    pub paused: bool,
    pub random_mode: bool,
    pub builder_idx: Option<usize>,
}

/// What the program does about a key press, besides starting a new maze.
#[derive(Clone, Copy, PartialEq, Eq, Structural, Debug)]
pub enum Action {
    Nothing,
    Quit,
    ShowFooter,
    SkipSecond,
    AdvanceOne,
}

/// Updates the session for an input and says what to do: quit; start a new maze (on a new
/// maze request, keeping the generator unless in random mode; on cycling, with the next or
/// previous generator and random mode off; on a return to random mode; or when a maze is
/// complete and no key was pressed); toggle the pause and redraw the footer while building or
/// solving; skip a second; or, while paused, advance one step.
pub fn react(session: &mut Session, input: Input, builder_count: usize) -> (r: (Action, bool))
    requires
        1 <= builder_count <= usize::MAX / 2,
        old(session).builder_idx matches Some(i) ==> i < builder_count,
    ensures
        final(session).builder_idx matches Some(i) ==> i < builder_count,
        r.1 == (input == Input::NewMaze || input == Input::CycleBuilder || input
            == Input::CyclePrevBuilder || input == Input::RandomBuilder || (old(session).phase
            == Phase::Complete && input == Input::Nothing)),
        final(session).phase == old(session).phase,
        input == Input::Quit ==> r.0 == Action::Quit && *final(session) == *old(session),
        input == Input::NewMaze ==> r.0 == Action::Nothing && *final(session) == (Session {
            builder_idx: if old(session).random_mode {
                None
            } else {
                old(session).builder_idx
            },
            ..*old(session)
        }),
        input == Input::CycleBuilder ==> r.0 == Action::Nothing && *final(session) == (Session {
            builder_idx: Some(
                match old(session).builder_idx {
                    Some(i) => ((i + 1) % (builder_count as int)) as usize,
                    None => 0,
                },
            ),
            random_mode: false,
            ..*old(session)
        }),
        input == Input::CyclePrevBuilder ==> r.0 == Action::Nothing && *final(session) == (Session {
            builder_idx: Some(
                match old(session).builder_idx {
                    Some(i) => ((i + builder_count - 1) % (builder_count as int)) as usize,
                    None => (builder_count - 1) as usize,
                },
            ),
            random_mode: false,
            ..*old(session)
        }),
        input == Input::RandomBuilder ==> r.0 == Action::Nothing && *final(session) == (Session {
            builder_idx: None,
            random_mode: true,
            ..*old(session)
        }),
        input == Input::TogglePause ==> *final(session) == (Session {
            paused: !old(session).paused,
            ..*old(session)
        }) && r.0 == if old(session).phase == Phase::Complete {
            Action::Nothing
        } else {
            Action::ShowFooter
        },
        input == Input::SkipSecond ==> *final(session) == *old(session) && r.0 == if old(
            session,
        ).phase == Phase::Complete {
            Action::Nothing
        } else {
            Action::SkipSecond
        },
        input == Input::Advance ==> *final(session) == *old(session) && r.0 == if old(
            session,
        ).paused && old(session).phase != Phase::Complete {
            Action::AdvanceOne
        } else {
            Action::Nothing
        },
        input == Input::Nothing ==> *final(session) == *old(session) && r.0 == Action::Nothing,
{
    let mut start_new_maze = session.phase == Phase::Complete && input == Input::Nothing;
    let action = match input {
        Input::Quit => {
            return (Action::Quit, false);
        },
        Input::NewMaze => {
            if session.random_mode {
                session.builder_idx = None;
            }
            start_new_maze = true;
            Action::Nothing
        },
        Input::CycleBuilder => {
            session.builder_idx = Some(
                match session.builder_idx {
                    Some(i) => (i + 1) % builder_count,
                    None => 0,
                },
            );
            session.random_mode = false;
            start_new_maze = true;
            Action::Nothing
        },
        Input::CyclePrevBuilder => {
            session.builder_idx = Some(
                match session.builder_idx {
                    Some(i) => (i + builder_count - 1) % builder_count,
                    None => builder_count - 1,
                },
            );
            session.random_mode = false;
            start_new_maze = true;
            Action::Nothing
        },
        Input::RandomBuilder => {
            session.builder_idx = None;
            session.random_mode = true;
            start_new_maze = true;
            Action::Nothing
        },
        Input::TogglePause => {
            session.paused = !session.paused;
            match session.phase {
                Phase::Complete => Action::Nothing,
                _ => Action::ShowFooter,
            }
        },
        Input::SkipSecond => match session.phase {
            Phase::Complete => Action::Nothing,
            _ => Action::SkipSecond,
        },
        Input::Advance => {
            if session.paused && session.phase != Phase::Complete {
                Action::AdvanceOne
            } else {
                Action::Nothing
            }
        },
        Input::Nothing => Action::Nothing,
    };
    (action, start_new_maze)
}

/// Appends `s` to `out`.
fn append_str(out: &mut String, s: &str)
    ensures
        final(out)@ == old(out)@ + s@,
{
    out.append(s);
}

/// The left part of the status line: phase and strategy, then the tags for random choice and
/// pause.
pub fn footer_left(phase: &str, strat: &str, random: bool, paused: bool) -> (s: String)
    ensures
        s@ == phase@ + ": "@ + strat@ + (if random {
            " (random)"@
        } else {
            Seq::<char>::empty()
        }) + (if paused {
            "  [PAUSED]"@
        } else {
            Seq::<char>::empty()
        }),
{
    let mut s = String::from_str(phase);
    append_str(&mut s, ": ");
    append_str(&mut s, strat);
    if random {
        append_str(&mut s, " (random)");
    }
    if paused {
        append_str(&mut s, "  [PAUSED]");
    }
    s
}

/// The outputs of a run of steps joined in order.
pub open spec fn joined_outputs(outs: Seq<Seq<Vec2i>>) -> Seq<Vec2i>
    decreases outs.len(),
{
    if outs.len() == 0 {
        Seq::empty()
    } else {
        joined_outputs(outs.drop_last()) + outs.last()
    }
}

/// A run of steps of a generator: `states[i]` is the generator and the maze after `i`
/// steps and `outs[i]` what step `i` returned; each step was taken while the generator was
/// not done, and did what `Builder::step` promises.
pub open spec fn build_run(states: Seq<(Builder, Maze)>, outs: Seq<Seq<Vec2i>>) -> bool
    decreases outs.len(),
{
    &&& states.len() == outs.len() + 1
    &&& outs.len() > 0 ==> {
        let k = outs.len() - 1;
        &&& build_run(states.drop_last(), outs.drop_last())
        &&& !states[k].0.is_done()
        &&& states[k].0.step_post(states[k + 1].0, states[k].1, states[k + 1].1, outs[k])
    }
}

/// A run of steps of a solver on `maze`: `states[i]` is the solver and the overlay after
/// `i` steps and `outs[i]` what step `i` returned; each step was taken while the solver was
/// not done, and did what `Solver::step` promises.
pub open spec fn solve_run(maze: Maze, states: Seq<(Solver, MazeOverlay)>, outs: Seq<Seq<Vec2i>>) -> bool
    decreases outs.len(),
{
    &&& states.len() == outs.len() + 1
    &&& outs.len() > 0 ==> {
        let k = outs.len() - 1;
        &&& solve_run(maze, states.drop_last(), outs.drop_last())
        &&& !states[k].0.is_done()
        &&& states[k].0.step_post(states[k + 1].0, maze, states[k].1, states[k + 1].1, outs[k])
    }
}

/// Runs up to `n` steps of the generator, stopping early once it is done, and returns the
/// cells that the steps changed, in order.
pub fn run_build_steps(builder: &mut Builder, maze: &mut Maze, n: usize) -> (updated: Vec<Vec2i>)
    requires
        old(builder).inv(old(maze)),
    ensures
        final(builder).inv(final(maze)),
        final(maze).w == old(maze).w,
        final(maze).h == old(maze).h,
        old(builder).is_done() ==> updated@.len() == 0 && *final(maze) == *old(maze),
        outer_walls_same(*old(maze), *final(maze)),
        exists|states: Seq<(Builder, Maze)>, outs: Seq<Seq<Vec2i>>|
            {
                &&& #[trigger] build_run(states, outs)
                &&& states[0] == (*old(builder), *old(maze))
                &&& states.last() == (*final(builder), *final(maze))
                &&& outs.len() <= n
                &&& outs.len() < n ==> final(builder).is_done()
                &&& updated@ == joined_outputs(outs)
            },
{
    let mut updated: Vec<Vec2i> = Vec::new();
    let mut k: usize = 0;
    let ghost mut states: Seq<(Builder, Maze)> = seq![(*builder, *maze)];
    let ghost mut outs: Seq<Seq<Vec2i>> = Seq::empty();
    while k < n
        invariant
            builder.inv(maze),
            maze.w == old(maze).w,
            maze.h == old(maze).h,
            old(builder).is_done() ==> updated@.len() == 0 && *maze == *old(maze) && *builder
                == *old(builder),
            build_run(states, outs),
            outer_walls_same(*old(maze), *maze),
            states[0] == (*old(builder), *old(maze)),
            states.last() == (*builder, *maze),
            outs.len() == k,
            k <= n,
            updated@ == joined_outputs(outs),
        ensures
            k >= n || builder.is_done(),
        decreases n - k,
    {
        if builder.done() {
            break;
        }
        let ghost s0 = states;
        let ghost o0 = outs;
        let ghost b0 = *builder;
        let ghost m0 = *maze;
        let mut more = builder.step(maze);
        proof {
            assert(b0.step_post(*builder, m0, *maze, more@));
            lemma_outer_walls_same_trans(*old(maze), m0, *maze);
            assert(!b0.is_done());
            states = states.push((*builder, *maze));
            outs = outs.push(more@);
            assert(outs.drop_last() =~= o0);
            assert(states.drop_last() =~= s0);
            assert(states[s0.len() - 1] == (b0, m0));
        }
        updated.append(&mut more);
        k = k + 1;
    }
    updated
}

/// Runs up to `n` steps of the solver, stopping early once it is done, and returns the cells
/// whose drawing the steps changed, in order.
pub fn run_solve_steps(solver: &mut Solver, maze: &Maze, overlay: &mut MazeOverlay, n: usize) -> (updated: Vec<Vec2i>)
    requires
        old(solver).inv(maze, old(overlay)),
    ensures
        final(solver).inv(maze, final(overlay)),
        old(solver).is_done() ==> updated@.len() == 0 && *final(overlay) == *old(overlay),
        exists|states: Seq<(Solver, MazeOverlay)>, outs: Seq<Seq<Vec2i>>|
            {
                &&& #[trigger] solve_run(*maze, states, outs)
                &&& states[0] == (*old(solver), *old(overlay))
                &&& states.last() == (*final(solver), *final(overlay))
                &&& outs.len() <= n
                &&& outs.len() < n ==> final(solver).is_done()
                &&& updated@ == joined_outputs(outs)
            },
{
    let mut updated: Vec<Vec2i> = Vec::new();
    let mut k: usize = 0;
    let ghost mut states: Seq<(Solver, MazeOverlay)> = seq![(*solver, *overlay)];
    let ghost mut outs: Seq<Seq<Vec2i>> = Seq::empty();
    while k < n
        invariant
            solver.inv(maze, overlay),
            old(solver).is_done() ==> updated@.len() == 0 && *overlay == *old(overlay) && *solver
                == *old(solver),
            solve_run(*maze, states, outs),
            states[0] == (*old(solver), *old(overlay)),
            states.last() == (*solver, *overlay),
            outs.len() == k,
            k <= n,
            updated@ == joined_outputs(outs),
        ensures
            k >= n || solver.is_done(),
        decreases n - k,
    {
        if solver.done() {
            break;
        }
        let ghost s0 = states;
        let ghost o0 = outs;
        let ghost v0 = *solver;
        let ghost ov0 = *overlay;
        let mut more = solver.step(maze, overlay);
        proof {
            assert(v0.step_post(*solver, *maze, ov0, *overlay, more@));
            assert(!v0.is_done());
            states = states.push((*solver, *overlay));
            outs = outs.push(more@);
            assert(outs.drop_last() =~= o0);
            assert(states.drop_last() =~= s0);
            assert(states[s0.len() - 1] == (v0, ov0));
        }
        updated.append(&mut more);
        k = k + 1;
    }
    updated
}

} // verus!
