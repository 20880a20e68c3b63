use gomoku::board::Color;
use gomoku::game_board::{EngineKind, GameBoard};
use gomoku::input::Command;
use gomoku::moveset::Move;
use gomoku::puzzle::Puzzle;
use gomoku::session::{dispatch, render_state, status_for, AppState};
use gomoku::tss::Proof;


#[test]
fn undo_with_empty_history_is_refused_not_panicked() {
    let mut state = AppState::new(EngineKind::Fast, false);
    let mut overlay = None;
    let msg = dispatch(
        &mut state,
        EngineKind::Fast,
        false,
        Command::Undo,
        &mut overlay,
    )
    .unwrap();
    assert_eq!(msg, "nothing to undo");
}

#[test]
fn undo_arms_through_dispatch() {
    let mut state = AppState::new(EngineKind::Naive, false);
    let mut overlay = None;
    dispatch(
        &mut state,
        EngineKind::Naive,
        false,
        Command::Play(Move::new(7, 7).unwrap()),
        &mut overlay,
    )
    .unwrap();

    let msg = dispatch(
        &mut state,
        EngineKind::Naive,
        false,
        Command::Undo,
        &mut overlay,
    )
    .unwrap();
    assert_eq!(msg, "undid the last move — Black to move");
}

#[test]
fn swap2_opening_place_undo_flow() {
    let mut state = AppState::new(EngineKind::Fast, true);
    let mut overlay = None;

    // First three stones.
    for &(r, c) in &[(7u8, 7u8), (6, 6), (5, 5)] {
        dispatch(
            &mut state,
            EngineKind::Fast,
            true,
            Command::Play(Move::new(r, c).unwrap()),
            &mut overlay,
        )
        .unwrap();
    }
    assert!(matches!(state, AppState::Opening(_)));

    // Undo from the first-choice prompt returns to the full placement.
    let msg = dispatch(
        &mut state,
        EngineKind::Fast,
        true,
        Command::Undo,
        &mut overlay,
    )
    .unwrap();
    assert!(msg.contains("3 stones placed"), "{msg}");

    // Finish and take Black as Player B.
    dispatch(
        &mut state,
        EngineKind::Fast,
        true,
        Command::Done,
        &mut overlay,
    )
    .unwrap();
    let msg = dispatch(
        &mut state,
        EngineKind::Fast,
        true,
        Command::TakeBlack,
        &mut overlay,
    )
    .unwrap();
    assert!(msg.contains("Swap2 done"), "{msg}");
    assert!(matches!(state, AppState::Normal(_, Some(_))));
}

#[test]
fn swap2_add_two_more_then_choose() {
    let mut state = AppState::new(EngineKind::Fast, true);
    let mut overlay = None;

    for &(r, c) in &[(7u8, 7u8), (6, 6), (5, 5)] {
        dispatch(
            &mut state,
            EngineKind::Fast,
            true,
            Command::Play(Move::new(r, c).unwrap()),
            &mut overlay,
        )
        .unwrap();
    }

    dispatch(
        &mut state,
        EngineKind::Fast,
        true,
        Command::AddStones,
        &mut overlay,
    )
    .unwrap();
    for &(r, c) in &[(4u8, 4u8), (3, 3)] {
        dispatch(
            &mut state,
            EngineKind::Fast,
            true,
            Command::Play(Move::new(r, c).unwrap()),
            &mut overlay,
        )
        .unwrap();
    }

    let msg = dispatch(
        &mut state,
        EngineKind::Fast,
        true,
        Command::TakeWhite,
        &mut overlay,
    )
    .unwrap();
    assert!(msg.contains("Swap2 done"), "{msg}");
}

fn dummy_puzzle(index: u32) -> Puzzle {
    Puzzle {
        name: format!("puzzle #{index}"),
        black: vec![Move::new(7, 7).unwrap()],
        white: vec![],
        to_move: Color::White,
        solution: None,
        depth: None,
    }
}

fn dummy_puzzle_with_line() -> Puzzle {
    // White to move; a three-move claimed line on empty cells.
    Puzzle {
        solution: Some(vec![
            Move::new(7, 8).unwrap(),
            Move::new(8, 8).unwrap(),
            Move::new(7, 9).unwrap(),
        ]),
        ..dummy_puzzle(0)
    }
}

#[test]
fn solution_step_walks_the_claimed_line() {
    let puzzles = vec![dummy_puzzle_with_line()];
    let mut state = AppState::new_puzzle(puzzles, 0);
    let mut overlay = None;

    for step in 1..=3 {
        let msg = dispatch(
            &mut state,
            EngineKind::Fast,
            false,
            Command::SolutionStep,
            &mut overlay,
        )
        .unwrap();
        assert_eq!(msg, format!("claimed line {step}/3"));
    }
    let AppState::Puzzle(p) = &state else {
        panic!("expected puzzle state");
    };
    assert_eq!(p.board().moves().len(), 3);

    let msg = dispatch(
        &mut state,
        EngineKind::Fast,
        false,
        Command::SolutionStep,
        &mut overlay,
    )
    .unwrap();
    assert_eq!(msg, "end of the claimed line");
}

#[test]
fn solution_step_without_line_is_refused() {
    let puzzles = vec![dummy_puzzle(0)];
    let mut state = AppState::new_puzzle(puzzles, 0);
    let mut overlay = None;
    let msg = dispatch(
        &mut state,
        EngineKind::Fast,
        false,
        Command::SolutionStep,
        &mut overlay,
    )
    .unwrap();
    assert_eq!(msg, "this puzzle has no claimed solution");
}

#[test]
fn solution_step_refuses_diverged_history_and_recovers_via_undo() {
    let puzzles = vec![dummy_puzzle_with_line()];
    let mut state = AppState::new_puzzle(puzzles, 0);
    let mut overlay = None;

    // Play a move that is NOT the claimed first move.
    dispatch(
        &mut state,
        EngineKind::Fast,
        false,
        Command::Play(Move::new(0, 0).unwrap()),
        &mut overlay,
    );
    let msg = dispatch(
        &mut state,
        EngineKind::Fast,
        false,
        Command::SolutionStep,
        &mut overlay,
    )
    .unwrap();
    assert!(msg.contains("diverged"), "{msg}");

    // Undo back to the root: stepping works again.
    dispatch(
        &mut state,
        EngineKind::Fast,
        false,
        Command::Undo,
        &mut overlay,
    );
    let msg = dispatch(
        &mut state,
        EngineKind::Fast,
        false,
        Command::SolutionStep,
        &mut overlay,
    )
    .unwrap();
    assert_eq!(msg, "claimed line 1/3");
}

#[test]
fn solution_step_is_puzzle_only() {
    let mut state = AppState::new(EngineKind::Fast, false);
    let mut overlay = None;
    let msg = dispatch(
        &mut state,
        EngineKind::Fast,
        false,
        Command::SolutionStep,
        &mut overlay,
    )
    .unwrap();
    assert!(msg.contains("only available in puzzle mode"), "{msg}");
}

#[test]
fn puzzle_navigation_wraps_around() {
    let puzzles = vec![dummy_puzzle(0), dummy_puzzle(1), dummy_puzzle(2)];
    let mut state = AppState::new_puzzle(puzzles, 0);
    let mut overlay = None;

    dispatch(
        &mut state,
        EngineKind::Fast,
        false,
        Command::PrevPuzzle,
        &mut overlay,
    )
    .unwrap();
    let AppState::Puzzle(p) = &state else {
        panic!("expected puzzle state");
    };
    assert_eq!(p.index(), 2);

    dispatch(
        &mut state,
        EngineKind::Fast,
        false,
        Command::NextPuzzle,
        &mut overlay,
    )
    .unwrap();
    let AppState::Puzzle(p) = &state else {
        panic!("expected puzzle state");
    };
    assert_eq!(p.index(), 0);
}

#[test]
fn puzzle_reset_clears_history() {
    let puzzles = vec![dummy_puzzle(0)];
    let mut state = AppState::new_puzzle(puzzles, 0);
    let mut overlay = None;

    dispatch(
        &mut state,
        EngineKind::Fast,
        false,
        Command::Play(Move::new(7, 8).unwrap()),
        &mut overlay,
    )
    .unwrap();
    let AppState::Puzzle(p) = &state else {
        panic!("expected puzzle state");
    };
    assert_eq!(p.board().moves().len(), 1);

    // Undo once so a redo stack exists; reset must clear it too.
    dispatch(
        &mut state,
        EngineKind::Fast,
        false,
        Command::Undo,
        &mut overlay,
    );
    let AppState::Puzzle(p) = &state else {
        panic!("expected puzzle state");
    };
    assert!(p.board().can_redo());

    dispatch(
        &mut state,
        EngineKind::Fast,
        false,
        Command::New,
        &mut overlay,
    );
    let AppState::Puzzle(p) = &state else {
        panic!("expected puzzle state");
    };
    assert!(p.board().moves().is_empty());
    assert!(!p.board().can_redo());
}

#[test]
fn help_and_quit_are_global() {
    let mut state = AppState::new(EngineKind::Fast, true);
    let mut overlay: Option<Proof> = None;
    let help = dispatch(&mut state, EngineKind::Fast, true, Command::Help, &mut overlay).unwrap();
    assert!(help.contains("'d' done"), "{help}");
    assert!(dispatch(&mut state, EngineKind::Fast, true, Command::Quit, &mut overlay).is_none());
    let msg = dispatch(&mut state, EngineKind::Fast, true, Command::New, &mut overlay).unwrap();
    assert_eq!(msg, "Swap2 opening \u{2014} Player A places two Black and one White stone");
}

#[test]
fn normal_play_reports_errors_and_mode_mistakes() {
    let mut state = AppState::new(EngineKind::Naive, false);
    let mut overlay: Option<Proof> = None;
    let mv = Move::new(7, 7).unwrap();
    assert_eq!(
        dispatch(&mut state, EngineKind::Naive, false, Command::Play(mv), &mut overlay).unwrap(),
        ""
    );
    assert_eq!(
        dispatch(&mut state, EngineKind::Naive, false, Command::Play(mv), &mut overlay).unwrap(),
        "Cell is already occupied."
    );
    assert_eq!(
        dispatch(&mut state, EngineKind::Naive, false, Command::TakeBlack, &mut overlay).unwrap(),
        "that command is only available during the Swap2 opening"
    );
    assert_eq!(
        dispatch(&mut state, EngineKind::Naive, false, Command::Tss, &mut overlay).unwrap(),
        "TSS demo requires the fast engine"
    );
    assert_eq!(
        dispatch(&mut state, EngineKind::Naive, false, Command::Redo, &mut overlay).unwrap(),
        "nothing to redo"
    );
    assert_eq!(status_for(&state), "engine: naive \u{b7} move 1 \u{b7} White to move");
    assert_eq!(render_state(&state, None, false).len(), 19);
}

#[test]
fn tss_demo_toggles_an_overlay() {
    let mut state = AppState::new(EngineKind::Fast, false);
    let mut overlay: Option<Proof> = None;
    let script = [
        (7, 4),
        (7, 3),
        (7, 5),
        (0, 0),
        (7, 6),
        (0, 2),
        (6, 6),
        (0, 4),
        (8, 8),
        (0, 6),
    ];
    for (r, c) in script {
        dispatch(&mut state, EngineKind::Fast, false, Command::Play(Move::new(r, c).unwrap()), &mut overlay).unwrap();
    }
    let msg = dispatch(&mut state, EngineKind::Fast, false, Command::Tss, &mut overlay).unwrap();
    assert!(msg.starts_with("certified forced win for Black in "), "{msg}");
    assert!(overlay.is_some());
    let lines = render_state(&state, overlay.as_ref(), false);
    assert!(lines.iter().all(|l| l.chars().count() == 68));
    let msg = dispatch(&mut state, EngineKind::Fast, false, Command::Tss, &mut overlay).unwrap();
    assert_eq!(msg, "TSS overlay hidden");
    assert!(overlay.is_none());
}

#[test]
fn opening_messages_walk_the_phases() {
    let mut state = AppState::new(EngineKind::Fast, true);
    let mut overlay: Option<Proof> = None;
    assert_eq!(status_for(&state), "Player A: place Black (2 remain) \u{2014} enter row col \u{b7} [u] undo");
    let msg = dispatch(&mut state, EngineKind::Fast, true, Command::Play(Move::new(7, 7).unwrap()), &mut overlay).unwrap();
    assert_eq!(msg, "Player A placed Black at (7, 7) \u{2014} 1 more Black to place");
    let msg = dispatch(&mut state, EngineKind::Fast, true, Command::AddStones, &mut overlay).unwrap();
    assert_eq!(msg, "'a' is only available when choosing after the first three stones");
    let msg = dispatch(&mut state, EngineKind::Fast, true, Command::TakeWhite, &mut overlay).unwrap();
    assert_eq!(msg, "choose a color at the Swap2 prompt: 'b' or 'w'");
    let msg = dispatch(&mut state, EngineKind::Fast, true, Command::Done, &mut overlay).unwrap();
    assert_eq!(msg, "no stones left to place in this phase \u{2014} type a move or 'u'");
}
