use gomoku::board::Color;
use gomoku::moveset::Move;
use gomoku::opening::{Holders, OpeningPhase, OpeningState, Party};


fn mv(r: u8, c: u8) -> Move {
    Move::new(r, c).unwrap()
}

#[test]
fn placing3_fixed_order_black_black_white() {
    let mut s = OpeningState::new();
    assert_eq!(s.current_color(), Some(Color::Black));
    s.place(mv(7, 7)).unwrap();
    assert_eq!(s.current_color(), Some(Color::Black));
    s.place(mv(6, 6)).unwrap();
    assert_eq!(s.current_color(), Some(Color::White));
    s.place(mv(5, 5)).unwrap();
    assert_eq!(s.phase(), OpeningPhase::FirstChoice);
}

#[test]
fn first_choice_take_colors() {
    let mut s = OpeningState::new();
    for m in [mv(7, 7), mv(6, 6), mv(5, 5)] {
        s.place(m).unwrap();
    }

    let outcome = s.clone().choose_color(Color::Black).unwrap();
    assert_eq!(outcome.black_holder, Party::B);
    assert_eq!(outcome.white_holder, Party::A);
    assert_eq!(outcome.board.to_move(), Color::White);

    let outcome = s.choose_color(Color::White).unwrap();
    assert_eq!(outcome.black_holder, Party::A);
    assert_eq!(outcome.white_holder, Party::B);
}

#[test]
fn add_two_more_then_final_choice() {
    let mut s = OpeningState::new();
    for m in [mv(7, 7), mv(6, 6), mv(5, 5)] {
        s.place(m).unwrap();
    }
    s = s.add_two_more().unwrap();
    assert_eq!(s.phase(), OpeningPhase::Placing2);
    s.place(mv(4, 4)).unwrap();
    s.place(mv(3, 3)).unwrap();
    assert_eq!(s.phase(), OpeningPhase::FinalChoice);

    let outcome = s.choose_color(Color::Black).unwrap();
    assert_eq!(outcome.black_holder, Party::A);
    assert_eq!(outcome.white_holder, Party::B);
}

#[test]
fn undo_from_choice_returns_to_full_placement() {
    let mut s = OpeningState::new();
    for m in [mv(7, 7), mv(6, 6), mv(5, 5)] {
        s.place(m).unwrap();
    }
    assert_eq!(s.phase(), OpeningPhase::FirstChoice);

    s.undo();
    assert_eq!(s.phase(), OpeningPhase::Placing3);
    assert_eq!(s.placements().len(), 3);

    // From the full placement phase, finish returns to the choice.
    s.finish().unwrap();
    assert_eq!(s.phase(), OpeningPhase::FirstChoice);
}

#[test]
fn undo_during_placing3_removes_last_stone() {
    let mut s = OpeningState::new();
    s.place(mv(7, 7)).unwrap();
    s.place(mv(6, 6)).unwrap();
    s.undo();
    assert_eq!(s.placements().len(), 1);
    assert_eq!(s.current_color(), Some(Color::Black));
}

#[test]
fn undo_from_placing2_boundary_returns_to_first_choice() {
    let mut s = OpeningState::new();
    for m in [mv(7, 7), mv(6, 6), mv(5, 5)] {
        s.place(m).unwrap();
    }
    s = s.add_two_more().unwrap();
    s.undo();
    assert_eq!(s.phase(), OpeningPhase::FirstChoice);
}

#[test]
fn occupied_cell_is_rejected() {
    let mut s = OpeningState::new();
    let m = mv(7, 7);
    s.place(m).unwrap();
    let err = s.place(m).unwrap_err();
    assert!(err.contains("occupied"), "{err}");
}

#[test]
fn finish_requires_full_phase() {
    let mut s = OpeningState::new();
    s.place(mv(7, 7)).unwrap();
    assert!(s.finish().is_err());
}

#[test]
fn holders_follow_who_chooses() {
    let h = Holders::from_choice(OpeningPhase::FirstChoice, Color::Black).unwrap();
    assert_eq!((h.black(), h.white()), (Party::B, Party::A));
    let h = Holders::from_choice(OpeningPhase::FinalChoice, Color::Black).unwrap();
    assert_eq!((h.black(), h.white()), (Party::A, Party::B));
    assert!(Holders::from_choice(OpeningPhase::Placing3, Color::Black).is_none());
    assert_eq!(Party::A.label(), "Player A");
}

#[test]
fn remaining_counts_down_in_both_phases() {
    let mut s = OpeningState::new();
    assert_eq!(s.remaining(Color::Black), 2);
    assert_eq!(s.remaining(Color::White), 0);
    s.place(mv(7, 7)).unwrap();
    s.place(mv(6, 6)).unwrap();
    assert_eq!(s.remaining(Color::White), 1);
    s.place(mv(5, 5)).unwrap();
    assert_eq!(s.remaining(Color::White), 0);
    assert_eq!(s.current_color(), None);
    assert_eq!(s.place(mv(1, 1)), Err("no more stones to place in this phase".to_string()));
    let mut s = s.add_two_more().unwrap();
    assert_eq!(s.active_party(), Party::B);
    assert_eq!(s.remaining(Color::Black), 1);
    s.place(mv(4, 4)).unwrap();
    assert_eq!(s.remaining(Color::White), 1);
}

#[test]
fn the_board_after_the_opening_has_white_to_move() {
    let mut s = OpeningState::new();
    for m in [mv(7, 7), mv(6, 6), mv(5, 5)] {
        s.place(m).unwrap();
    }
    let out = s.choose_color(Color::White).unwrap();
    assert_eq!(out.board.to_move(), Color::White);
    assert_eq!(out.board.stone_at(mv(7, 7)), Some(Color::Black));
    assert_eq!(out.board.stone_at(mv(6, 6)), Some(Color::Black));
    assert_eq!(out.board.stone_at(mv(5, 5)), Some(Color::White));
    assert!(out.board.moves().is_empty());
}

#[test]
fn place_then_undo_restores_the_opening() {
    let mut s = OpeningState::new();
    s.place(mv(7, 7)).unwrap();
    let before = s.placements().to_vec();
    s.place(mv(6, 6)).unwrap();
    s.undo();
    assert_eq!(s.placements(), before.as_slice());
    assert_eq!(s.phase(), OpeningPhase::Placing3);
    assert!(!s.is_at_start());
    s.undo();
    assert!(s.is_at_start());
}

#[test]
fn a_full_placement_phase_takes_no_more_stones() {
    let mut s = OpeningState::new();
    for m in [mv(7, 7), mv(6, 6), mv(5, 5)] {
        s.place(m).unwrap();
    }
    s.undo();
    assert_eq!(s.phase(), OpeningPhase::Placing3);
    assert_eq!(s.place(mv(1, 1)), Err("no more stones to place in this phase".to_string()));
    assert_eq!(s.placements().len(), 3);
}
