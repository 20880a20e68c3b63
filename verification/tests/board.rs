use gomoku::board::{Board, Color, PlayError, Status};
use gomoku::moveset::Move;
use gomoku::reference;

#[test]
fn new_board_has_225_legal_moves_black_to_move() {
    let b = Board::new();
    assert_eq!(b.status(), Status::Ongoing);
    assert_eq!(b.to_move(), Color::Black);
    assert_eq!(b.empty_moves().len(), 225);
    assert!(b.moves().is_empty());
}

#[test]
fn play_places_a_stone_and_flips() {
    let mut b = Board::new();
    let mv = Move::new(7, 7).unwrap();
    b.play(mv).unwrap();
    assert_eq!(b.to_move(), Color::White);
    assert!(!b.is_legal(mv));
    assert_eq!(b.empty_moves().len(), 224);
}

#[test]
fn empty_moves_and_legality_track_the_stones() {
    let mut b = Board::new();
    let mv = Move::new(7, 7).unwrap();
    assert!(b.is_legal(mv));

    b.play(mv).unwrap();
    assert!(!b.is_legal(mv));
    assert_eq!(b.empty_moves().len(), 224);
    assert!(b.empty_moves().iter().all(|m| *m != mv));

    for r in 0..15u8 {
        for c in 0..15u8 {
            let _ = b.play(Move::new(r, c).unwrap());
        }
    }
    assert_eq!(b.empty_moves().len(), 225 - b.moves().len());
    assert_eq!(b.status(), Status::Won(Color::White))
}

#[test]
fn horizontal_five_wins() {
    let mut b = reference::Board::new();
    let script = [
        (7, 3),
        (0, 0),
        (7, 4),
        (0, 2),
        (7, 5),
        (0, 4),
        (7, 6),
        (0, 6),
        (7, 7),
    ];
    for (r, c) in script {
        b.play(Move::new(r, c).unwrap()).unwrap();
    }
    assert_eq!(b.status(), Status::Won(Color::Black));

    assert_eq!(b.play(Move::new(13, 13).unwrap()), Err(PlayError::GameOver))
}

#[test]
fn undo_everything_returns_a_pristine_board() {
    let mut b = Board::new();
    let script = [(5, 6), (5, 7), (4, 6), (3, 6)];
    for (r, c) in script {
        b.play(Move::new(r, c).unwrap()).unwrap();
    }
    for _ in 0..script.len() {
        b.undo();
    }
    assert_eq!(b, Board::new());
}

#[test]
fn undo_the_winning_move_unwins_the_game() {
    let mut b = Board::new();
    let script = [
        (7, 3),
        (0, 0),
        (7, 4),
        (0, 2),
        (7, 5),
        (0, 4),
        (7, 6),
        (0, 6),
        (7, 7),
    ];
    for (r, c) in script {
        b.play(Move::new(r, c).unwrap()).unwrap();
    }
    assert_eq!(b.status(), Status::Won(Color::Black));

    b.undo();
    assert_eq!(b.status(), Status::Ongoing);
    assert_eq!(b.to_move(), Color::Black);
    assert!(b.is_legal(Move::new(7, 7).unwrap()));
    assert_eq!(b.moves().len(), 8);
}

#[test]
fn stone_at_impls_agree_for_all_positions() {
    let mut fast = Board::new();
    let mut naive = reference::Board::new();
    for &(r, c) in &[(7u8, 7u8), (0, 14), (14, 0), (3, 11)] {
        let mv = Move::new(r, c).unwrap();
        assert_eq!(fast.play(mv), naive.play(mv));
    }
    for r in 0..15 {
        for c in 0..15 {
            let mv = Move::new(r, c).unwrap();
            assert_eq!(fast.stone_at(mv), naive.stone_at(mv), "at ({r}, {r})");
        }
    }
    assert_eq!(fast.status(), Status::Ongoing);
}

