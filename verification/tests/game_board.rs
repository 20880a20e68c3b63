use gomoku::board::{Color, PlayError, Status};
use gomoku::game_board::{board_for, AnyBoard, EngineKind, GameBoard, PuzzleBoard};
use gomoku::moveset::Move;
use gomoku::puzzle::Puzzle;

#[test]
fn both_boards_agree_through_the_trait() {
    let mut boards: Vec<AnyBoard> = vec![board_for(EngineKind::Naive), board_for(EngineKind::Fast)];
    let script = [(7u8, 7u8), (7, 8), (8, 7), (8, 8), (6, 7)];
    for (r, c) in script {
        let mv = Move::new(r, c).unwrap();
        for b in &mut boards {
            assert!(b.play(mv).is_ok());
        }
        let [a, b] = &mut boards[..] else {
            unreachable!()
        };
        assert_eq!(a.status(), b.status());
        assert_eq!(a.stone_at(mv), b.stone_at(mv));
    }
}

#[test]
fn play_error_travels_through_the_trait() {
    let mut b = board_for(EngineKind::Fast);
    let mv = Move::new(7, 7).unwrap();
    b.play(mv).unwrap();
    assert_eq!(b.play(mv), Err(PlayError::Occupied));
}

#[test]
fn undo_travels_through_the_trait_on_both_boards() {
    for kind in [EngineKind::Naive, EngineKind::Fast] {
        let mut board = board_for(kind);
        let mv = Move::new(7, 7).unwrap();
        board.play(mv).unwrap();
        assert_eq!(board.moves().len(), 1);

        board.undo();
        assert_eq!(board.moves().len(), 0);
        assert_eq!(board.stone_at(mv), None);
        assert_eq!(board.status(), Status::Ongoing);
        assert_eq!(board.to_move(), Color::Black);
    }
}

#[test]
fn undo_after_a_win_reopens_the_game() {
    let mut board = board_for(EngineKind::Fast);
    let script = [
        (7, 3),
        (0, 0),
        (7, 4),
        (0, 2),
        (7, 5),
        (0, 4),
        (7, 6),
        (0, 6),
        (7, 7),
    ];
    for (r, c) in script {
        board.play(Move::new(r, c).unwrap()).unwrap();
    }
    assert_eq!(board.status(), Status::Won(Color::Black));

    board.undo();
    assert_eq!(board.status(), Status::Ongoing);
    assert_eq!(board.moves().len(), 8);
}

#[test]
fn puzzle_board_undo_floors_at_root() {
    let puzzle = Puzzle {
        name: "test".to_string(),
        black: vec![Move::new(7, 7).unwrap()],
        white: vec![],
        to_move: Color::White,
        solution: None,
        depth: None,
    };
    let mut board = PuzzleBoard::new(&puzzle);
    assert!(board.moves().is_empty());

    board.undo();
    assert!(board.moves().is_empty());

    board.play(Move::new(7, 8).unwrap()).unwrap();
    assert_eq!(board.moves().len(), 1);
    board.undo();
    assert!(board.moves().is_empty());
    board.undo();
    assert!(board.moves().is_empty());
}

#[test]
fn puzzle_board_redo_is_cleared_on_new_move() {
    let puzzle = Puzzle {
        name: "test".to_string(),
        black: vec![Move::new(7, 7).unwrap()],
        white: vec![],
        to_move: Color::White,
        solution: None,
        depth: None,
    };
    let mut board = PuzzleBoard::new(&puzzle);
    board.play(Move::new(7, 8).unwrap()).unwrap();
    board.play(Move::new(6, 6).unwrap()).unwrap();
    board.undo();
    assert!(board.can_redo());

    board.play(Move::new(5, 5).unwrap()).unwrap();
    assert!(!board.can_redo());
    assert_eq!(board.moves().len(), 2);
    assert_eq!(
        board.moves().last().copied(),
        Some(Move::new(5, 5).unwrap())
    );
}

#[test]
fn puzzle_board_redo_replays_moves() {
    let puzzle = Puzzle {
        name: "test".to_string(),
        black: vec![],
        white: vec![],
        to_move: Color::Black,
        solution: None,
        depth: None,
    };
    let mut board = PuzzleBoard::new(&puzzle);
    board.play(Move::new(7, 7).unwrap()).unwrap();
    board.undo();
    assert!(board.moves().is_empty());

    board.redo();
    assert_eq!(board.moves().len(), 1);
    assert_eq!(board.stone_at(Move::new(7, 7).unwrap()), Some(Color::Black));
}

#[test]
fn engine_names_and_engine_boards() {
    let naive = board_for(EngineKind::Naive);
    let fast = board_for(EngineKind::Fast);
    assert_eq!(naive.name(), "naive");
    assert_eq!(fast.name(), "fast");
    assert!(naive.engine_board().is_none());
    assert!(fast.engine_board().is_some());
    assert!(!fast.can_redo());
}

#[test]
fn puzzle_board_starts_on_the_puzzle_position() {
    let puzzle = Puzzle {
        name: "p".to_string(),
        black: vec![Move::new(7, 7).unwrap(), Move::new(3, 3).unwrap()],
        white: vec![Move::new(0, 0).unwrap()],
        to_move: Color::White,
        solution: None,
        depth: None,
    };
    assert!(puzzle.setup_ok());
    let board = PuzzleBoard::new(&puzzle);
    assert_eq!(board.stone_at(Move::new(3, 3).unwrap()), Some(Color::Black));
    assert_eq!(board.stone_at(Move::new(0, 0).unwrap()), Some(Color::White));
    assert_eq!(board.to_move(), Color::White);
    assert_eq!(board.name(), "fast");
}

#[test]
fn setup_ok_rejects_a_position_with_wrong_side_to_move() {
    let puzzle = Puzzle {
        name: "p".to_string(),
        black: vec![Move::new(7, 7).unwrap()],
        white: vec![],
        to_move: Color::Black,
        solution: None,
        depth: None,
    };
    assert!(!puzzle.setup_ok());
}
