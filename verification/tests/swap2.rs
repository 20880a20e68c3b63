use gomoku::board::{compute_key, Board, Color, PlayError, PositionError};
use gomoku::moveset::Move;
use gomoku::swap2::{Placing3, Swap2};

fn mv(r: u8, c: u8) -> Move {
    Move::new(r, c).unwrap()
}

#[test]
fn branch_1_take_white() {
    let mut s = Swap2::<Placing3>::new();
    s.place(mv(7, 7), Color::Black).unwrap();
    s.place(mv(6, 6), Color::Black).unwrap();
    s.place(mv(5, 5), Color::White).unwrap();
    let s = s.finish().unwrap();
    let b = s.take_white();
    assert_eq!(b.stones(Color::Black).count(), 2);
    assert_eq!(b.stones(Color::White).count(), 1);
    assert_eq!(b.to_move(), Color::White);
}

#[test]
fn branch_2_take_black() {
    let mut s = Swap2::<Placing3>::new();
    s.place(mv(7, 7), Color::Black).unwrap();
    s.place(mv(6, 6), Color::Black).unwrap();
    s.place(mv(5, 5), Color::White).unwrap();
    let s = s.finish().unwrap();
    let b = s.take_black();
    assert_eq!(b.stones(Color::Black).count(), 2);
    assert_eq!(b.stones(Color::White).count(), 1);
    assert_eq!(b.to_move(), Color::White);
}

#[test]
fn branch_3_place_two_more_then_choose() {
    let mut s = Swap2::<Placing3>::new();
    s.place(mv(7, 7), Color::Black).unwrap();
    s.place(mv(6, 6), Color::Black).unwrap();
    s.place(mv(5, 5), Color::White).unwrap();
    let s = s.finish().unwrap();
    let mut s = s.place_two_more();
    s.place(mv(4, 4), Color::Black).unwrap();
    s.place(mv(3, 3), Color::White).unwrap();
    let s = s.finish().unwrap();

    let black = s.take_black();
    assert_eq!(black.stones(Color::Black).count(), 3);
    assert_eq!(black.stones(Color::White).count(), 2);
    assert_eq!(black.to_move(), Color::White);

    // Rebuild and take white: counts and side to move are identical.
    let mut s = Swap2::<Placing3>::new();
    s.place(mv(7, 7), Color::Black).unwrap();
    s.place(mv(6, 6), Color::Black).unwrap();
    s.place(mv(5, 5), Color::White).unwrap();
    let s = s.finish().unwrap();
    let mut s = s.place_two_more();
    s.place(mv(4, 4), Color::Black).unwrap();
    s.place(mv(3, 3), Color::White).unwrap();
    let s = s.finish().unwrap();
    let white = s.take_white();
    assert_eq!(white.to_move(), Color::White);
}

#[test]
fn finish_rejects_wrong_counts() {
    let mut s = Swap2::<Placing3>::new();
    s.place(mv(0, 0), Color::Black).unwrap();
    s.place(mv(1, 1), Color::White).unwrap();
    assert!(matches!(s.finish(), Err(PlayError::BadOpeningCounts)));

    let mut s = Swap2::<Placing3>::new();
    s.place(mv(0, 0), Color::Black).unwrap();
    s.place(mv(1, 1), Color::Black).unwrap();
    s.place(mv(2, 2), Color::Black).unwrap();
    assert!(matches!(s.finish(), Err(PlayError::BadOpeningCounts)));
}

#[test]
fn place_rejects_occupied_cell() {
    let mut s = Swap2::<Placing3>::new();
    s.place(mv(7, 7), Color::Black).unwrap();
    assert_eq!(s.place(mv(7, 7), Color::White), Err(PlayError::Occupied));
}

#[test]
fn from_position_rejects_overlap_and_bad_counts() {
    let same = mv(7, 7);
    assert_eq!(
        Board::from_position(&[same], &[same], Color::White),
        Err(PositionError::OverlappingColors)
    );

    // 2 Black, 1 White but claiming Black to move.
    assert_eq!(
        Board::from_position(&[mv(0, 0), mv(1, 1)], &[mv(2, 2)], Color::Black),
        Err(PositionError::InvalidCounts)
    );

    // Counts differ by more than one.
    assert_eq!(
        Board::from_position(&[mv(0, 0), mv(1, 1), mv(2, 2)], &[mv(3, 3)], Color::White),
        Err(PositionError::InvalidCounts)
    );
}

#[test]
fn from_position_accepts_empty_board() {
    let b = Board::from_position(&[], &[], Color::Black).unwrap();
    assert_eq!(b.to_move(), Color::Black);
    assert_eq!(b.zobrist(), 0);
}

#[test]
fn opening_and_played_position_share_zobrist_key() {
    let a = mv(7, 7);
    let b = mv(6, 6);
    let w = mv(5, 5);

    // Opening: 2 Black, 1 White, then take a color.
    let mut opening = Swap2::<Placing3>::new();
    opening.place(a, Color::Black).unwrap();
    opening.place(b, Color::Black).unwrap();
    opening.place(w, Color::White).unwrap();
    let opening_board = opening.finish().unwrap().take_black();

    // Same position reached by alternating play: Black, White, Black.
    let mut played = Board::new();
    played.play(a).unwrap();
    played.play(w).unwrap();
    played.play(b).unwrap();

    assert_eq!(
        opening_board.stones(Color::Black),
        played.stones(Color::Black)
    );
    assert_eq!(
        opening_board.stones(Color::White),
        played.stones(Color::White)
    );
    assert_eq!(opening_board.to_move(), played.to_move());
    assert_eq!(opening_board.zobrist(), played.zobrist());
    assert_eq!(
        opening_board.zobrist(),
        compute_key(
            &opening_board.stones(Color::Black),
            &opening_board.stones(Color::White),
            opening_board.to_move(),
        )
    );
}

