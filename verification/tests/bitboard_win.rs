use gomoku::bitboard::{idx, valid, Bitboard};
use gomoku::board::{Board, Color, Status};
use gomoku::moveset::Move;
use gomoku::win::{has_any_five, has_five_in_dir};

fn from_coords(coords: &[(u8, u8)]) -> Bitboard {
    coords
        .iter()
        .fold(Bitboard::empty(), |b, &(r, c)| b.with_bit(idx(r, c)))
}

#[test]
fn set_test_clear_on_corners_and_edges() {
    let bb = Bitboard::empty();
    assert!(bb.is_zero());

    let bb = bb.with_bit(idx(0, 0));
    assert!(bb.test(idx(0, 0)));
    assert!(!bb.test(idx(1, 0)));
    assert_eq!(bb.count(), 1);

    let bb = bb
        .with_bit(idx(0, 14))
        .with_bit(idx(14, 0))
        .with_bit(idx(14, 14));
    assert_eq!(bb.count(), 4);

    let bb = bb.without_bit(idx(0, 0));
    assert!(!bb.test(idx(0, 0)));
    assert_eq!(bb.count(), 3);
}

#[test]
fn bits_crossing_a_word_boundary_land_correctly() {
    let bb = Bitboard::empty().with_bit(idx(3, 14)).with_bit(idx(4, 0));
    assert!(bb.test(idx(3, 14)));
    assert!(bb.test(idx(4, 0)));
    assert!(!bb.test(idx(4, 1)));
    assert_eq!(bb.count(), 2);
}

#[test]
fn operators_make_bitboard_math_readable() {
    let a = Bitboard::empty().with_bit(idx(7, 7)).with_bit(idx(7, 8));
    let b = Bitboard::empty().with_bit(idx(7, 8)).with_bit(idx(7, 9));

    assert_eq!(a.bitand(b).count(), 1);
    assert_eq!(a.bitor(b).count(), 3);

    assert!(!a.not().test(idx(7, 7)));
    assert!(a.not().test(idx(0, 0)));
    assert!(a.not().test(idx(0, 15)));
}

#[test]
fn valid_has_225_bits_and_clean_padding() {
    assert_eq!(valid().count(), 225);
    assert!(valid().bitand(valid().not()).is_zero());
    assert!(valid().is_clean());
    for r in 0..16u8 {
        assert!(!valid().test(idx(r, 15)));
    }
    for c in 0..16u8 {
        assert!(!valid().test(idx(15, c)));
    }
}

#[test]
fn a_padding_bit_is_not_clean() {
    let dirty = Bitboard::empty().with_bit(idx(7, 15));
    assert!(!dirty.is_clean());
    assert!(Bitboard::empty().with_bit(idx(7, 14)).is_clean());
}

#[test]
fn shr_moves_stones_down_by_the_shift_amount() {
    let bb = Bitboard::empty().with_bit(idx(2, 3));
    assert!(bb.shr(1).test(idx(2, 2)));
    assert!(bb.shr(16).test(idx(1, 3)));
    assert!(bb.shr(15).test(idx(1, 4)));
    assert!(bb.shr(17).test(idx(1, 2)));
    assert_eq!(bb.shr(1).count(), 1);
}

#[test]
fn shr_carries_bits_across_word_boundaries() {
    let bb = Bitboard::empty().with_bit(idx(4, 13));
    let shifted = bb.shr(17);
    assert!(shifted.test(idx(3, 12)));
    assert_eq!(shifted.count(), 1);
}

#[test]
fn finds_horizonal_five() {
    let some_five = from_coords(&[(7, 5), (7, 6), (7, 7), (7, 8), (7, 9)]);
    assert!(has_five_in_dir(&some_five, 1));
    assert!(has_any_five(&some_five));
}

#[test]
fn finds_any_five() {
    let cases: &[(&str, &[(u8, u8)])] = &[
        ("horizontal", &[(4, 4), (4, 5), (4, 6), (4, 7), (4, 8)]),
        ("vertical", &[(5, 5), (4, 6), (3, 7), (2, 8), (1, 9)]),
        ("diag down right", &[(4, 4), (5, 5), (6, 6), (7, 7), (8, 8)]),
        ("diag down left", &[(4, 8), (5, 8), (6, 8), (7, 8), (8, 8)]),
    ];
    for (name, coords) in cases {
        assert!(has_any_five(&from_coords(coords)), "{name}");
    }
}

#[test]
fn detects_fives_along_every_edge() {
    let cases: &[(&str, &[(u8, u8)])] = &[
        ("row 0, cols 0-4", &[(0, 0), (0, 1), (0, 2), (0, 3), (0, 4)]),
        (
            "row 14, cols 10-14",
            &[(14, 10), (14, 11), (14, 12), (14, 13), (14, 14)],
        ),
        (
            "col 0, rows 10-14",
            &[(10, 0), (11, 0), (12, 0), (13, 0), (14, 0)],
        ),
        (
            "col 14, rows 0-4",
            &[(0, 14), (1, 14), (2, 14), (3, 14), (4, 14)],
        ),
        (
            "corner diagonal (0,0)-(4,4)",
            &[(0, 0), (1, 1), (2, 2), (3, 3), (4, 4)],
        ),
        (
            "corner diagonal (0,14)-(4,10)",
            &[(0, 14), (1, 13), (2, 12), (3, 11), (4, 10)],
        ),
    ];
    for (name, cells) in cases {
        assert!(has_any_five(&from_coords(cells)), "{name}");
    }
}

#[test]
fn overlines_count_and_near_misses_do_not() {
    let six: Vec<(u8, u8)> = (3..9).map(|c| (7u8, c)).collect();
    let nine: Vec<(u8, u8)> = (0..9).map(|c| (7u8, c)).collect();
    assert!(has_any_five(&from_coords(&six)), "six in a row");
    assert!(has_any_five(&from_coords(&nine)), "nine in a row");
    assert!(
        !has_any_five(&from_coords(&[(7, 3), (7, 4), (7, 5), (7, 6)])),
        "four in a row"
    );
    assert!(
        !has_any_five(&from_coords(&[(7, 3), (7, 4), (7, 6), (7, 7), (7, 8)])),
        "five with a gap"
    );
    assert!(!has_any_five(&Bitboard::empty()), "empty board");
    assert!(has_any_five(&valid()), "every cell filled");
}

#[test]
fn wrap_pattern_is_not_a_five() {
    let wrap = &[(7, 12), (7, 13), (7, 14), (8, 0), (8, 1)];
    assert!(!has_any_five(&from_coords(wrap)));
}

#[test]
fn wrap_attack_is_not_a_win() {
    let mut board = Board::new();
    let script = [
        (7, 12),
        (0, 0),
        (7, 13),
        (0, 1),
        (7, 14),
        (0, 2),
        (8, 0),
        (0, 3),
        (8, 1),
    ];
    for (r, c) in script {
        board.play(Move::new(r, c).unwrap()).unwrap();
    }
    assert_eq!(board.status(), Status::Ongoing);
}

#[test]
fn vertical_diagonal_and_anti_diagonal_shifts_are_separate_axes() {
    let vertical = from_coords(&[(2, 5), (3, 5), (4, 5), (5, 5), (6, 5)]);
    assert!(has_five_in_dir(&vertical, 16));
    assert!(!has_five_in_dir(&vertical, 1));
    assert!(!has_five_in_dir(&vertical, 15));
    assert!(!has_five_in_dir(&vertical, 17));
    let anti = from_coords(&[(0, 14), (1, 13), (2, 12), (3, 11), (4, 10)]);
    assert!(has_five_in_dir(&anti, 15));
    assert!(!has_five_in_dir(&anti, 17));
    let _ = Color::Black;
}
