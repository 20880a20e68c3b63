use gomoku::board::{Board, Color};
use gomoku::moveset::{Move, MoveSet};
use gomoku::tactics::{double_threats, forced_blocks, immediate_wins};

fn board_from_ascii(rows: &str) -> Board {
    let mut xs: Vec<(u8, u8)> = Vec::new();
    let mut os: Vec<(u8, u8)> = Vec::new();
    let mut nrows = 0u8;
    for line in rows.lines() {
        let tokens: Vec<&str> = line.split_whitespace().collect();
        if tokens.is_empty() {
            continue;
        }
        assert_eq!(tokens.len(), 15);
        for (c, t) in tokens.iter().enumerate() {
            match *t {
                "X" => xs.push((nrows, c as u8)),
                "O" => os.push((nrows, c as u8)),
                "." => {}
                other => panic!("unexpected token {other:?}"),
            }
        }
        nrows += 1;
    }
    assert_eq!(nrows, 15);
    assert!(xs.len() == os.len() || xs.len() == os.len() + 1);
    let mut b = Board::new();
    for k in 0..os.len() {
        b.play(Move::new(xs[k].0, xs[k].1).unwrap()).unwrap();
        b.play(Move::new(os[k].0, os[k].1).unwrap()).unwrap();
    }
    if xs.len() > os.len() {
        let &(r, c) = xs.last().unwrap();
        b.play(Move::new(r, c).unwrap()).unwrap();
    }
    b
}

fn set_of(cells: &[(u8, u8)]) -> MoveSet {
    let mut s = MoveSet::empty();
    for &(r, c) in cells {
        s.insert(Move::new(r, c).unwrap());
    }
    s
}

#[test]
fn open_four_has_exactly_two_winning_cells() {
    let b = board_from_ascii(
        "
        O . O . O . O . . . . . . . .
        . . . . . . . . . . . . . . .
        . . . . . . . . . . . . . . .
        . . . . . . . . . . . . . . .
        . . . . . . . . . . . . . . .
        . . . . . . . . . . . . . . .
        . . . . . . . . . . . . . . .
        . . . . X X X X . . . . . . .
        . . . . . . . . . . . . . . .
        . . . . . . . . . . . . . . .
        . . . . . . . . . . . . . . .
        . . . . . . . . . . . . . . .
        . . . . . . . . . . . . . . .
        . . . . . . . . . . . . . . .
        . . . . . . . . . . . . . . .
        ",
    );
    assert_eq!(immediate_wins(&b, Color::Black), set_of(&[(7, 3), (7, 8)]));
}

#[test]
fn broken_four_has_exactly_one_winning_cell() {
    // X X X _ X with the gap at (7,6): only the gap completes five.
    let b = board_from_ascii(
        "
        O . O . O . O . . . . . . . .
        . . . . . . . . . . . . . . .
        . . . . . . . . . . . . . . .
        . . . . . . . . . . . . . . .
        . . . . . . . . . . . . . . .
        . . . . . . . . . . . . . . .
        . . . . . . . . . . . . . . .
        . . . . X X . X X . . . . . .
        . . . . . . . . . . . . . . .
        . . . . . . . . . . . . . . .
        . . . . . . . . . . . . . . .
        . . . . . . . . . . . . . . .
        . . . . . . . . . . . . . . .
        . . . . . . . . . . . . . . .
        . . . . . . . . . . . . . . .
        ",
    );
    assert_eq!(immediate_wins(&b, Color::Black), set_of(&[(7, 6)]));
}

#[test]
fn immediate_wins_answers_for_either_color() {
    // Same shape as the open-four test, but the FOUR is White's.
    let b = board_from_ascii(
        "
        . . . . . . . . . . . . . . .
        . . . . . . . . . . . . . . .
        . . . . . . . . . . . . . . .
        . . . . . . . . . . . . . . .
        . . . . . . . . . . . . . . .
        . . . . . . . . . . . . . . .
        . . . . . . . . . . . . . . .
        . . . . . . . . . . . . . . .
        . . . . . . . . . . . . . . .
        . . O O O O . . . . . . . . .
        . . . . . . . . . . . . . . .
        . . . . . . . . . . . . . . .
        . . . . . . . . . . . . . . .
        . . . . . . . . . . . . . . .
        X . X . X . X . . . . . . . .
        ",
    );
    assert_eq!(immediate_wins(&b, Color::White), set_of(&[(9, 1), (9, 6)]));
    // ...while Black's scattered stones threaten nothing.
    assert!(immediate_wins(&b, Color::Black).is_empty());
}

#[test]
fn forced_blocks_are_the_opponents_winning_cells() {
    // White has the open four, Black to move (equal counts).
    let b = board_from_ascii(
        "
        . . . . . . . . . . . . . . .
        . . . . . . . . . . . . . . .
        . . . . . . . . . . . . . . .
        . . . . . . . . . . . . . . .
        . . . . . . . . . . . . . . .
        . . . . . . . . . . . . . . .
        . . . . . . . . . . . . . . .
        . . . . . . . . . . . . . . .
        . . . . . . . . . . . . . . .
        . . O O O O . . . . . . . . .
        . . . . . . . . . . . . . . .
        . . . . . . . . . . . . . . .
        . . . . . . . . . . . . . . .
        . . . . . . . . . . . . . . .
        X . X . X . X . . . . . . . .
        ",
    );
    assert_eq!(b.to_move(), Color::Black);
    assert_eq!(forced_blocks(&b), set_of(&[(9, 1), (9, 6)]));
}

#[test]
fn the_classic_fork_is_exactly_one_double_threat() {
    // Two closed threes (blocked by O at the top / on the left).
    // Playing (7,7) opens TWO fours, each with exactly one winning
    // cell: (8,7) and (7,8). No other move creates more than one
    // four, so the set is EXACTLY {(7,7)}. The remaining O stones
    // are scattered filler — chosen to be genuinely quiet (an
    // earlier draft parked them on rank 0 as `O . O . O . O`,
    // which is ITSELF a double threat: (0,3) fills two gapped
    // fours. The oracle does not do "harmless filler".)
    let b = board_from_ascii(
        "
        . . . . . . . . . . . . . . O
        . . . . . . . . . . . . . . .
        . . . . . . . . . . . . . . .
        . . . . . . . O . . . . . . .
        . . . . . . . X . . . . . . .
        . . . . . . . X . . . . . . .
        . . . . . . . X . . . . . . .
        . . . O X X X . . . . . . . .
        . . . . . . . . . . . . . . .
        . . . . . . . . . . . . . . .
        . . . . . . . . . . . . . . .
        . . . . . . . . . . O . . . .
        . . . . . . . . . . . . . . .
        . . . . . . . . . . . . . . .
        O . . . . . . . . . . . . . O
        ",
    );
    assert!(immediate_wins(&b, Color::Black).is_empty(), "no four yet");
    assert_eq!(double_threats(&b, Color::Black), set_of(&[(7, 7)]));
    assert!(double_threats(&b, Color::White).is_empty());
}

#[test]
fn closed_four_forces_a_block_but_is_no_double_threat() {
    // X X X X blocked by O on the left: ONE winning cell (7,7).
    // White to move (X has one more stone) must play it. And the
    // winning move itself is NOT a double threat — the partition.
    let b = board_from_ascii(
        "
        O . O . . . . . . . . . . . .
        . . . . . . . . . . . . . . .
        . . . . . . . . . . . . . . .
        . . . . . . . . . . . . . . .
        . . . . . . . . . . . . . . .
        . . . . . . . . . . . . . . .
        . . . . . . . . . . . . . . .
        . . O X X X X . . . . . . . .
        . . . . . . . . . . . . . . .
        . . . . . . . . . . . . . . .
        . . . . . . . . . . . . . . .
        . . . . . . . . . . . . . . .
        . . . . . . . . . . . . . . .
        . . . . . . . . . . . . . . .
        . . . . . . . . . . . . . . .
        ",
    );
    assert_eq!(b.to_move(), Color::White);
    assert_eq!(immediate_wins(&b, Color::Black), set_of(&[(7, 7)]));
    assert_eq!(forced_blocks(&b), set_of(&[(7, 7)]));
    assert!(double_threats(&b, Color::Black).is_empty());
}

#[test]
fn quiet_positions_have_no_tactics() {
    let b = board_from_ascii(
        "
        . . . . . . . . . . . . . . .
        . . . . . . . . . . . . . . .
        . . X . . . . . . . . . . . .
        . . . . . . . . . . . . . . .
        . . . . . . . . . . . . . . .
        . . . . . . . . . O . . . . .
        . . . . . . . . . . . . . . .
        . . . . . . . . . . . . . . .
        . . . . . . . . . . . . . . .
        . . . . . O . . . . . . . . .
        . . . . . . . . . . . . . . .
        . . . . . . . . . . . . . . .
        . . . . . . . . . . . . X . .
        . . . . . . . . . . . . . . .
        . . . . . . . . . . . . . . .
        ",
    );
    assert!(immediate_wins(&b, Color::Black).is_empty());
    assert!(immediate_wins(&b, Color::White).is_empty());
    assert!(forced_blocks(&b).is_empty());
    assert!(double_threats(&b, Color::Black).is_empty());
    assert!(double_threats(&b, Color::White).is_empty());
}

#[test]
fn immediate_win_along_the_top_edge() {
    // Open four on row 0: the board edge is no obstacle for the
    // in-row winning cells (0,0) and (0,5).
    let b = board_from_ascii(
        "
        . X X X X . . . . . . . . . .
        . . . . . . . . . . . . . . .
        . . . . . . . . . . . . . . .
        . . . . . . . . . . . . . . .
        . . . . . . . . . . . . . . .
        . . . . . . . . . . . . . . .
        . . . . . . . . . . . . . . .
        . . . . . . . . . . . . . . .
        . . . . . . . . . . . . . . .
        . . . . . . . . . . . . . . .
        . . . . . . . . . . . . . . .
        . . . . . . . . . . . . . . .
        . . . . . . . . . . . . . . .
        . . . . . . . . . . . . . . .
        O . O . O . O . . . . . . . .
        ",
    );
    assert_eq!(immediate_wins(&b, Color::Black), set_of(&[(0, 0), (0, 5)]));
}

#[test]
fn double_threat_in_the_corner() {
    // Two threes hugging the edges. Playing the CORNER (0,0) makes
    // two fours whose only open ends are (0,4) and (4,0) — the
    // edge itself "blocks" the other ends. (0,4) and (4,0) are
    // also double threats (they open a four each... on the edge).
    let b = board_from_ascii(
        "
        . X X X . . . . . . . . . . .
        X . . . . . . . . . . . . . .
        X . . . . . . . . . . . . . .
        X . . . . . . . . . . . . . .
        . . . . . . . . . . . . . . .
        . . . . . . . . . . . . . . .
        . . . . . . . . . . . . . . .
        . . . . . . . . . . . . . . .
        . . . . . . . . . . . . . . .
        . . . . . . . . . . . . . . .
        . . . . . . . . . . . . . . .
        . . . . . . . . . . . . . . .
        . . . . . . . . . . . . . . .
        . . . . . . . . . . . . . . .
        O . O . O . O . O . O . . . .
        ",
    );
    assert!(immediate_wins(&b, Color::Black).is_empty());
    let threats = double_threats(&b, Color::Black);
    assert!(
        threats.contains(Move::new(0, 0).unwrap()),
        "the corner fork"
    );
    assert!(
        threats.contains(Move::new(0, 4).unwrap()),
        "open four on the edge"
    );
    assert!(
        threats.contains(Move::new(4, 0).unwrap()),
        "open four on the edge"
    );
}


#[test]
fn winning_cells_are_never_double_threats() {
    // Black has a closed four on row 7 and an open three on column 2; the
    // cell that completes the four is a win, not a double threat.
    let mut b = Board::new();
    let script = [
        (7u8, 4u8),
        (7, 3),
        (7, 5),
        (0, 0),
        (7, 6),
        (0, 14),
        (7, 7),
        (14, 0),
        (4, 2),
        (14, 14),
        (5, 2),
        (0, 7),
        (6, 2),
    ];
    for &(r, c) in &script {
        b.play(Move::new(r, c).unwrap()).unwrap();
    }
    assert_eq!(b.to_move(), Color::White);
    let wins = immediate_wins(&b, Color::Black);
    let threats = double_threats(&b, Color::Black);
    assert_eq!(wins, set_of(&[(7, 8)]));
    for mv in wins.iter() {
        assert!(!threats.contains(mv));
    }
    assert!(threats.contains(Move::new(3, 2).unwrap()));
    assert!(threats.contains(Move::new(7, 2).unwrap()));
}
