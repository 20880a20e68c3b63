use gomoku::board::{Board, Color};
use gomoku::moveset::Move;
use gomoku::tactics::forced_blocks;
use gomoku::tss::{prove_forced_win, verify_line, Proof, SearchBudget};

fn board_from_ascii(rows: &str) -> Board {
    let mut xs: Vec<(u8, u8)> = Vec::new();
    let mut os: Vec<(u8, u8)> = Vec::new();
    let mut nrows = 0u8;
    for line in rows.lines() {
        let tokens: Vec<&str> = line.split_whitespace().collect();
        if tokens.is_empty() {
            continue;
        }
        assert_eq!(tokens.len(), 15);
        for (c, t) in tokens.iter().enumerate() {
            match *t {
                "X" => xs.push((nrows, c as u8)),
                "O" => os.push((nrows, c as u8)),
                "." => {}
                other => panic!("unexpected token {other:?}"),
            }
        }
        nrows += 1;
    }
    assert_eq!(nrows, 15);
    assert!(xs.len() == os.len() || xs.len() == os.len() + 1);
    let mut b = Board::new();
    for k in 0..os.len() {
        b.play(Move::new(xs[k].0, xs[k].1).unwrap()).unwrap();
        b.play(Move::new(os[k].0, os[k].1).unwrap()).unwrap();
    }
    if xs.len() > os.len() {
        let &(r, c) = xs.last().unwrap();
        b.play(Move::new(r, c).unwrap()).unwrap();
    }
    b
}

// ------------------------------------------------------------------
// 1. Immediate win: one-move line.
#[test]
fn open_four_is_one_move_line() {
    let b = board_from_ascii(
        "
        O . O . O . O . . . . . . . .
        . . . . . . . . . . . . . . .
        . . . . . . . . . . . . . . .
        . . . . . . . . . . . . . . .
        . . . . . . . . . . . . . . .
        . . . . . . . . . . . . . . .
        . . . . . . . . . . . . . . .
        . . . . X X X X . . . . . . .
        . . . . . . . . . . . . . . .
        . . . . . . . . . . . . . . .
        . . . . . . . . . . . . . . .
        . . . . . . . . . . . . . . .
        . . . . . . . . . . . . . . .
        . . . . . . . . . . . . . . .
        . . . . . . . . . . . . . . .
        ",
    );
    let proof = prove_forced_win(
        &b,
        Color::Black,
        SearchBudget {
            max_nodes: 1000,
            max_depth: 5,
        },
    )
    .unwrap();
    assert_eq!(proof.line.len(), 1);
    assert!(
        proof.line[0] == Move::new(7, 3).unwrap() || proof.line[0] == Move::new(7, 8).unwrap()
    );
    assert!(verify_line(&b, &proof));
}

// ------------------------------------------------------------------
// 2. Quiet position -> None.
#[test]
fn quiet_position_is_not_proven() {
    let b = board_from_ascii(
        "
        . . . . . . . . . . . . . . .
        . . . . . . . . . . . . . . .
        . . X . . . . . . . . . . . .
        . . . . . . . . . . . . . . .
        . . . . . . . . . . . . . . .
        . . . . . . . . . O . . . . .
        . . . . . . . . . . . . . . .
        . . . . . . . . . . . . . . .
        . . . . . . . . . . . . . . .
        . . . . . O . . . . . . . . .
        . . . . . . . . . . . . . . .
        . . . . . . . . . . . . . . .
        . . . . . . . . . . . . X . .
        . . . . . . . . . . . . . . .
        . . . . . . . . . . . . . . .
        ",
    );
    assert!(
        prove_forced_win(
            &b,
            Color::Black,
            SearchBudget {
                max_nodes: 1000,
                max_depth: 5
            }
        )
        .is_none()
    );
}

// ------------------------------------------------------------------
// 3. Open-four maker: one-move unblockable line.
#[test]
fn open_four_maker_is_one_move_unblockable() {
    // Classic fork: Black plays (7,7) and creates two closed fours,
    // each with one winning cell. >=2 immediate wins => terminal.
    let b = board_from_ascii(
        "
        . . . . . . . . . . . . . . O
        . . . . . . . . . . . . . . .
        . . . . . . . . . . . . . . .
        . . . . . . . O . . . . . . .
        . . . . . . . X . . . . . . .
        . . . . . . . X . . . . . . .
        . . . . . . . X . . . . . . .
        . . . O X X X . . . . . . . .
        . . . . . . . . . . . . . . .
        . . . . . . . . . . . . . . .
        . . . . . . . . . . . . . . .
        . . . . . . . . . . O . . . .
        . . . . . . . . . . . . . . .
        . . . . . . . . . . . . . . .
        O . . . . . . . . . . . . . O
        ",
    );
    let proof = prove_forced_win(
        &b,
        Color::Black,
        SearchBudget {
            max_nodes: 1000,
            max_depth: 5,
        },
    )
    .unwrap();
    assert_eq!(proof.line, vec![Move::new(7, 7).unwrap()]);
    assert!(verify_line(&b, &proof));
}

// ------------------------------------------------------------------
// 4. VCF win-in-3: closed four -> forced block -> double threat.
#[test]
fn vcf_win_in_three() {
    // Build by script to avoid ASCII count pitfalls.
    // Black plays (7,7): row 7 becomes a closed four.
    // White must block at (7,8).
    // Black plays (5,5): diagonal becomes an open four (double threat).
    let mut b = Board::new();
    let script = [
        (7, 4),
        (7, 3),
        (7, 5),
        (0, 0),
        (7, 6),
        (0, 2),
        (6, 6),
        (0, 4),
        (8, 8),
        (0, 6),
    ];
    for &(r, c) in &script {
        b.play(Move::new(r, c).unwrap()).unwrap();
    }
    assert_eq!(b.to_move(), Color::Black);
    let proof = prove_forced_win(
        &b,
        Color::Black,
        SearchBudget {
            max_nodes: 2000,
            max_depth: 6,
        },
    )
    .unwrap();
    assert_eq!(proof.line.len(), 3);
    assert_eq!(proof.line[0], Move::new(7, 7).unwrap());
    let mut after_first = b.clone();
    after_first.play(proof.line[0]).unwrap();
    assert!(forced_blocks(&after_first).contains(proof.line[1]));
    assert!(verify_line(&b, &proof));
}

// ------------------------------------------------------------------
// 5. Budget honesty.
#[test]
fn tiny_budget_fails_generous_budget_succeeds() {
    let mut b = Board::new();
    let script = [
        (7, 4),
        (7, 3),
        (7, 5),
        (0, 0),
        (7, 6),
        (0, 2),
        (6, 6),
        (0, 4),
        (8, 8),
        (0, 6),
    ];
    for &(r, c) in &script {
        b.play(Move::new(r, c).unwrap()).unwrap();
    }
    // The puzzle is win-in-3; a single node is not enough to see past the
    // first attacker move, and depth 2 cannot fit three plies.
    assert!(
        prove_forced_win(
            &b,
            Color::Black,
            SearchBudget {
                max_nodes: 1,
                max_depth: 6
            }
        )
        .is_none()
    );
    assert!(
        prove_forced_win(
            &b,
            Color::Black,
            SearchBudget {
                max_nodes: 2000,
                max_depth: 2
            }
        )
        .is_none()
    );
    assert!(
        prove_forced_win(
            &b,
            Color::Black,
            SearchBudget {
                max_nodes: 2000,
                max_depth: 6
            }
        )
        .is_some()
    );
}

// ------------------------------------------------------------------
// 6. verify_line rejects doctored proofs.
#[test]
fn verifier_rejects_illegal_move() {
    let b = board_from_ascii(
        "
        O . O . O . O . . . . . . . .
        . . . . . . . . . . . . . . .
        . . . . . . . . . . . . . . .
        . . . . . . . . . . . . . . .
        . . . . . . . . . . . . . . .
        . . . . . . . . . . . . . . .
        . . . . . . . . . . . . . . .
        . . . . X X X X . . . . . . .
        . . . . . . . . . . . . . . .
        . . . . . . . . . . . . . . .
        . . . . . . . . . . . . . . .
        . . . . . . . . . . . . . . .
        . . . . . . . . . . . . . . .
        . . . . . . . . . . . . . . .
        . . . . . . . . . . . . . . .
        ",
    );
    let proof = Proof {
        winner: Color::Black,
        line: vec![Move::new(7, 5).unwrap()],
    };
    assert!(!verify_line(&b, &proof));
}

#[test]
fn verifier_rejects_wrong_starter() {
    let b = board_from_ascii(
        "
        O . O . O . O . . . . . . . .
        . . . . . . . . . . . . . . .
        . . . . . . . . . . . . . . .
        . . . . . . . . . . . . . . .
        . . . . . . . . . . . . . . .
        . . . . . . . . . . . . . . .
        . . . . . . . . . . . . . . .
        . . . . X X X X . . . . . . .
        . . . . . . . . . . . . . . .
        . . . . . . . . . . . . . . .
        . . . . . . . . . . . . . . .
        . . . . . . . . . . . . . . .
        . . . . . . . . . . . . . . .
        . . . . . . . . . . . . . . .
        . . . . . . . . . . . . . . .
        ",
    );
    let proof = Proof {
        winner: Color::White,
        line: vec![Move::new(7, 3).unwrap()],
    };
    assert!(!verify_line(&b, &proof));
}

#[test]
fn verifier_rejects_non_forcing_attacker_move() {
    let b = board_from_ascii(
        "
        O . O . O . O . . . . . . . .
        . . . . . . . . . . . . . . .
        . . . . . . . . . . . . . . .
        . . . . . . . . . . . . . . .
        . . . . . . . . . . . . . . .
        . . . . . . . . . . . . . . .
        . . . . . . . . . . . . . . .
        . . . . X X X X . . . . . . .
        . . . . . . . . . . . . . . .
        . . . . . . . . . . . . . . .
        . . . . . . . . . . . . . . .
        . . . . . . . . . . . . . . .
        . . . . . . . . . . . . . . .
        . . . . . . . . . . . . . . .
        . . . . . . . . . . . . . . .
        ",
    );
    let proof = Proof {
        winner: Color::Black,
        line: vec![Move::new(0, 0).unwrap()],
    };
    assert!(!verify_line(&b, &proof));
}

#[test]
fn verifier_rejects_truncated_line() {
    let mut b = Board::new();
    let script = [
        (7, 4),
        (7, 3),
        (7, 5),
        (0, 0),
        (7, 6),
        (0, 2),
        (6, 6),
        (0, 4),
        (8, 8),
        (0, 6),
    ];
    for &(r, c) in &script {
        b.play(Move::new(r, c).unwrap()).unwrap();
    }
    // (7,7) creates a closed four, but the line ends before the win.
    let proof = Proof {
        winner: Color::Black,
        line: vec![Move::new(7, 7).unwrap()],
    };
    assert!(!verify_line(&b, &proof));
}

// ------------------------------------------------------------------
// 7. The gapped-four trap.
//
// A doctored proof claims a win through a defender block that does
// not actually work. `verify_line` enumerates every block and rejects
// the proof because the suffix fails against the other block.
#[test]
fn gapped_four_trap_rejects_refuted_line() {
    // Black plays (7,7). It creates two gapped fours whose winning
    // cells are (7,6) and (6,7). The real position is a double threat,
    // so the only sound proof is the one-move line [(7,7)]. A doctored
    // proof that drags the line out through one block must be caught.
    let b = board_from_ascii(
        "
        . O . O . . . . . . . . . . .
        . . . . . . . . . . . . . . .
        . . . . . . . . . . . . . . .
        . . . . . . . . . . . . . . .
        . . . . . . . X . . . . . . .
        . . . . . . . X . . . . . . .
        . . . . . . . . . . . . . . .
        . . . . X X . . X . . . . . .
        . . . . . . . X . . . . . . .
        . . . . . . . . . . . . . . .
        . . . . . . . . . . . . . . .
        . . . . . . . . . . . . . . .
        . . . . . . . . . . . . . . .
        . . . . . . . . . . . . . . .
        O . O . O . O . . . . . . . .
        ",
    );
    let proof = prove_forced_win(
        &b,
        Color::Black,
        SearchBudget {
            max_nodes: 2000,
            max_depth: 6,
        },
    );
    assert_eq!(proof.map(|p| p.line), Some(vec![Move::new(7, 7).unwrap()]));

    // Doctor a proof that claims the win goes through (6,7) and then
    // some follow-up. After (7,7) the position is terminal (>=2 wins),
    // so any line longer than one move is rejected by the verifier.
    let doctored = Proof {
        winner: Color::Black,
        line: vec![
            Move::new(7, 7).unwrap(),
            Move::new(6, 7).unwrap(), // a valid block, but the suffix is bogus
            Move::new(0, 0).unwrap(), // not a winning continuation
        ],
    };
    assert!(!verify_line(&b, &doctored));
}

// ------------------------------------------------------------------
// 10. Overline: a proof ending in SIX in a row is valid.
#[test]
fn overline_six_is_valid_proof() {
    // Black to move. (7,7) completes six in a row.
    let b = board_from_ascii(
        "
        . . . . . . . . . . . . . . .
        . . . . . . . . . . . . . . .
        . . . . . . . . . . . . . . .
        . . . . . . . . . . . . . . .
        . . . . . . . . . . . . . . .
        . . . . . . . . . . . . . . .
        . . . . . . . . . . . . . . .
        . . . . X X X . X X . . . . .
        . . . . . . . . . . . . . . .
        . . . . . . . . . . . . . . .
        . . . . . . . . . . . . . . .
        . . . . . . . . . . . . . . .
        . . . . . . . . . . . . . . .
        . . . . . . . . . . . . . . .
        O . O . O . O . O . . . . . .
        ",
    );
    let proof = prove_forced_win(
        &b,
        Color::Black,
        SearchBudget {
            max_nodes: 1000,
            max_depth: 5,
        },
    )
    .unwrap();
    assert_eq!(proof.line, vec![Move::new(7, 7).unwrap()]);
    assert!(verify_line(&b, &proof));
}


#[test]
fn empty_budget_proves_nothing_and_lines_fit_the_depth() {
    let mut b = Board::new();
    for &(r, c) in &[(7u8, 4u8), (0u8, 0u8), (7, 5), (0, 2), (7, 6), (0, 4), (7, 7), (0, 6)] {
        b.play(Move::new(r, c).unwrap()).unwrap();
    }
    let none_nodes = SearchBudget { max_nodes: 0, max_depth: 5 };
    let none_depth = SearchBudget { max_nodes: 1000, max_depth: 0 };
    assert!(prove_forced_win(&b, Color::Black, none_nodes).is_none());
    assert!(prove_forced_win(&b, Color::Black, none_depth).is_none());
    let one = SearchBudget { max_nodes: 1000, max_depth: 1 };
    let proof = prove_forced_win(&b, Color::Black, one).unwrap();
    assert_eq!(proof.line.len(), 1);
    assert!(verify_line(&b, &proof));
}

#[test]
fn search_answers_with_the_first_winning_cell() {
    let mut b = Board::new();
    for &(r, c) in &[(7u8, 4u8), (0u8, 0u8), (7, 5), (0, 2), (7, 6), (0, 4), (7, 7), (0, 6)] {
        b.play(Move::new(r, c).unwrap()).unwrap();
    }
    let budget = SearchBudget { max_nodes: 1000, max_depth: 5 };
    let proof = prove_forced_win(&b, Color::Black, budget).unwrap();
    assert_eq!(proof.line, vec![Move::new(7, 3).unwrap()]);
}
