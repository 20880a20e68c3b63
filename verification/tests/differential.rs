use gomoku::board::{Board, Color, Status};
use gomoku::moveset::Move;
use gomoku::reference::{self, adjudicate};
use gomoku::tactics::{double_threats, forced_blocks, immediate_wins};

/// A small deterministic generator of cell indices.
struct Cells(u64);

impl Cells {
    fn next(&mut self) -> u16 {
        self.0 = self.0.wrapping_mul(6364136223846793005).wrapping_add(1442695040888963407);
        ((self.0 >> 33) % 225) as u16
    }
}

fn mv_of(p: u16) -> Move {
    Move::new((p / 15) as u8, (p % 15) as u8).unwrap()
}

#[test]
fn fast_matches_naive() {
    for seed in 0..40u64 {
        let mut cells = Cells(seed);
        let mut fast = Board::new();
        let mut naive = reference::Board::new();
        for _ in 0..225 {
            let mv = mv_of(cells.next());
            assert_eq!(fast.status(), naive.status());
            if fast.status() != Status::Ongoing {
                break;
            }
            let fast_r = fast.play(mv);
            let naive_r = naive.play(mv);
            assert_eq!(fast_r, naive_r);
            assert_eq!(fast.status(), naive.status());
            assert_eq!(fast.to_move(), naive.to_move());
        }
    }
}

#[test]
fn undo_walks_match_naive() {
    for seed in 100..130u64 {
        let mut cells = Cells(seed);
        let mut fast = Board::new();
        let mut naive = reference::Board::new();
        for _ in 0..100 {
            let p = cells.next();
            if p % 3 == 0 && !fast.moves().is_empty() {
                fast.undo();
                naive.undo();
            } else if fast.status() == Status::Ongoing {
                let _ = fast.play(mv_of(p));
                let _ = naive.play(mv_of(p));
            }
            assert_eq!(fast.status(), naive.status());
            assert_eq!(fast.to_move(), naive.to_move());
            assert_eq!(fast.moves(), naive.moves());
        }
    }
}

#[test]
fn tactics_match_reference() {
    for seed in 200..206u64 {
        let mut cells = Cells(seed);
        let mut fast = Board::new();
        for _ in 0..60 {
            if fast.status() != Status::Ongoing {
                break;
            }
            let _ = fast.play(mv_of(cells.next()));
        }
        if fast.status() != Status::Ongoing {
            fast.undo();
        }
        for side in [Color::Black, Color::White] {
            assert_eq!(
                immediate_wins(&fast, side),
                reference::naive_immediate_wins(&fast, side)
            );
            assert_eq!(
                double_threats(&fast, side),
                reference::naive_double_threats(&fast, side)
            );
        }
        assert_eq!(forced_blocks(&fast), reference::naive_forced_blocks(&fast));
    }
}

#[test]
fn adjudicator_finds_the_vcf_win_in_three() {
    let mut b = Board::new();
    let script = [
        (7, 4),
        (7, 3),
        (7, 5),
        (0, 0),
        (7, 6),
        (0, 2),
        (6, 6),
        (0, 4),
        (8, 8),
        (0, 6),
    ];
    for &(r, c) in &script {
        b.play(Move::new(r, c).unwrap()).unwrap();
    }
    assert_eq!(adjudicate(&b, Color::Black, 3), Some(Color::Black));
    assert_eq!(adjudicate(&b, Color::Black, 0), None);
}

#[test]
fn adjudicator_reports_decided_games_and_quiet_positions() {
    let mut b = Board::new();
    for (r, c) in [(7, 3), (0, 0), (7, 4), (0, 2), (7, 5), (0, 4), (7, 6), (0, 6), (7, 7)] {
        b.play(Move::new(r, c).unwrap()).unwrap();
    }
    assert_eq!(adjudicate(&b, Color::White, 2), Some(Color::Black));
    let mut quiet = Board::new();
    quiet.play(Move::new(7, 7).unwrap()).unwrap();
    assert_eq!(adjudicate(&quiet, Color::Black, 3), None);
}

#[test]
fn naive_line_wins_count_overlines_through_the_cell() {
    let mut b = Board::new();
    for (r, c) in [(7, 3), (0, 0), (7, 4), (0, 2), (7, 6), (0, 4), (7, 7), (0, 6)] {
        b.play(Move::new(r, c).unwrap()).unwrap();
    }
    let wins = reference::naive_immediate_wins(&b, Color::Black);
    assert!(wins.contains(Move::new(7, 5).unwrap()));
    assert_eq!(wins, immediate_wins(&b, Color::Black));
}

#[test]
fn count_dir_walks_until_the_run_ends() {
    let mut b = reference::Board::new();
    for (r, c) in [(7, 3), (0, 0), (7, 4), (0, 2), (7, 5)] {
        b.play(Move::new(r, c).unwrap()).unwrap();
    }
    assert_eq!(b.count_dir(7, 2, 0, 1, Color::Black), 3);
    assert_eq!(b.count_dir(7, 6, 0, -1, Color::Black), 3);
    assert_eq!(b.count_dir(7, 6, 0, 1, Color::Black), 0);
    assert_eq!(b.count_dir(0, 4, 0, -2, Color::White), 2);
    assert_eq!(b.count_dir(15, 0, -15, 0, Color::White), 1);
}
