use gomoku::board::{Board, Color, Status};
use gomoku::moveset::Move;
use gomoku::symmetry::{flip, rot90, Transform};
// just a couple of examples to verfiy the naive picture

fn mv(r: u8, c: u8) -> Move {
    Move::new(r, c).unwrap()
}
#[test]
fn corner_behaviour_is_what_we_expect_naively() {
    let upper_left = 0u8;
    let lower_left = (14 * 15) as u8;
    let upper_right = 14u8;
    let lower_right = lower_left + 14u8;
    let center = (7 * 15 + 7) as u8;

    assert_eq!(rot90(upper_left), lower_left);
    assert_eq!(rot90(upper_right), upper_left);
    assert_eq!(rot90(lower_right), upper_right);
    assert_eq!(rot90(lower_left), lower_right);

    assert_eq!(flip(lower_right), lower_left);
    assert_eq!(flip(upper_right), upper_left);

    assert_eq!(rot90(center), center);
    assert_eq!(flip(center), center);
}

#[test]
fn rot90_four_times_and_flip_twice_are_identity() {
    let m = mv(3, 11);
    let r = Transform::Rot90;
    let res = r.transform_move(r.transform_move(r.transform_move(r.transform_move(m))));
    assert_eq!(m, res);
    let f = Transform::Flip;
    let res = f.transform_move(f.transform_move(m));
    assert_eq!(m, res);
}

#[test]
fn inverse_undoes_every_transform_on_selected_moves() {
    let moves = [mv(0, 0), mv(4, 8), mv(11, 2), mv(5, 0)];
    for mv in moves {
        for t in Transform::all() {
            assert_eq!(
                mv,
                t.inverse().transform_move(t.transform_move(mv)),
                "{t:?} on {mv:?}"
            );
        }
    }
}

fn transform_board(b: &Board, t: Transform) -> Board {
    let mut out = Board::new();
    for &m in b.moves() {
        let _ = out.play(t.transform_move(m));
    }
    out
}

#[test]
fn inverse_roundtrip_for_all_moves() {
    for cell in 0u8..225 {
        let m = mv(cell / 15, cell % 15);
        for t in Transform::all() {
            assert_eq!(t.inverse().transform_move(t.transform_move(m)), m);
        }
    }
}

#[test]
fn won_positions_stay_won_under_all_transforms() {
    let mut seed: u32 = 7;
    for dir in 0usize..4 {
        for a in 0u8..11 {
            for b in (0u8..11).step_by(3) {
                let (dr, dc) = [(0i32, 1i32), (1, 0), (1, -1), (1, 1)][dir];
                let (r0, c0) = (a, b + 4 * u8::from(dc != 1));
                let five: Vec<u8> = (0..5)
                    .map(|k| ((r0 as i32 + dr * k) * 15 + (c0 as i32 + dc * k)) as u8)
                    .collect();
                let mut fillers: Vec<u8> = Vec::new();
                while fillers.len() < 4 {
                    seed = seed.wrapping_mul(1_103_515_245).wrapping_add(12_345);
                    let c = ((seed >> 8) % 225) as u8;
                    if !five.contains(&c) && !fillers.contains(&c) {
                        fillers.push(c);
                    }
                }
                fillers.sort_unstable();
                let mut board = Board::new();
                for k in 0..4 {
                    board.play(mv(five[k] / 15, five[k] % 15)).unwrap();
                    board.play(mv(fillers[k] / 15, fillers[k] % 15)).unwrap();
                }
                board.play(mv(five[4] / 15, five[4] % 15)).unwrap();
                assert_eq!(board.status(), Status::Won(Color::Black));
                for t in Transform::all() {
                    let tb = transform_board(&board, t);
                    assert_eq!(tb.status(), Status::Won(Color::Black), "{:?}", t);
                }
            }
        }
    }
}
