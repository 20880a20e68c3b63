use gomoku::board::{Board, Color};
use gomoku::encode::{encode, Planes, EXT};
use gomoku::moveset::Move;
use gomoku::symmetry::Transform;

fn mv(r: u8, c: u8) -> Move {
    Move::new(r, c).unwrap()
}

#[test]
fn empty_board_has_empty_me_and_a_64_cell_border_ring() {
    let p = encode(&Board::new());
    assert!(p.me.iter().all(|&x| x == 0), "me must be all zero");
    assert_eq!(p.you.iter().filter(|&&x| x == 1).count(), 64, "17*4 - 4");
    // the ring, and ONLY the ring
    for r in 0..EXT {
        for c in 0..EXT {
            let on_ring = r == 0 || c == 0 || r == EXT - 1 || c == EXT - 1;
            assert_eq!(p.you[r * EXT + c], u8::from(on_ring), "at ({r}, {c})");
        }
    }
}

#[test]
fn stones_land_relative_to_the_side_to_move() {
    // Black to move... so first give Black a stone and White one:
    // B(0,0), W(7,7). Now Black is to move: (0,0) is "me".
    let mut b = Board::new();
    b.play(mv(0, 0)).unwrap();
    b.play(mv(7, 7)).unwrap();
    assert_eq!(b.to_move(), Color::Black);
    let p = encode(&b);
    assert_eq!(p.me[EXT + 1], 1, "mover's (0,0) at index 18 of me");
    assert_eq!(p.you[8 * EXT + 8], 1, "opponent's (7,7) in you");

    // One ply earlier (White to move): Black's (0,0) is "you".
    let mut b1 = Board::new();
    b1.play(mv(0, 0)).unwrap();
    assert_eq!(b1.to_move(), Color::White);
    let p1 = encode(&b1);
    assert_eq!(p1.you[EXT + 1], 1, "opponent's (0,0) at index 18 of you");
    assert_eq!(p1.me[EXT + 1], 0);
}

/// The naive reference for the commutation property: extract the
/// inner 15×15, permute it, re-embed with a fresh border ring.
/// Deliberately written the dumb way — two implementations that
/// disagree are a bug report.
fn permute_planes17(p: &Planes, t: Transform) -> Planes {
    let mut me_inner = [0u8; 225];
    let mut you_inner = [0u8; 225];
    for r in 0..15usize {
        for c in 0..15usize {
            me_inner[r * 15 + c] = p.me[(r + 1) * EXT + (c + 1)];
            you_inner[r * 15 + c] = p.you[(r + 1) * EXT + (c + 1)];
        }
    }
    let me_perm = t.permute(&me_inner);
    let you_perm = t.permute(&you_inner);

    let mut out = Planes {
        me: [0; 289],
        you: [0; 289],
    };
    for k in 0..EXT {
        out.you[k] = 1;
        out.you[(EXT - 1) * EXT + k] = 1;
        out.you[k * EXT] = 1;
        out.you[k * EXT + (EXT - 1)] = 1;
    }
    for r in 0..15usize {
        for c in 0..15usize {
            out.me[(r + 1) * EXT + (c + 1)] = me_perm[r * 15 + c];
            out.you[(r + 1) * EXT + (c + 1)] = you_perm[r * 15 + c];
        }
    }
    out
}

fn transform_board(b: &Board, t: Transform) -> Board {
    let mut out = Board::new();
    for &m in b.moves() {
        let _ = out.play(t.transform_move(m));
    }
    out
}

#[test]
fn encode_commutes_with_every_transform() {
    let mut seed: u32 = 11;
    for round in 0..200 {
        let n = 1 + round % 60;
        let mut b = Board::new();
        for _ in 0..n {
            seed = seed.wrapping_mul(1_103_515_245).wrapping_add(12_345);
            let p = ((seed >> 8) % 225) as u8;
            let _ = b.play(mv(p / 15, p % 15));
        }
        for t in Transform::all() {
            assert_eq!(
                encode(&transform_board(&b, t)),
                permute_planes17(&encode(&b), t),
            );
        }
    }
}
