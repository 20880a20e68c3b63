//! The dihedral group D4: the eight symmetries of the square board, acting
//! on row-major cell indices.
use vstd::prelude::*;
use crate::moveset::{Move, row_of, col_of};
use crate::board::Position;
use crate::reference::{legal_history, lemma_replay_valid, replay, start_position};
use crate::rules::{five_from, five_in_dir, has_five, on_board, stone_in};

verus! {

/// An element of the dihedral group D4.
#[derive(Debug, Clone, Copy, PartialEq, Eq, Structural)]
pub enum Transform {
    /// Identity.
    Id,
    /// 90-degree counter-clockwise rotation.
    Rot90,
    /// 180-degree rotation.
    Rot180,
    /// 270-degree counter-clockwise rotation.
    Rot270,
    /// Reflection across the vertical axis.
    Flip,
    /// Flip followed by 90-degree rotation.
    FlipRot90,
    /// Flip followed by 180-degree rotation.
    FlipRot180,
    /// Flip followed by 270-degree rotation.
    FlipRot270,
}

/// Rotate a cell 90 degrees to the left: `(r, c)` goes to `(14 - c, r)`.
pub open spec fn spec_rot90(i: int) -> int {
    (14 - col_of(i)) * 15 + row_of(i)
}

/// Mirror a cell along the vertical axis: `(r, c)` goes to `(r, 14 - c)`.
pub open spec fn spec_flip(i: int) -> int {
    row_of(i) * 15 + (14 - col_of(i))
}

/// Where the transform `t` sends cell `i`.
pub open spec fn transform_cell(t: Transform, i: int) -> int {
    match t {
        Transform::Id => i,
        Transform::Rot90 => spec_rot90(i),
        Transform::Rot180 => spec_rot90(spec_rot90(i)),
        Transform::Rot270 => spec_rot90(spec_rot90(spec_rot90(i))),
        Transform::Flip => spec_flip(i),
        Transform::FlipRot90 => spec_rot90(spec_flip(i)),
        Transform::FlipRot180 => spec_rot90(spec_rot90(spec_flip(i))),
        Transform::FlipRot270 => spec_rot90(spec_rot90(spec_rot90(spec_flip(i)))),
    }
}

/// The inverse of each transform.
pub open spec fn spec_inverse(t: Transform) -> Transform {
    match t {
        Transform::Rot90 => Transform::Rot270,
        Transform::Rot270 => Transform::Rot90,
        _ => t,
    }
}

pub proof fn lemma_cell_parts(r: int, c: int)
    requires
        0 <= r < 15,
        0 <= c < 15,
    ensures
        row_of(r * 15 + c) == r,
        col_of(r * 15 + c) == c,
{
    let m = r * 15 + c;
    assert(m / 15 == r && m % 15 == c) by (nonlinear_arith)
        requires
            m == r * 15 + c,
            0 <= c < 15,
            0 <= r,
    ;
}

pub proof fn lemma_cell_split(i: int)
    requires
        0 <= i < 225,
    ensures
        0 <= row_of(i) < 15,
        0 <= col_of(i) < 15,
        i == row_of(i) * 15 + col_of(i),
{
}

/// Rotation by 90 degrees in row/column form.
pub proof fn lemma_rot90_parts(i: int)
    requires
        0 <= i < 225,
    ensures
        0 <= spec_rot90(i) < 225,
        row_of(spec_rot90(i)) == 14 - col_of(i),
        col_of(spec_rot90(i)) == row_of(i),
{
    lemma_cell_split(i);
    lemma_cell_parts(14 - col_of(i), row_of(i));
}

/// The flip in row/column form.
pub proof fn lemma_flip_parts(i: int)
    requires
        0 <= i < 225,
    ensures
        0 <= spec_flip(i) < 225,
        row_of(spec_flip(i)) == row_of(i),
        col_of(spec_flip(i)) == 14 - col_of(i),
{
    lemma_cell_split(i);
    lemma_cell_parts(row_of(i), 14 - col_of(i));
}

/// Every transform maps the board onto itself.
pub proof fn lemma_transform_in_range(t: Transform, i: int)
    requires
        0 <= i < 225,
    ensures
        0 <= transform_cell(t, i) < 225,
{
    lemma_rot90_parts(i);
    lemma_flip_parts(i);
    lemma_rot90_parts(spec_rot90(i));
    lemma_rot90_parts(spec_rot90(spec_rot90(i)));
    lemma_rot90_parts(spec_flip(i));
    lemma_rot90_parts(spec_rot90(spec_flip(i)));
    lemma_rot90_parts(spec_rot90(spec_rot90(spec_flip(i))));
}

/// The transform in row/column form: rotations by `k` quarter turns send
/// `(r, c)` through `(14 - c, r)` `k` times, after the flip for the flipped ones.
pub proof fn lemma_transform_parts(t: Transform, i: int)
    requires
        0 <= i < 225,
    ensures
        ({
            let r = row_of(i);
            let c = col_of(i);
            let j = transform_cell(t, i);
            match t {
                Transform::Id => row_of(j) == r && col_of(j) == c,
                Transform::Rot90 => row_of(j) == 14 - c && col_of(j) == r,
                Transform::Rot180 => row_of(j) == 14 - r && col_of(j) == 14 - c,
                Transform::Rot270 => row_of(j) == c && col_of(j) == 14 - r,
                Transform::Flip => row_of(j) == r && col_of(j) == 14 - c,
                Transform::FlipRot90 => row_of(j) == c && col_of(j) == r,
                Transform::FlipRot180 => row_of(j) == 14 - r && col_of(j) == c,
                Transform::FlipRot270 => row_of(j) == 14 - c && col_of(j) == 14 - r,
            }
        }),
{
    lemma_rot90_parts(i);
    lemma_flip_parts(i);
    lemma_rot90_parts(spec_rot90(i));
    lemma_rot90_parts(spec_rot90(spec_rot90(i)));
    lemma_rot90_parts(spec_flip(i));
    lemma_rot90_parts(spec_rot90(spec_flip(i)));
    lemma_rot90_parts(spec_rot90(spec_rot90(spec_flip(i))));
}

/// The inverse undoes every transform, on every cell.
pub proof fn lemma_inverse_roundtrip(t: Transform, i: int)
    requires
        0 <= i < 225,
    ensures
        transform_cell(spec_inverse(t), transform_cell(t, i)) == i,
{
    let j = transform_cell(t, i);
    lemma_transform_in_range(t, i);
    lemma_transform_parts(t, i);
    lemma_transform_parts(spec_inverse(t), j);
    let k = transform_cell(spec_inverse(t), j);
    lemma_transform_in_range(spec_inverse(t), j);
    lemma_cell_split(k);
    lemma_cell_split(i);
}

/// Four quarter turns and two flips are the identity on every cell.
pub proof fn lemma_rot90_four_flip_two(i: int)
    requires
        0 <= i < 225,
    ensures
        spec_rot90(spec_rot90(spec_rot90(spec_rot90(i)))) == i,
        spec_flip(spec_flip(i)) == i,
{
    let a = spec_rot90(i);
    let b = spec_rot90(a);
    let c = spec_rot90(b);
    let d = spec_rot90(c);
    lemma_rot90_parts(i);
    lemma_rot90_parts(a);
    lemma_rot90_parts(b);
    lemma_rot90_parts(c);
    lemma_cell_split(d);
    lemma_cell_split(i);
    lemma_flip_parts(i);
    lemma_flip_parts(spec_flip(i));
    lemma_cell_split(spec_flip(spec_flip(i)));
}

/// The stones of `s` carried over by `t`: cell `j` holds a stone when the
/// cell that `t` sends to `j` does.
pub open spec fn transform_set(t: Transform, s: Set<int>) -> Set<int> {
    Set::new(|j: int| 0 <= j < 225 && s.contains(transform_cell(spec_inverse(t), j)))
}

/// Row of the cell `(r, c)` after `t`.
pub open spec fn moved_row(t: Transform, r: int, c: int) -> int {
    match t {
        Transform::Id => r,
        Transform::Rot90 => 14 - c,
        Transform::Rot180 => 14 - r,
        Transform::Rot270 => c,
        Transform::Flip => r,
        Transform::FlipRot90 => c,
        Transform::FlipRot180 => 14 - r,
        Transform::FlipRot270 => 14 - c,
    }
}

/// Column of the cell `(r, c)` after `t`.
pub open spec fn moved_col(t: Transform, r: int, c: int) -> int {
    match t {
        Transform::Id => c,
        Transform::Rot90 => r,
        Transform::Rot180 => 14 - c,
        Transform::Rot270 => 14 - r,
        Transform::Flip => 14 - c,
        Transform::FlipRot90 => r,
        Transform::FlipRot180 => c,
        Transform::FlipRot270 => 14 - r,
    }
}

/// Each transform undoes its inverse.
proof fn lemma_inverse_inverse(t: Transform)
    ensures
        spec_inverse(spec_inverse(t)) == t,
{
}

/// A cell on the board holds a stone of `s` exactly when its image holds
/// one in the carried-over set.
proof fn lemma_stone_moved(t: Transform, s: Set<int>, r: int, c: int)
    requires
        on_board(r, c),
    ensures
        stone_in(transform_set(t, s), moved_row(t, r, c), moved_col(t, r, c)) == s.contains(
            r * 15 + c,
        ),
{
    let i = r * 15 + c;
    lemma_cell_parts(r, c);
    lemma_transform_parts(t, i);
    lemma_transform_in_range(t, i);
    let j = transform_cell(t, i);
    lemma_cell_split(j);
    lemma_inverse_roundtrip(t, i);
}

/// The image of a five is a five, along the image of its direction.
proof fn lemma_five_moved(t: Transform, s: Set<int>, r: int, c: int, dr: int, dc: int)
    requires
        five_from(s, r, c, dr, dc),
    ensures
        five_from(
            transform_set(t, s),
            moved_row(t, r, c),
            moved_col(t, r, c),
            moved_row(t, dr, dc) - moved_row(t, 0, 0),
            moved_col(t, dr, dc) - moved_col(t, 0, 0),
        ),
{
    let ts = transform_set(t, s);
    let r0 = moved_row(t, r, c);
    let c0 = moved_col(t, r, c);
    let er = moved_row(t, dr, dc) - moved_row(t, 0, 0);
    let ec = moved_col(t, dr, dc) - moved_col(t, 0, 0);
    lemma_stone_moved(t, s, r, c);
    lemma_moved_affine(t, r, c, dr, dc, 1);
    lemma_stone_moved(t, s, r + dr, c + dc);
    lemma_moved_affine(t, r, c, dr, dc, 2);
    lemma_stone_moved(t, s, r + 2 * dr, c + 2 * dc);
    lemma_moved_affine(t, r, c, dr, dc, 3);
    lemma_stone_moved(t, s, r + 3 * dr, c + 3 * dc);
    lemma_moved_affine(t, r, c, dr, dc, 4);
    lemma_stone_moved(t, s, r + 4 * dr, c + 4 * dc);
    assert(stone_in(ts, r0 + er, c0 + ec));
}

/// The transforms are affine in row and column.
proof fn lemma_moved_affine(t: Transform, r: int, c: int, dr: int, dc: int, k: int)
    ensures
        moved_row(t, r + k * dr, c + k * dc) == moved_row(t, r, c) + k * (moved_row(t, dr, dc)
            - moved_row(t, 0, 0)),
        moved_col(t, r + k * dr, c + k * dc) == moved_col(t, r, c) + k * (moved_col(t, dr, dc)
            - moved_col(t, 0, 0)),
{
    assert(k * (-dr) == -(k * dr)) by (nonlinear_arith);
    assert(k * (-dc) == -(k * dc)) by (nonlinear_arith);
}

/// A five read from its other end.
proof fn lemma_five_reversed(s: Set<int>, r: int, c: int, dr: int, dc: int)
    requires
        five_from(s, r, c, dr, dc),
    ensures
        five_from(s, r + 4 * dr, c + 4 * dc, -dr, -dc),
{
    assert(r + 4 * dr + 4 * (-dr) == r);
    assert(c + 4 * dc + 4 * (-dc) == c);
    assert(r + 4 * dr + 3 * (-dr) == r + dr);
    assert(c + 4 * dc + 3 * (-dc) == c + dc);
    assert(r + 4 * dr + 2 * (-dr) == r + 2 * dr);
    assert(c + 4 * dc + 2 * (-dc) == c + 2 * dc);
    assert(r + 4 * dr + (-dr) == r + 3 * dr);
    assert(c + 4 * dc + (-dc) == c + 3 * dc);
}

/// A five along any of the eight compass directions is five in a row.
proof fn lemma_five_any_dir(s: Set<int>, r: int, c: int, dr: int, dc: int)
    requires
        five_from(s, r, c, dr, dc),
        -1 <= dr <= 1,
        -1 <= dc <= 1,
        dr != 0 || dc != 0,
    ensures
        has_five(s),
{
    if dr == 1 || (dr == 0 && dc == 1) {
        if dr == 0 {
            assert(five_in_dir(s, 0, 1));
        } else if dc == 0 {
            assert(five_in_dir(s, 1, 0));
        } else if dc == -1 {
            assert(five_in_dir(s, 1, -1));
        } else {
            assert(five_in_dir(s, 1, 1));
        }
    } else {
        lemma_five_reversed(s, r, c, dr, dc);
        let r2 = r + 4 * dr;
        let c2 = c + 4 * dc;
        if dr == 0 {
            assert(five_in_dir(s, 0, 1)) by {
                assert(five_from(s, r2, c2, 0, 1));
            }
        } else if dc == 0 {
            assert(five_in_dir(s, 1, 0)) by {
                assert(five_from(s, r2, c2, 1, 0));
            }
        } else if dc == 1 {
            assert(five_in_dir(s, 1, -1)) by {
                assert(five_from(s, r2, c2, 1, -1));
            }
        } else {
            assert(five_in_dir(s, 1, 1)) by {
                assert(five_from(s, r2, c2, 1, 1));
            }
        }
    }
}

/// A five along `(dr, dc)` has a carried-over five.
proof fn lemma_five_dir_moved(t: Transform, s: Set<int>, dr: int, dc: int)
    requires
        five_in_dir(s, dr, dc),
        -1 <= dr <= 1,
        -1 <= dc <= 1,
        dr != 0 || dc != 0,
    ensures
        has_five(transform_set(t, s)),
{
    let (r, c) = choose|r: int, c: int| #[trigger] five_from(s, r, c, dr, dc);
    lemma_five_moved(t, s, r, c, dr, dc);
    lemma_five_any_dir(
        transform_set(t, s),
        moved_row(t, r, c),
        moved_col(t, r, c),
        moved_row(t, dr, dc) - moved_row(t, 0, 0),
        moved_col(t, dr, dc) - moved_col(t, 0, 0),
    );
}

/// Carrying a set over by `t` and back by its inverse gives the set again.
proof fn lemma_transform_set_back(t: Transform, s: Set<int>)
    requires
        forall|i: int| #[trigger] s.contains(i) ==> 0 <= i < 225,
    ensures
        transform_set(spec_inverse(t), transform_set(t, s)) == s,
{
    lemma_inverse_inverse(t);
    assert forall|x: int| #[trigger] s.contains(x) == transform_set(
        spec_inverse(t),
        transform_set(t, s),
    ).contains(x) by {
        if 0 <= x < 225 {
            lemma_transform_in_range(t, x);
            lemma_inverse_roundtrip(t, x);
        }
    }
    assert(transform_set(spec_inverse(t), transform_set(t, s)) =~= s);
}

/// Five in a row survives every symmetry of the board, and none appears
/// where there was none: a won position stays won under all transforms.
pub proof fn lemma_transform_keeps_five(t: Transform, s: Set<int>)
    requires
        forall|i: int| #[trigger] s.contains(i) ==> 0 <= i < 225,
    ensures
        has_five(transform_set(t, s)) == has_five(s),
{
    if has_five(s) {
        if five_in_dir(s, 0, 1) {
            lemma_five_dir_moved(t, s, 0, 1);
        } else if five_in_dir(s, 1, 0) {
            lemma_five_dir_moved(t, s, 1, 0);
        } else if five_in_dir(s, 1, -1) {
            lemma_five_dir_moved(t, s, 1, -1);
        } else {
            lemma_five_dir_moved(t, s, 1, 1);
        }
    }
    let ts = transform_set(t, s);
    if has_five(ts) {
        let u = spec_inverse(t);
        if five_in_dir(ts, 0, 1) {
            lemma_five_dir_moved(u, ts, 0, 1);
        } else if five_in_dir(ts, 1, 0) {
            lemma_five_dir_moved(u, ts, 1, 0);
        } else if five_in_dir(ts, 1, -1) {
            lemma_five_dir_moved(u, ts, 1, -1);
        } else {
            lemma_five_dir_moved(u, ts, 1, 1);
        }
        lemma_transform_set_back(t, s);
    }
}

/// A cell of the board lies in the carried-over set exactly when the cell
/// it came from lies in the set.
pub proof fn lemma_transform_set_at(t: Transform, s: Set<int>, m: int)
    requires
        0 <= m < 225,
    ensures
        0 <= transform_cell(t, m) < 225,
        transform_set(t, s).contains(transform_cell(t, m)) == s.contains(m),
{
    lemma_transform_in_range(t, m);
    lemma_inverse_roundtrip(t, m);
}

/// Adding a stone and carrying the set over is carrying it over and adding
/// the stone's image.
proof fn lemma_transform_set_insert(t: Transform, s: Set<int>, m: int)
    requires
        0 <= m < 225,
    ensures
        transform_set(t, s.insert(m)) == transform_set(t, s).insert(transform_cell(t, m)),
{
    lemma_transform_set_at(t, s, m);
    lemma_inverse_inverse(t);
    assert forall|x: int| #[trigger] transform_set(t, s.insert(m)).contains(x) == transform_set(
        t,
        s,
    ).insert(transform_cell(t, m)).contains(x) by {
        if 0 <= x < 225 {
            lemma_inverse_roundtrip(spec_inverse(t), x);
            lemma_inverse_roundtrip(t, m);
        }
    }
    assert(transform_set(t, s.insert(m)) =~= transform_set(t, s).insert(transform_cell(t, m)));
}

/// `q` is `p` carried over by `t`: stones moved, everything else equal.
pub open spec fn carried(t: Transform, p: Position, q: Position) -> bool {
    &&& q.black == transform_set(t, p.black)
    &&& q.white == transform_set(t, p.white)
    &&& q.to_move == p.to_move
    &&& q.status == p.status
    &&& q.moves.len() == p.moves.len()
}

/// Playing the image of a move on the carried-over position meets the same
/// answer, and a legal move leads to the carried-over position after it.
proof fn lemma_carried_play(t: Transform, p: Position, q: Position, m: Move, n: Move)
    requires
        p.valid(),
        carried(t, p, q),
        0 <= m@ < 225,
        n@ == transform_cell(t, m@),
    ensures
        q.play_error(n@) == p.play_error(m@),
        p.play_error(m@) is None ==> carried(t, p.after_play(m), q.after_play(n)),
{
    lemma_transform_set_at(t, p.black, m@);
    lemma_transform_set_at(t, p.white, m@);
    if p.play_error(m@) is None {
        let c = p.to_move;
        let stones = p.stones(c).insert(m@);
        lemma_transform_set_insert(t, p.stones(c), m@);
        assert forall|i: int| #[trigger] stones.contains(i) implies 0 <= i < 225 by {
            if i != m@ {
                assert(p.stones(c).contains(i));
            }
        }
        lemma_transform_keeps_five(t, stones);
    }
}

/// Playing the mirror image of a legal game, move by move, is legal and
/// reaches the mirror image of its position: the same side to move and the
/// same status, so a won game stays won under every symmetry.
pub proof fn lemma_transform_history(t: Transform, h: Seq<Move>, g: Seq<Move>)
    requires
        legal_history(h),
        g.len() == h.len(),
        forall|k: int| 0 <= k < h.len() ==> (#[trigger] g[k])@ == transform_cell(t, h[k]@),
    ensures
        legal_history(g),
        carried(t, replay(h), replay(g)),
    decreases h.len(),
{
    if h.len() == 0 {
        assert(transform_set(t, Set::<int>::empty()) =~= Set::<int>::empty());
    } else {
        let hp = h.drop_last();
        let gp = g.drop_last();
        assert forall|k: int| 0 <= k < hp.len() implies (#[trigger] gp[k])@ == transform_cell(
            t,
            hp[k]@,
        ) by {
            assert(gp[k] == g[k]);
            assert(hp[k] == h[k]);
        }
        lemma_transform_history(t, hp, gp);
        lemma_replay_valid(hp);
        lemma_replay_valid(gp);
        assert(g.last()@ == transform_cell(t, h.last()@)) by {
            assert(g[g.len() - 1]@ == transform_cell(t, h[h.len() - 1]@));
        }
        lemma_carried_play(t, replay(hp), replay(gp), h.last(), g.last());
        lemma_transform_in_range(t, h.last()@);
    }
}

/// The position after trying each move of `moves` in turn from `p`: a move
/// that `play` would refuse leaves the position as it is.
pub open spec fn attempt_all(p: Position, moves: Seq<Move>) -> Position
    decreases moves.len(),
{
    if moves.len() == 0 {
        p
    } else {
        let q = attempt_all(p, moves.drop_last());
        if q.play_error(moves.last()@) is None {
            q.after_play(moves.last())
        } else {
            q
        }
    }
}

/// Trying the mirror image of each of a list of moves from the empty board
/// reaches the mirror image of what trying the moves themselves reaches:
/// the same moves are refused, and the same status and side to move result.
pub proof fn lemma_transform_attempts(t: Transform, ms: Seq<Move>, ts: Seq<Move>)
    requires
        ts.len() == ms.len(),
        forall|k: int| 0 <= k < ms.len() ==> 0 <= #[trigger] ms[k]@ < 225,
        forall|k: int| 0 <= k < ms.len() ==> (#[trigger] ts[k])@ == transform_cell(t, ms[k]@),
    ensures
        attempt_all(start_position(), ms).valid(),
        carried(t, attempt_all(start_position(), ms), attempt_all(start_position(), ts)),
    decreases ms.len(),
{
    if ms.len() == 0 {
        let e = start_position();
        assert(transform_set(t, Set::<int>::empty()) =~= Set::<int>::empty());
        assert(e.black =~= Set::<int>::empty());
    } else {
        let mp = ms.drop_last();
        let tp = ts.drop_last();
        assert forall|k: int| 0 <= k < mp.len() implies 0 <= #[trigger] mp[k]@ < 225 by {
            assert(mp[k] == ms[k]);
        }
        assert forall|k: int| 0 <= k < mp.len() implies (#[trigger] tp[k])@ == transform_cell(
            t,
            mp[k]@,
        ) by {
            assert(tp[k] == ts[k]);
            assert(mp[k] == ms[k]);
        }
        lemma_transform_attempts(t, mp, tp);
        let p = attempt_all(start_position(), mp);
        let q = attempt_all(start_position(), tp);
        assert(0 <= ms.last()@ < 225) by {
            assert(ms[ms.len() - 1] == ms.last());
        }
        assert(ts.last()@ == transform_cell(t, ms.last()@)) by {
            assert(ts[ts.len() - 1]@ == transform_cell(t, ms[ms.len() - 1]@));
        }
        lemma_carried_play(t, p, q, ms.last(), ts.last());
        if p.play_error(ms.last()@) is None {
            crate::board::lemma_play_valid(p, ms.last());
        }
    }
}

/// Rotate a row-major cell 90 degrees to the left.
pub fn rot90(i: u8) -> (o: u8)
    requires
        i < 225,
    ensures
        o == spec_rot90(i as int),
        o < 225,
{
    proof {
        lemma_rot90_parts(i as int);
    }
    let (r, c) = (i / 15, i % 15);
    (14 - c) * 15 + r
}

/// Mirror a row-major cell along the vertical axis.
pub fn flip(i: u8) -> (o: u8)
    requires
        i < 225,
    ensures
        o == spec_flip(i as int),
        o < 225,
{
    proof {
        lemma_flip_parts(i as int);
    }
    let (r, c) = (i / 15, i % 15);
    r * 15 + (14 - c)
}

impl Transform {
    /// All eight transforms, in the order of `Transform::index`.
    pub fn all() -> (ts: [Transform; 8])
        ensures
            forall|k: int| 0 <= k < 8 ==> (#[trigger] ts[k]).index_spec() == k,
    {
        [
            Transform::Id,
            Transform::Rot90,
            Transform::Rot180,
            Transform::Rot270,
            Transform::Flip,
            Transform::FlipRot90,
            Transform::FlipRot180,
            Transform::FlipRot270,
        ]
    }

    pub open spec fn index_spec(self) -> int {
        match self {
            Transform::Id => 0,
            Transform::Rot90 => 1,
            Transform::Rot180 => 2,
            Transform::Rot270 => 3,
            Transform::Flip => 4,
            Transform::FlipRot90 => 5,
            Transform::FlipRot180 => 6,
            Transform::FlipRot270 => 7,
        }
    }

    /// Position of the transform in `Transform::all()`.
    pub fn index(self) -> (k: usize)
        ensures
            k == self.index_spec(),
    {
        match self {
            Transform::Id => 0,
            Transform::Rot90 => 1,
            Transform::Rot180 => 2,
            Transform::Rot270 => 3,
            Transform::Flip => 4,
            Transform::FlipRot90 => 5,
            Transform::FlipRot180 => 6,
            Transform::FlipRot270 => 7,
        }
    }

    /// The inverse transform: `t.inverse().transform_move(t.transform_move(m)) == m`.
    pub fn inverse(self) -> (t: Transform)
        ensures
            t == spec_inverse(self),
    {
        match self {
            Transform::Id => Transform::Id,
            Transform::Rot90 => Transform::Rot270,
            Transform::Rot180 => Transform::Rot180,
            Transform::Rot270 => Transform::Rot90,
            Transform::Flip => Transform::Flip,
            Transform::FlipRot90 => Transform::FlipRot90,
            Transform::FlipRot180 => Transform::FlipRot180,
            Transform::FlipRot270 => Transform::FlipRot270,
        }
    }

    /// Where this transform sends the row-major cell `i`.
    pub fn apply(self, i: u8) -> (o: u8)
        requires
            i < 225,
        ensures
            o == transform_cell(self, i as int),
            o < 225,
    {
        match self {
            Transform::Id => i,
            Transform::Rot90 => rot90(i),
            Transform::Rot180 => rot90(rot90(i)),
            Transform::Rot270 => rot90(rot90(rot90(i))),
            Transform::Flip => flip(i),
            Transform::FlipRot90 => rot90(flip(i)),
            Transform::FlipRot180 => rot90(rot90(flip(i))),
            Transform::FlipRot270 => rot90(rot90(rot90(flip(i)))),
        }
    }

    /// Apply this transform to a board cell.
    pub fn transform_move(self, mv: Move) -> (o: Move)
        ensures
            o@ == transform_cell(self, mv@),
    {
        let i = self.apply(mv.index() as u8);
        Move::from_index(i as usize)
    }

    /// Permute a flat 15x15 array: the value on cell `i` moves to the cell
    /// this transform sends `i` to.
    pub fn permute<T: Copy>(self, cells: &[T; 225]) -> (out: [T; 225])
        ensures
            forall|i: int| 0 <= i < 225 ==> out[transform_cell(self, i)] == #[trigger] cells[i],
    {
        let mut out = *cells;
        let mut i: usize = 0;
        while i < 225
            invariant
                i <= 225,
                out@.len() == 225,
                forall|j: int| 0 <= j < i ==> out[transform_cell(self, j)] == #[trigger] cells[j],
            decreases 225 - i,
        {
            let dst = self.apply(i as u8);
            out[dst as usize] = cells[i];
            proof {
                assert forall|j: int| 0 <= j < i + 1 implies out[transform_cell(self, j)]
                    == #[trigger] cells[j] by {
                    if j < i {
                        lemma_transform_in_range(self, j);
                        lemma_inverse_roundtrip(self, j);
                        lemma_inverse_roundtrip(self, i as int);
                    }
                }
            }
            i = i + 1;
        }
        out
    }
}

} // verus!
