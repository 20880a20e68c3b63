//! 17x17 plane encoding: the 15x15 board inside a one-cell border ring, the
//! ring set in the opponent's plane.
use vstd::prelude::*;
use crate::bitboard::{idx, lemma_stride_index, stride_index};
use crate::board::{Board, Position};
use crate::moveset::{Move, row_of, col_of};
use crate::reference::{legal_history, replay, replayed, start_position};
use crate::symmetry::{
    Transform,
    attempt_all,
    carried,
    lemma_transform_attempts,
    spec_inverse,
    lemma_transform_history,
    lemma_transform_set_at,
    transform_cell,
    transform_set,
};

verus! {

/// Side length of an encoded plane.
pub const EXT: usize = 17;

/// Relative planes: `me` is the side to move.
#[derive(Debug, Clone, PartialEq, Eq)]
pub struct Planes {
    /// Stones of the side to move; the border is 0.
    pub me: [u8; 289],
    /// Opponent stones; the border ring is 1.
    pub you: [u8; 289],
}

/// Plane index `k` lies on the border ring.
pub open spec fn on_ring(k: int) -> bool {
    k / 17 == 0 || k % 17 == 0 || k / 17 == 16 || k % 17 == 16
}

/// The board cell under an inner plane index.
pub open spec fn inner_cell(k: int) -> int {
    (k / 17 - 1) * 15 + (k % 17 - 1)
}

/// The `me` plane of a position.
pub open spec fn me_value(p: Position, k: int) -> u8 {
    if on_ring(k) {
        0
    } else if p.stones(p.to_move).contains(inner_cell(k)) {
        1
    } else {
        0
    }
}

/// The `you` plane of a position.
pub open spec fn you_value(p: Position, k: int) -> u8 {
    if on_ring(k) {
        1
    } else if p.stones(p.to_move.opponent()).contains(inner_cell(k)) {
        1
    } else {
        0
    }
}

/// The plane index of board cell `i`: one row and one column in from the
/// border ring.
pub open spec fn plane_index(i: int) -> int {
    (row_of(i) + 1) * 17 + (col_of(i) + 1)
}

/// A board cell lands inside the ring, and the plane index leads back to it.
proof fn lemma_plane_index(i: int)
    requires
        0 <= i < 225,
    ensures
        0 <= plane_index(i) < 289,
        !on_ring(plane_index(i)),
        inner_cell(plane_index(i)) == i,
{
    let r = row_of(i);
    let c = col_of(i);
    let k = plane_index(i);
    assert(0 <= r < 15 && 0 <= c < 15 && i == r * 15 + c) by (nonlinear_arith)
        requires
            r == i / 15,
            c == i % 15,
            0 <= i < 225,
    ;
    assert(k / 17 == r + 1 && k % 17 == c + 1) by (nonlinear_arith)
        requires
            k == (r + 1) * 17 + (c + 1),
            0 <= r < 15,
            0 <= c < 15,
    ;
}

/// Encoding commutes with every symmetry: playing the mirror image of a
/// legal game gives the planes of the game with the inner 15x15 cells
/// permuted by the transform and the border ring left where it is, so
/// augmentation never changes what a position means.
pub proof fn lemma_encode_commutes(t: Transform, h: Seq<Move>, g: Seq<Move>)
    requires
        legal_history(h),
        g.len() == h.len(),
        forall|k: int| 0 <= k < h.len() ==> (#[trigger] g[k])@ == transform_cell(t, h[k]@),
    ensures
        forall|k: int|
            0 <= k < 289 && on_ring(k) ==> me_value(replay(g), k) == me_value(replay(h), k)
                && you_value(replay(g), k) == you_value(replay(h), k),
        forall|i: int|
            0 <= i < 225 ==> me_value(replay(g), #[trigger] plane_index(transform_cell(t, i)))
                == me_value(replay(h), plane_index(i)) && you_value(
                replay(g),
                plane_index(transform_cell(t, i)),
            ) == you_value(replay(h), plane_index(i)),
{
    lemma_transform_history(t, h, g);
    let p = replay(h);
    let q = replay(g);
    assert forall|i: int| 0 <= i < 225 implies me_value(q, #[trigger] plane_index(transform_cell(t, i)))
        == me_value(p, plane_index(i)) && you_value(q, plane_index(transform_cell(t, i)))
        == you_value(p, plane_index(i)) by {
        lemma_transform_set_at(t, p.black, i);
        lemma_transform_set_at(t, p.white, i);
        lemma_plane_index(i);
        lemma_plane_index(transform_cell(t, i));
        assert(carried(t, p, q));
        assert(q.stones(q.to_move) == transform_set(t, p.stones(p.to_move)));
        assert(q.stones(q.to_move.opponent()) == transform_set(
            t,
            p.stones(p.to_move.opponent()),
        ));
    }
}

/// The same for boards: two boards set up empty and played on, the second
/// with the mirror image of each move of the first, encode into planes that
/// differ by the permutation of the inner cells alone.
pub proof fn lemma_encode_commutes_played(t: Transform, p: Position, q: Position)
    requires
        replayed(p),
        replayed(q),
        q.moves.len() == p.moves.len(),
        forall|k: int| 0 <= k < p.moves.len() ==> (#[trigger] q.moves[k])@ == transform_cell(t, p.moves[k]@),
    ensures
        forall|k: int|
            0 <= k < 289 && on_ring(k) ==> me_value(q, k) == me_value(p, k) && you_value(q, k)
                == you_value(p, k),
        forall|i: int|
            0 <= i < 225 ==> me_value(q, #[trigger] plane_index(transform_cell(t, i))) == me_value(
                p,
                plane_index(i),
            ) && you_value(q, plane_index(transform_cell(t, i))) == you_value(p, plane_index(i)),
{
    lemma_encode_commutes(t, p.moves, q.moves);
}

/// The `me` plane of a position, all 289 entries.
pub open spec fn me_plane(p: Position) -> Seq<u8> {
    Seq::new(289, |k: int| me_value(p, k))
}

/// The `you` plane of a position, all 289 entries.
pub open spec fn you_plane(p: Position) -> Seq<u8> {
    Seq::new(289, |k: int| you_value(p, k))
}

/// A plane with its border ring kept and its inner 15x15 cells moved by
/// `t`: inner cell `j` takes the value of the cell `t` sends to `j`.
pub open spec fn permuted_plane(plane: Seq<u8>, t: Transform) -> Seq<u8> {
    Seq::new(
        289,
        |k: int|
            if on_ring(k) {
                plane[k]
            } else {
                plane[plane_index(transform_cell(spec_inverse(t), inner_cell(k)))]
            },
    )
}

/// An inner plane index is the plane index of its board cell.
proof fn lemma_inner_cell(k: int)
    requires
        0 <= k < 289,
        !on_ring(k),
    ensures
        0 <= inner_cell(k) < 225,
        plane_index(inner_cell(k)) == k,
{
    let a = k / 17;
    let b = k % 17;
    assert(k == a * 17 + b && 0 <= b < 17 && 0 <= a < 17) by (nonlinear_arith)
        requires
            a == k / 17,
            b == k % 17,
            0 <= k < 289,
    ;
    let i = inner_cell(k);
    assert(i == (a - 1) * 15 + (b - 1));
    assert(0 <= i < 225) by (nonlinear_arith)
        requires
            i == (a - 1) * 15 + (b - 1),
            1 <= a <= 15,
            1 <= b <= 15,
    ;
    crate::symmetry::lemma_cell_parts(a - 1, b - 1);
}

/// `q` is the consistent position `p` carried over by `t`.
#[verifier::opaque]
spec fn carried_valid(t: Transform, p: Position, q: Position) -> bool {
    p.valid() && carried(t, p, q)
}

/// One inner entry of the planes of a carried-over position.
proof fn lemma_encode_carried_at(t: Transform, p: Position, q: Position, k: int)
    requires
        carried_valid(t, p, q),
        0 <= k < 289,
        !on_ring(k),
    ensures
        0 <= plane_index(transform_cell(spec_inverse(t), inner_cell(k))) < 289,
        me_value(q, k) == me_value(p, plane_index(transform_cell(spec_inverse(t), inner_cell(k)))),
        you_value(q, k) == you_value(p, plane_index(transform_cell(spec_inverse(t), inner_cell(k)))),
{
    reveal(carried_valid);
    lemma_inner_cell(k);
    let j = inner_cell(k);
    let i = transform_cell(spec_inverse(t), j);
    crate::symmetry::lemma_transform_in_range(spec_inverse(t), j);
    crate::symmetry::lemma_inverse_roundtrip(spec_inverse(t), j);
    assert(spec_inverse(spec_inverse(t)) == t);
    assert(transform_cell(t, i) == j);
    lemma_transform_set_at(t, p.black, i);
    lemma_transform_set_at(t, p.white, i);
    lemma_plane_index(i);
}

/// The planes of a position carried over by `t`, entry by entry.
proof fn lemma_encode_carried_all(t: Transform, p: Position, q: Position)
    requires
        carried_valid(t, p, q),
    ensures
        me_plane(q) == permuted_plane(me_plane(p), t),
        you_plane(q) == permuted_plane(you_plane(p), t),
{
    assert forall|k: int| 0 <= k < 289 implies #[trigger] me_plane(q)[k] == permuted_plane(
        me_plane(p),
        t,
    )[k] by {
        if !on_ring(k) {
            lemma_encode_carried_at(t, p, q, k);
        }
    }
    assert forall|k: int| 0 <= k < 289 implies #[trigger] you_plane(q)[k] == permuted_plane(
        you_plane(p),
        t,
    )[k] by {
        if !on_ring(k) {
            lemma_encode_carried_at(t, p, q, k);
        }
    }
    assert(me_plane(q) =~= permuted_plane(me_plane(p), t));
    assert(you_plane(q) =~= permuted_plane(you_plane(p), t));
}

/// The planes of a position carried over by `t` are its planes with the
/// inner cells permuted.
pub proof fn lemma_encode_carried(t: Transform, p: Position, q: Position)
    requires
        p.valid(),
        carried(t, p, q),
    ensures
        me_plane(q) == permuted_plane(me_plane(p), t),
        you_plane(q) == permuted_plane(you_plane(p), t),
{
    assert(carried_valid(t, p, q)) by {
        reveal(carried_valid);
    }
    lemma_encode_carried_all(t, p, q);
}

/// Encoding commutes with every symmetry for boards built by trying moves
/// from the empty board: trying the mirror image of each move gives the
/// planes of the original with the inner cells permuted by the transform
/// and the border ring in place.
pub proof fn lemma_encode_commutes_attempts(t: Transform, ms: Seq<Move>, ts: Seq<Move>)
    requires
        ts.len() == ms.len(),
        forall|k: int| 0 <= k < ms.len() ==> 0 <= #[trigger] ms[k]@ < 225,
        forall|k: int| 0 <= k < ms.len() ==> (#[trigger] ts[k])@ == transform_cell(t, ms[k]@),
    ensures
        me_plane(attempt_all(start_position(), ts)) == permuted_plane(
            me_plane(attempt_all(start_position(), ms)),
            t,
        ),
        you_plane(attempt_all(start_position(), ts)) == permuted_plane(
            you_plane(attempt_all(start_position(), ms)),
            t,
        ),
{
    lemma_transform_attempts(t, ms, ts);
    lemma_encode_carried(t, attempt_all(start_position(), ms), attempt_all(start_position(), ts));
}

/// Encode a board relative to the side to move.
pub fn encode(b: &Board) -> (p: Planes)
    requires
        b.wf(),
    ensures
        forall|k: int| 0 <= k < 289 ==> #[trigger] p.me[k] == me_value(b@, k),
        forall|k: int| 0 <= k < 289 ==> #[trigger] p.you[k] == you_value(b@, k),
        p.me@ == me_plane(b@),
        p.you@ == you_plane(b@),
{
    let mut me = [0u8; 289];
    let mut you = [0u8; 289];
    let mover = b.to_move();
    let mine = b.stones(mover);
    let theirs = b.stones(mover.other());
    let mut k: usize = 0;
    while k < 289
        invariant
            k <= 289,
            b.wf(),
            me@.len() == 289,
            you@.len() == 289,
            mine.cells() == b@.stones(b@.to_move),
            theirs.cells() == b@.stones(b@.to_move.opponent()),
            forall|j: int| 0 <= j < k ==> #[trigger] me[j] == me_value(b@, j),
            forall|j: int| 0 <= j < k ==> #[trigger] you[j] == you_value(b@, j),
            forall|j: int| k <= j < 289 ==> #[trigger] me[j] == 0,
            forall|j: int| k <= j < 289 ==> #[trigger] you[j] == 0,
        decreases 289 - k,
    {
        let r = k / EXT;
        let c = k % EXT;
        assert(me[k as int] == 0 && you[k as int] == 0);
        if r == 0 || c == 0 || r == EXT - 1 || c == EXT - 1 {
            you[k] = 1;
        } else {
            let i = idx((r - 1) as u8, (c - 1) as u8);
            proof {
                let m = inner_cell(k as int);
                assert(m / 15 == r - 1 && m % 15 == c - 1) by (nonlinear_arith)
                    requires
                        m == (r - 1) * 15 + (c - 1),
                        1 <= r < 16,
                        1 <= c < 16,
                ;
                lemma_stride_index(m);
                b.lemma_wf_valid();
                assert(!(b@.black.contains(m) && b@.white.contains(m)));
                mine.lemma_cells_contains(m);
                theirs.lemma_cells_contains(m);
            }
            if mine.test(i) {
                me[k] = 1;
            } else if theirs.test(i) {
                you[k] = 1;
            }
        }
        k = k + 1;
    }
    Planes { me, you }
}

} // verus!
