//! A naive array-based board: the differential-testing oracle for the
//! bitboard engine. It finds wins by walking the lines through the stone
//! just placed, and undoes by replaying the history.
use vstd::prelude::*;
use vstd::pervasive::unreached;
use crate::board::{Color, PlayError, Position, Status, lemma_play_undo, lemma_play_valid, status_of};
use crate::moveset::{Move, MoveSet};
use crate::tactics::{double_threat_set, empties, immediate_win_set, winning_set};
use crate::tss::line_wins;
use crate::rules::{five_from, five_in_dir, has_five, on_board, stone_in};

verus! {

/// One board cell.
#[derive(Debug, Clone, Copy, PartialEq, Eq, Structural)]
pub enum Cell {
    Empty,
    Stone(Color),
}

/// The position before any move: empty board, Black to move.
pub open spec fn start_position() -> Position {
    Position {
        black: Set::<int>::empty(),
        white: Set::<int>::empty(),
        to_move: Color::Black,
        status: Status::Ongoing,
        moves: Seq::<Move>::empty(),
    }
}

/// The position reached by playing `moves` from the empty board.
pub open spec fn replay(moves: Seq<Move>) -> Position
    decreases moves.len(),
{
    if moves.len() == 0 {
        start_position()
    } else {
        replay(moves.drop_last()).after_play(moves.last())
    }
}

/// Every move of `moves` is legal where it is played.
pub open spec fn legal_history(moves: Seq<Move>) -> bool
    decreases moves.len(),
{
    moves.len() == 0 || (legal_history(moves.drop_last()) && 0 <= moves.last()@ < 225 && replay(
        moves.drop_last(),
    ).play_error(moves.last()@) is None)
}

/// Coordinate `x` moved `k` steps in direction `d` (one of -1, 0, 1).
pub open spec fn step(x: int, d: int, k: int) -> int {
    if d == 1 {
        x + k
    } else if d == -1 {
        x - k
    } else {
        x
    }
}

/// `p` is the position its own history replays into, and that history is
/// legal: the position of a board set up empty and then played on.
pub open spec fn replayed(p: Position) -> bool {
    legal_history(p.moves) && p == replay(p.moves)
}

/// The status of a replayed position is the status its stones call for:
/// a five wins, a full board without one is drawn, and otherwise the game
/// goes on. Its stones are as many as its moves.
pub proof fn lemma_replayed_status(p: Position)
    requires
        replayed(p),
    ensures
        p.status == status_of(p.black, p.white),
        p.black.len() + p.white.len() == p.moves.len(),
{
    lemma_replay_status(p.moves);
}

proof fn lemma_replay_status(h: Seq<Move>)
    requires
        legal_history(h),
    ensures
        replay(h).status == status_of(replay(h).black, replay(h).white),
        replay(h).black.len() + replay(h).white.len() == h.len(),
    decreases h.len(),
{
    lemma_replay_valid(h);
    if h.len() == 0 {
        assert(replay(h).black =~= Set::<int>::empty());
        assert(replay(h).white =~= Set::<int>::empty());
    } else {
        let pre = h.drop_last();
        let m = h.last();
        lemma_replay_status(pre);
        lemma_replay_valid(pre);
        let p = replay(pre);
        let q = replay(h);
        assert(p.status == Status::Ongoing);
        assert(!p.black.contains(m@) && !p.white.contains(m@));
        match p.to_move {
            Color::Black => {
                assert(q.black == p.black.insert(m@));
                assert(q.white == p.white);
            },
            Color::White => {
                assert(q.white == p.white.insert(m@));
                assert(q.black == p.black);
            },
        }
    }
}

/// A legal move keeps a replayed position replayed.
pub proof fn lemma_replayed_play(p: Position, mv: Move)
    requires
        replayed(p),
        0 <= mv@ < 225,
        p.play_error(mv@) is None,
    ensures
        replayed(p.after_play(mv)),
{
    let h = p.moves.push(mv);
    assert(h.drop_last() =~= p.moves);
    assert(p.after_play(mv).moves == h);
}

/// Taking back the last move keeps a replayed position replayed.
pub proof fn lemma_replayed_undo(p: Position)
    requires
        replayed(p),
        p.moves.len() > 0,
    ensures
        replayed(p.after_undo()),
{
    let h = p.moves;
    let pre = h.drop_last();
    lemma_replay_valid(pre);
    lemma_play_undo(replay(pre), h.last());
}

/// In a replayed position the side to move follows the parity of the
/// history, and the stones are exactly the history's moves: Black's on the
/// even turns, White's on the odd ones.
pub proof fn lemma_replayed_stones(p: Position)
    requires
        replayed(p),
    ensures
        p.to_move == (if p.moves.len() % 2 == 0 {
            Color::Black
        } else {
            Color::White
        }),
        forall|m: int|
            #[trigger] p.black.contains(m) <==> exists|k: int|
                0 <= k < p.moves.len() && k % 2 == 0 && #[trigger] p.moves[k]@ == m,
        forall|m: int|
            #[trigger] p.white.contains(m) <==> exists|k: int|
                0 <= k < p.moves.len() && k % 2 == 1 && #[trigger] p.moves[k]@ == m,
{
    lemma_replay_stones(p.moves);
}

proof fn lemma_replay_stones(h: Seq<Move>)
    requires
        legal_history(h),
    ensures
        replay(h).to_move == (if h.len() % 2 == 0 {
            Color::Black
        } else {
            Color::White
        }),
        forall|m: int|
            #[trigger] replay(h).black.contains(m) <==> exists|k: int|
                0 <= k < h.len() && k % 2 == 0 && #[trigger] h[k]@ == m,
        forall|m: int|
            #[trigger] replay(h).white.contains(m) <==> exists|k: int|
                0 <= k < h.len() && k % 2 == 1 && #[trigger] h[k]@ == m,
    decreases h.len(),
{
    if h.len() > 0 {
        let pre = h.drop_last();
        lemma_replay_stones(pre);
        let q = replay(pre);
        let n = pre.len();
        assert forall|m: int| #[trigger] replay(h).black.contains(m) <==> exists|k: int|
            0 <= k < h.len() && k % 2 == 0 && #[trigger] h[k]@ == m by {
            if replay(h).black.contains(m) {
                if q.black.contains(m) {
                    let k = choose|k: int| 0 <= k < pre.len() && k % 2 == 0 && #[trigger] pre[k]@ == m;
                    assert(h[k] == pre[k]);
                } else {
                    assert(h[n as int]@ == m);
                }
            }
            if exists|k: int| 0 <= k < h.len() && k % 2 == 0 && #[trigger] h[k]@ == m {
                let k = choose|k: int| 0 <= k < h.len() && k % 2 == 0 && #[trigger] h[k]@ == m;
                if k < n {
                    assert(pre[k] == h[k]);
                }
            }
        }
        assert forall|m: int| #[trigger] replay(h).white.contains(m) <==> exists|k: int|
            0 <= k < h.len() && k % 2 == 1 && #[trigger] h[k]@ == m by {
            if replay(h).white.contains(m) {
                if q.white.contains(m) {
                    let k = choose|k: int| 0 <= k < pre.len() && k % 2 == 1 && #[trigger] pre[k]@ == m;
                    assert(h[k] == pre[k]);
                } else {
                    assert(h[n as int]@ == m);
                }
            }
            if exists|k: int| 0 <= k < h.len() && k % 2 == 1 && #[trigger] h[k]@ == m {
                let k = choose|k: int| 0 <= k < h.len() && k % 2 == 1 && #[trigger] h[k]@ == m;
                if k < n {
                    assert(pre[k] == h[k]);
                }
            }
        }
    }
}

/// Exactly `n` consecutive stones of `s` from `(r, c)` (exclusive) walking
/// `(dr, dc)`.
pub open spec fn run_is(s: Set<int>, r: int, c: int, dr: int, dc: int, n: int) -> bool {
    &&& n >= 0
    &&& forall|k: int| 1 <= k <= n ==> #[trigger] stone_in(s, step(r, dr, k), step(c, dc, k))
    &&& !stone_in(s, step(r, dr, n + 1), step(c, dc, n + 1))
}

/// A history replays into a consistent position, and every prefix of it
/// replays into the prefix's position.
pub proof fn lemma_replay_valid(moves: Seq<Move>)
    requires
        legal_history(moves),
    ensures
        replay(moves).valid(),
        replay(moves).moves == moves,
        replay(moves).status == Status::Ongoing ==> !has_five(replay(moves).black) && !has_five(
            replay(moves).white,
        ),
    decreases moves.len(),
{
    if moves.len() == 0 {
        let p = start_position();
        assert(p.black =~= Set::<int>::empty());
        assert(!has_five(p.black));
        assert(!has_five(p.white));
    } else {
        let pre = moves.drop_last();
        lemma_replay_valid(pre);
        lemma_play_valid(replay(pre), moves.last());
        assert(replay(moves).moves =~= moves);
    }
}

/// Placing a stone on an empty cell of a position without five makes five
/// along an axis exactly when the runs through that cell, on both sides,
/// add up to four stones.
#[verifier::spinoff_prover]
#[verifier::rlimit(40)]
pub proof fn lemma_local_five(s: Set<int>, r: int, c: int, dr: int, dc: int, f: int, b: int)
    requires
        (dr == 0 && dc == 1) || (dr == 1 && dc == 0) || (dr == 1 && dc == -1) || (dr == 1 && dc
            == 1),
        on_board(r, c),
        !s.contains(r * 15 + c),
        !five_in_dir(s, dr, dc),
        run_is(s, r, c, dr, dc, f),
        run_is(s, r, c, -dr, -dc, b),
    ensures
        five_in_dir(s.insert(r * 15 + c), dr, dc) <==> f + b >= 4,
{
    let m = r * 15 + c;
    let t = s.insert(m);
    if f + b >= 4 {
        let j: int = if b >= 4 {
            4
        } else {
            b
        };
        let r0 = r - j * dr;
        let c0 = c - j * dc;
        assert forall|u: int| 0 <= u <= 4 implies #[trigger] stone_in(t, r0 + u * dr, c0 + u * dc) by {
            if u < j {
                let k = j - u;
                assert(stone_in(s, step(r, -dr, k), step(c, -dc, k)));
                assert(step(r, -dr, k) == r0 + u * dr && step(c, -dc, k) == c0 + u * dc) by (
                nonlinear_arith)
                    requires
                        k == j - u,
                        r0 == r - j * dr,
                        c0 == c - j * dc,
                        (dr == 0 || dr == 1),
                        (dc == -1 || dc == 0 || dc == 1),
                        step(r, -dr, k) == (if -dr == 1 {
                            r + k
                        } else if -dr == -1 {
                            r - k
                        } else {
                            r
                        }),
                        step(c, -dc, k) == (if -dc == 1 {
                            c + k
                        } else if -dc == -1 {
                            c - k
                        } else {
                            c
                        }),
                ;
            } else if u == j {
                assert(r0 + u * dr == r && c0 + u * dc == c) by (nonlinear_arith)
                    requires
                        u == j,
                        r0 == r - j * dr,
                        c0 == c - j * dc,
                ;
            } else {
                let k = u - j;
                assert(k <= f);
                assert(stone_in(s, step(r, dr, k), step(c, dc, k)));
                assert(step(r, dr, k) == r0 + u * dr && step(c, dc, k) == c0 + u * dc) by (
                nonlinear_arith)
                    requires
                        k == u - j,
                        r0 == r - j * dr,
                        c0 == c - j * dc,
                        (dr == 0 || dr == 1),
                        (dc == -1 || dc == 0 || dc == 1),
                        step(r, dr, k) == (if dr == 1 {
                            r + k
                        } else if dr == -1 {
                            r - k
                        } else {
                            r
                        }),
                        step(c, dc, k) == (if dc == 1 {
                            c + k
                        } else if dc == -1 {
                            c - k
                        } else {
                            c
                        }),
                ;
            }
        }
        assert(stone_in(t, r0 + 0 * dr, c0 + 0 * dc));
        assert(stone_in(t, r0 + 1 * dr, c0 + 1 * dc));
        assert(stone_in(t, r0 + 2 * dr, c0 + 2 * dc));
        assert(stone_in(t, r0 + 3 * dr, c0 + 3 * dc));
        assert(stone_in(t, r0 + 4 * dr, c0 + 4 * dc));
        assert(five_from(t, r0, c0, dr, dc));
    } else {
        if five_in_dir(t, dr, dc) {
            let (r0, c0) = choose|r0: int, c0: int| #[trigger] five_from(t, r0, c0, dr, dc);
            // One of the five cells is the new stone: `s` alone has no five.
            assert(!five_from(s, r0, c0, dr, dc));
            let pos = choose|u: int|
                0 <= u <= 4 && #[trigger] stone_in(t, r0 + u * dr, c0 + u * dc) && !stone_in(
                    s,
                    r0 + u * dr,
                    c0 + u * dc,
                );
            lemma_five_cells(s, t, r0, c0, dr, dc);
            lemma_run_through(s, t, r, c, r0, c0, dr, dc, pos, f, b);
        }
    }
}

/// The cells of a five in `s.insert(m)` lie in `s` or are `m`.
proof fn lemma_five_cells(s: Set<int>, t: Set<int>, r0: int, c0: int, dr: int, dc: int)
    requires
        five_from(t, r0, c0, dr, dc),
    ensures
        forall|u: int| 0 <= u <= 4 ==> #[trigger] stone_in(t, r0 + u * dr, c0 + u * dc),
{
    assert forall|u: int| 0 <= u <= 4 implies #[trigger] stone_in(t, r0 + u * dr, c0 + u * dc) by {
        if u == 0 {
            assert(r0 + u * dr == r0 && c0 + u * dc == c0);
        } else if u == 1 {
            assert(r0 + u * dr == r0 + dr && c0 + u * dc == c0 + dc);
        } else if u == 2 {
            assert(r0 + u * dr == r0 + 2 * dr && c0 + u * dc == c0 + 2 * dc);
        } else if u == 3 {
            assert(r0 + u * dr == r0 + 3 * dr && c0 + u * dc == c0 + 3 * dc);
        } else {
            assert(r0 + u * dr == r0 + 4 * dr && c0 + u * dc == c0 + 4 * dc);
        }
    }
}

/// If the new stone at `(r, c)` sits at position `pos` of a five, the run
/// forward is at least `4 - pos` and the run backward at least `pos`.
proof fn lemma_run_through(
    s: Set<int>,
    t: Set<int>,
    r: int,
    c: int,
    r0: int,
    c0: int,
    dr: int,
    dc: int,
    pos: int,
    f: int,
    b: int,
)
    requires
        (dr == 0 && dc == 1) || (dr == 1 && dc == 0) || (dr == 1 && dc == -1) || (dr == 1 && dc
            == 1),
        on_board(r, c),
        t == s.insert(r * 15 + c),
        0 <= pos <= 4,
        forall|u: int| 0 <= u <= 4 ==> #[trigger] stone_in(t, r0 + u * dr, c0 + u * dc),
        stone_in(t, r0 + pos * dr, c0 + pos * dc),
        !stone_in(s, r0 + pos * dr, c0 + pos * dc),
        run_is(s, r, c, dr, dc, f),
        run_is(s, r, c, -dr, -dc, b),
    ensures
        f + b >= 4,
{
    let m = r * 15 + c;
    let pr = r0 + pos * dr;
    let pc = c0 + pos * dc;
    // The cell that is in `t` but not in `s` is `m`.
    assert(pr * 15 + pc == m);
    assert(pr == r && pc == c) by (nonlinear_arith)
        requires
            pr * 15 + pc == r * 15 + c,
            0 <= pc < 15,
            0 <= c < 15,
    ;
    // Forward: cells pos+1..4 are stones of `s`.
    if f < 4 - pos {
        let u = pos + f + 1;
        assert(stone_in(t, r0 + u * dr, c0 + u * dc));
        assert(r0 + u * dr == step(r, dr, f + 1) && c0 + u * dc == step(c, dc, f + 1)) by (
        nonlinear_arith)
            requires
                u == pos + f + 1,
                r == r0 + pos * dr,
                c == c0 + pos * dc,
                (dr == 0 || dr == 1),
                (dc == -1 || dc == 0 || dc == 1),
                step(r, dr, f + 1) == (if dr == 1 {
                    r + (f + 1)
                } else if dr == -1 {
                    r - (f + 1)
                } else {
                    r
                }),
                step(c, dc, f + 1) == (if dc == 1 {
                    c + (f + 1)
                } else if dc == -1 {
                    c - (f + 1)
                } else {
                    c
                }),
        ;
        assert(r0 + u * dr != r || c0 + u * dc != c) by (nonlinear_arith)
            requires
                u == pos + f + 1,
                r == r0 + pos * dr,
                c == c0 + pos * dc,
                f >= 0,
                (dr == 1 || dc == 1),
                (dr == 0 || dr == 1),
        ;
        lemma_stone_not_new(s, r, c, r0 + u * dr, c0 + u * dc);
        assert(false);
    }
    if b < pos {
        let u = pos - b - 1;
        assert(stone_in(t, r0 + u * dr, c0 + u * dc));
        assert(r0 + u * dr == step(r, -dr, b + 1) && c0 + u * dc == step(c, -dc, b + 1)) by (
        nonlinear_arith)
            requires
                u == pos - b - 1,
                r == r0 + pos * dr,
                c == c0 + pos * dc,
                (dr == 0 || dr == 1),
                (dc == -1 || dc == 0 || dc == 1),
                step(r, -dr, b + 1) == (if -dr == 1 {
                    r + (b + 1)
                } else if -dr == -1 {
                    r - (b + 1)
                } else {
                    r
                }),
                step(c, -dc, b + 1) == (if -dc == 1 {
                    c + (b + 1)
                } else if -dc == -1 {
                    c - (b + 1)
                } else {
                    c
                }),
        ;
        assert(r0 + u * dr != r || c0 + u * dc != c) by (nonlinear_arith)
            requires
                u == pos - b - 1,
                r == r0 + pos * dr,
                c == c0 + pos * dc,
                b >= 0,
                (dr == 1 || dc == 1),
                (dr == 0 || dr == 1),
        ;
        lemma_stone_not_new(s, r, c, r0 + u * dr, c0 + u * dc);
        assert(false);
    }
}

/// A stone of `s.insert((r, c))` on another cell is a stone of `s`.
proof fn lemma_stone_not_new(s: Set<int>, r: int, c: int, x: int, y: int)
    requires
        on_board(r, c),
        stone_in(s.insert(r * 15 + c), x, y),
        x != r || y != c,
    ensures
        stone_in(s, x, y),
{
    assert(x * 15 + y != r * 15 + c) by (nonlinear_arith)
        requires
            x != r || y != c,
            0 <= y < 15,
            0 <= c < 15,
    ;
}


/// Coordinate `x` moved `k` steps of size `d`.
pub open spec fn along(x: int, d: int, k: int) -> int {
    x + k * d
}

/// Exactly `n` consecutive stones of `s` follow `(r, c)` (exclusive) in
/// steps of `(dr, dc)`.
pub open spec fn ray_is(s: Set<int>, r: int, c: int, dr: int, dc: int, n: int) -> bool {
    &&& n >= 0
    &&& forall|k: int| 1 <= k <= n ==> #[trigger] stone_in(s, along(r, dr, k), along(c, dc, k))
    &&& !stone_in(s, along(r, dr, n + 1), along(c, dc, n + 1))
}

/// One of the eight unit directions.
pub open spec fn unit_dir(dr: int, dc: int) -> bool {
    &&& -1 <= dr <= 1
    &&& -1 <= dc <= 1
    &&& !(dr == 0 && dc == 0)
}

/// On a unit direction, `along` and `step` walk the same cells.
proof fn lemma_along_step(x: int, d: int, k: int)
    requires
        -1 <= d <= 1,
    ensures
        along(x, d, k) == step(x, d, k),
{
    if d == 1 {
        assert(k * d == k);
    } else if d == -1 {
        assert(k * d == -k);
    } else {
        assert(k * d == 0);
    }
}

/// On a unit direction a ray of `along` steps is a run of `step`s.
proof fn lemma_ray_is_run(s: Set<int>, r: int, c: int, dr: int, dc: int, n: int)
    requires
        unit_dir(dr, dc),
        ray_is(s, r, c, dr, dc, n),
    ensures
        run_is(s, r, c, dr, dc, n),
{
    assert forall|k: int| 1 <= k <= n implies #[trigger] stone_in(s, step(r, dr, k), step(c, dc, k)) by {
        lemma_along_step(r, dr, k);
        lemma_along_step(c, dc, k);
        assert(stone_in(s, along(r, dr, k), along(c, dc, k)));
    }
    lemma_along_step(r, dr, n + 1);
    lemma_along_step(c, dc, n + 1);
}

/// A run from `(r, c)` never visits `(r, c)` itself, so a stone placed
/// there does not change it.
proof fn lemma_run_insert(s: Set<int>, r: int, c: int, dr: int, dc: int, n: int)
    requires
        unit_dir(dr, dc),
        on_board(r, c),
    ensures
        run_is(s.insert(r * 15 + c), r, c, dr, dc, n) <==> run_is(s, r, c, dr, dc, n),
{
    let t = s.insert(r * 15 + c);
    assert forall|k: int| 1 <= k implies #[trigger] stone_in(t, step(r, dr, k), step(c, dc, k))
        == stone_in(s, step(r, dr, k), step(c, dc, k)) by {
        assert(step(r, dr, k) != r || step(c, dc, k) != c);
        if stone_in(t, step(r, dr, k), step(c, dc, k)) {
            lemma_stone_not_new(s, r, c, step(r, dr, k), step(c, dc, k));
        }
    }
    if run_is(t, r, c, dr, dc, n) {
        assert forall|k: int| 1 <= k <= n implies #[trigger] stone_in(s, step(r, dr, k), step(c, dc, k)) by {
            assert(stone_in(t, step(r, dr, k), step(c, dc, k)));
        }
        assert(!stone_in(t, step(r, dr, n + 1), step(c, dc, n + 1)));
    }
    if run_is(s, r, c, dr, dc, n) {
        assert forall|k: int| 1 <= k <= n implies #[trigger] stone_in(t, step(r, dr, k), step(c, dc, k)) by {
            assert(stone_in(s, step(r, dr, k), step(c, dc, k)));
        }
        assert(!stone_in(s, step(r, dr, n + 1), step(c, dc, n + 1)));
        assert(stone_in(t, step(r, dr, n + 1), step(c, dc, n + 1)) == stone_in(s, step(r, dr, n + 1), step(c, dc, n + 1)));
    }
}

/// A run has one length.
proof fn lemma_run_unique(s: Set<int>, r: int, c: int, dr: int, dc: int, n1: int, n2: int)
    requires
        run_is(s, r, c, dr, dc, n1),
        run_is(s, r, c, dr, dc, n2),
    ensures
        n1 == n2,
{
    if n1 < n2 {
        assert(stone_in(s, step(r, dr, n1 + 1), step(c, dc, n1 + 1)));
    } else if n2 < n1 {
        assert(stone_in(s, step(r, dr, n2 + 1), step(c, dc, n2 + 1)));
    }
}

/// The first step `k >= from` (at most 16) whose cell holds no stone of `s`.
pub open spec fn first_gap(s: Set<int>, r: int, c: int, dr: int, dc: int, from: int) -> int
    decreases 16 - from,
{
    if from >= 16 || !stone_in(s, step(r, dr, from), step(c, dc, from)) {
        from
    } else {
        first_gap(s, r, c, dr, dc, from + 1)
    }
}

proof fn lemma_first_gap(s: Set<int>, r: int, c: int, dr: int, dc: int, from: int)
    requires
        1 <= from <= 16,
    ensures
        from <= first_gap(s, r, c, dr, dc, from) <= 16,
        forall|k: int|
            from <= k < first_gap(s, r, c, dr, dc, from) ==> #[trigger] stone_in(
                s,
                step(r, dr, k),
                step(c, dc, k),
            ),
        first_gap(s, r, c, dr, dc, from) < 16 ==> !stone_in(
            s,
            step(r, dr, first_gap(s, r, c, dr, dc, from)),
            step(c, dc, first_gap(s, r, c, dr, dc, from)),
        ),
    decreases 16 - from,
{
    if from < 16 && stone_in(s, step(r, dr, from), step(c, dc, from)) {
        lemma_first_gap(s, r, c, dr, dc, from + 1);
    }
}

/// Every run from a cell of the board has a length.
proof fn lemma_run_exists(s: Set<int>, r: int, c: int, dr: int, dc: int)
    requires
        unit_dir(dr, dc),
        on_board(r, c),
    ensures
        exists|n: int| run_is(s, r, c, dr, dc, n),
{
    lemma_first_gap(s, r, c, dr, dc, 1);
    let g = first_gap(s, r, c, dr, dc, 1);
    if g == 16 {
        assert(!on_board(step(r, dr, 16), step(c, dc, 16)));
    }
    assert(run_is(s, r, c, dr, dc, g - 1));
}

/// A line of at least five of `s` through `(r, c)` along `(dr, dc)` once
/// `(r, c)` itself is counted: the runs on both sides add up to four.
pub open spec fn axis_through(s: Set<int>, r: int, c: int, dr: int, dc: int) -> bool {
    exists|f: int, b: int|
        #![trigger run_is(s, r, c, dr, dc, f), run_is(s, r, c, -dr, -dc, b)]
        run_is(s, r, c, dr, dc, f) && run_is(s, r, c, -dr, -dc, b) && f + b >= 4
}

/// A stone on `(r, c)` would be part of five of `s` along some axis.
pub open spec fn through_win(s: Set<int>, r: int, c: int) -> bool {
    ||| axis_through(s, r, c, 0, 1)
    ||| axis_through(s, r, c, 1, 0)
    ||| axis_through(s, r, c, 1, -1)
    ||| axis_through(s, r, c, 1, 1)
}

/// On an axis where `s` has no five, the line through an empty cell wins
/// exactly when a stone there makes five.
proof fn lemma_axis_through(s: Set<int>, r: int, c: int, dr: int, dc: int)
    requires
        (dr == 0 && dc == 1) || (dr == 1 && dc == 0) || (dr == 1 && dc == -1) || (dr == 1 && dc
            == 1),
        on_board(r, c),
        !s.contains(r * 15 + c),
        !five_in_dir(s, dr, dc),
    ensures
        axis_through(s, r, c, dr, dc) == five_in_dir(s.insert(r * 15 + c), dr, dc),
        axis_through(s.insert(r * 15 + c), r, c, dr, dc) == axis_through(s, r, c, dr, dc),
{
    lemma_run_exists(s, r, c, dr, dc);
    lemma_run_exists(s, r, c, -dr, -dc);
    let f = choose|n: int| #[trigger] run_is(s, r, c, dr, dc, n);
    let b = choose|n: int| #[trigger] run_is(s, r, c, -dr, -dc, n);
    lemma_local_five(s, r, c, dr, dc, f, b);
    let t = s.insert(r * 15 + c);
    lemma_run_insert(s, r, c, dr, dc, f);
    lemma_run_insert(s, r, c, -dr, -dc, b);
    if axis_through(s, r, c, dr, dc) {
        let (f2, b2) = choose|f2: int, b2: int|
            #[trigger] run_is(s, r, c, dr, dc, f2) && #[trigger] run_is(s, r, c, -dr, -dc, b2) && f2
                + b2 >= 4;
        lemma_run_unique(s, r, c, dr, dc, f, f2);
        lemma_run_unique(s, r, c, -dr, -dc, b, b2);
    }
    if axis_through(t, r, c, dr, dc) {
        let (f2, b2) = choose|f2: int, b2: int|
            #[trigger] run_is(t, r, c, dr, dc, f2) && #[trigger] run_is(t, r, c, -dr, -dc, b2) && f2
                + b2 >= 4;
        lemma_run_insert(s, r, c, dr, dc, f2);
        lemma_run_insert(s, r, c, -dr, -dc, b2);
        lemma_run_unique(s, r, c, dr, dc, f, f2);
        lemma_run_unique(s, r, c, -dr, -dc, b, b2);
    }
}

/// Where `s` has no five, a line through the empty cell `(r, c)` wins
/// exactly when a stone there completes five; the stone itself does not
/// change the lines through its cell.
pub proof fn lemma_through_win(s: Set<int>, r: int, c: int)
    requires
        on_board(r, c),
        !s.contains(r * 15 + c),
        !has_five(s),
    ensures
        through_win(s, r, c) == has_five(s.insert(r * 15 + c)),
        through_win(s.insert(r * 15 + c), r, c) == through_win(s, r, c),
{
    lemma_axis_through(s, r, c, 0, 1);
    lemma_axis_through(s, r, c, 1, 0);
    lemma_axis_through(s, r, c, 1, -1);
    lemma_axis_through(s, r, c, 1, 1);
}

/// Two cells `k = 1` and `k = n + 1` steps away on one line of the board
/// with a nonzero step are fewer than 15 steps apart.
proof fn lemma_bounded_steps(x: int, d: int, n: int)
    requires
        d != 0,
        n >= 0,
        0 <= along(x, d, 1) < 15,
        0 <= along(x, d, n + 1) < 15,
    ensures
        n < 15,
{
    assert((n + 1) * d == n * d + d) by (nonlinear_arith);
    if d > 0 {
        assert(n * d >= n) by (nonlinear_arith)
            requires
                d >= 1,
                n >= 0,
        ;
    } else {
        assert(n * d <= -n) by (nonlinear_arith)
            requires
                d <= -1,
                n >= 0,
        ;
    }
}

/// The stones of `color` in a row-major array of cells.
pub open spec fn cell_stones(cells: Seq<Cell>, color: Color) -> Set<int> {
    Set::new(|m: int| 0 <= m < 225 && cells[m] == Cell::Stone(color))
}

/// The cell `(r, c)` is on the board and holds a stone of `color`.
fn holds_in(cells: &[Cell; 225], r: i32, c: i32, color: Color) -> (b: bool)
    ensures
        b == stone_in(cell_stones(cells@, color), r as int, c as int),
{
    if 0 <= r && r < 15 && 0 <= c && c < 15 {
        let m = (r * 15 + c) as usize;
        cells[m] == Cell::Stone(color)
    } else {
        false
    }
}

/// The number of consecutive stones of `color` in `cells` after `(r, c)`
/// in steps of `(dr, dc)`, the cell `(r, c)` itself not counted.
fn count_dir_cells(cells: &[Cell; 225], r: usize, c: usize, dr: i32, dc: i32, color: Color) -> (n: usize)
    requires
        r <= i32::MAX,
        c <= i32::MAX,
        i32::MIN <= r + dr <= i32::MAX,
        i32::MIN <= c + dc <= i32::MAX,
        i32::MIN + 15 <= dr <= i32::MAX - 15,
        i32::MIN + 15 <= dc <= i32::MAX - 15,
        dr == 0 && dc == 0 ==> !stone_in(cell_stones(cells@, color), r as int, c as int),
    ensures
        ray_is(cell_stones(cells@, color), r as int, c as int, dr as int, dc as int, n as int),
        n <= 15,
{
    let ghost s = cell_stones(cells@, color);
    let mut n: usize = 0;
    let mut nr: i32 = r as i32 + dr;
    let mut nc: i32 = c as i32 + dc;
    proof {
        assert(along(r as int, dr as int, 1) == r + dr);
        assert(along(c as int, dc as int, 1) == c + dc);
    }
    while holds_in(cells, nr, nc, color)
        invariant
            s == cell_stones(cells@, color),
            n <= 15,
            nr == along(r as int, dr as int, n + 1),
            nc == along(c as int, dc as int, n + 1),
            forall|k: int| 1 <= k <= n ==> #[trigger] stone_in(s, along(r as int, dr as int, k), along(c as int, dc as int, k)),
            n >= 1 ==> stone_in(s, along(r as int, dr as int, 1), along(c as int, dc as int, 1)),
            dr == 0 && dc == 0 ==> !stone_in(s, r as int, c as int),
            i32::MIN + 15 <= dr <= i32::MAX - 15,
            i32::MIN + 15 <= dc <= i32::MAX - 15,
        decreases 15 - n,
    {
        let ghost rr = r as int;
        let ghost cc = c as int;
        let ghost k1 = n + 1;
        assert(stone_in(s, along(rr, dr as int, k1), along(cc, dc as int, k1)));
        proof {
            let a = along(rr, dr as int, 1);
            let b = along(cc, dc as int, 1);
            assert(stone_in(s, a, b));
            if dr != 0 {
                lemma_bounded_steps(rr, dr as int, n as int);
            } else if dc != 0 {
                lemma_bounded_steps(cc, dc as int, n as int);
            } else {
                assert(along(rr, dr as int, k1) == rr);
                assert(along(cc, dc as int, k1) == cc);
            }
            assert(along(rr, dr as int, n + 2) == along(rr, dr as int, n + 1) + dr) by (nonlinear_arith);
            assert(along(cc, dc as int, n + 2) == along(cc, dc as int, n + 1) + dc) by (nonlinear_arith);
        }
        n = n + 1;
        nr = nr + dr;
        nc = nc + dc;
    }
    n
}

/// Whether the line through `(r, c)` along the axis `(dr, dc)` holds five
/// of `color` once `(r, c)` is counted.
fn axis_through_cells(cells: &[Cell; 225], r: usize, c: usize, dr: i32, dc: i32, color: Color) -> (w: bool)
    requires
        r < 15,
        c < 15,
        unit_dir(dr as int, dc as int),
    ensures
        w == axis_through(cell_stones(cells@, color), r as int, c as int, dr as int, dc as int),
{
    let ghost s = cell_stones(cells@, color);
    let f = count_dir_cells(cells, r, c, dr, dc, color);
    let b = count_dir_cells(cells, r, c, -dr, -dc, color);
    proof {
        lemma_ray_is_run(s, r as int, c as int, dr as int, dc as int, f as int);
        lemma_ray_is_run(s, r as int, c as int, -dr as int, -dc as int, b as int);
        if axis_through(s, r as int, c as int, dr as int, dc as int) {
            let (f2, b2) = choose|f2: int, b2: int|
                #[trigger] run_is(s, r as int, c as int, dr as int, dc as int, f2) && #[trigger] run_is(
                    s,
                    r as int,
                    c as int,
                    -dr as int,
                    -dc as int,
                    b2,
                ) && f2 + b2 >= 4;
            lemma_run_unique(s, r as int, c as int, dr as int, dc as int, f as int, f2);
            lemma_run_unique(s, r as int, c as int, -dr as int, -dc as int, b as int, b2);
        }
    }
    1 + f + b >= 5
}

/// Whether a stone of `color` on `(r, c)` is part of five in `cells`,
/// counting `(r, c)` as a stone: the line-walking win test.
fn wins_from_cells(cells: &[Cell; 225], r: usize, c: usize, color: Color) -> (w: bool)
    requires
        r < 15,
        c < 15,
    ensures
        w == through_win(cell_stones(cells@, color), r as int, c as int),
{
    let a = axis_through_cells(cells, r, c, 0, 1, color);
    let b = axis_through_cells(cells, r, c, 1, 0, color);
    let d = axis_through_cells(cells, r, c, 1, 1, color);
    let e = axis_through_cells(cells, r, c, 1, -1, color);
    a || b || d || e
}

/// The naive board: one cell per square, the side to move, the status and
/// the full move history.
pub struct Board {
    cells: [Cell; 225],
    to_move: Color,
    status: Status,
    moves: Vec<Move>,
}

impl View for Board {
    type V = Position;

    closed spec fn view(&self) -> Position {
        Position {
            black: cell_stones(self.cells@, Color::Black),
            white: cell_stones(self.cells@, Color::White),
            to_move: self.to_move,
            status: self.status,
            moves: self.moves@,
        }
    }
}

/// Every prefix of a legal history is legal.
pub proof fn lemma_legal_prefix(h: Seq<Move>, k: int)
    requires
        legal_history(h),
        0 <= k <= h.len(),
    ensures
        legal_history(h.subrange(0, k)),
    decreases h.len(),
{
    if k == h.len() {
        assert(h.subrange(0, k) =~= h);
    } else {
        let pre = h.drop_last();
        assert(pre.subrange(0, k) =~= h.subrange(0, k));
        lemma_legal_prefix(pre, k);
    }
}

/// The `k`-th move of a legal history is legal after the moves before it.
proof fn lemma_legal_step(h: Seq<Move>, k: int)
    requires
        legal_history(h),
        0 <= k < h.len(),
    ensures
        0 <= h[k]@ < 225,
        replay(h.subrange(0, k)).play_error(h[k]@) is None,
        replay(h.subrange(0, k + 1)) == replay(h.subrange(0, k)).after_play(h[k]),
        h.subrange(0, k + 1) == h.subrange(0, k).push(h[k]),
{
    lemma_legal_prefix(h, k + 1);
    let p = h.subrange(0, k + 1);
    assert(p.drop_last() =~= h.subrange(0, k));
    assert(p =~= h.subrange(0, k).push(h[k]));
}

impl Board {
    /// The board's internal consistency: its position is the one its
    /// history replays into, and that history is legal.
    pub closed spec fn wf(&self) -> bool {
        &&& legal_history(self.moves@)
        &&& self@ == replay(self.moves@)
    }

    /// A well-formed board holds a consistent position.
    pub proof fn lemma_wf_valid(&self)
        requires
            self.wf(),
        ensures
            self@.valid(),
            self@.status == Status::Ongoing ==> !has_five(self@.black) && !has_five(self@.white),
    {
        lemma_replay_valid(self.moves@);
    }

    /// The empty board, Black to move.
    pub fn new() -> (b: Board)
        ensures
            b.wf(),
            b@ == start_position(),
    {
        let mut cells = [Cell::Empty; 225];
        let mut m: usize = 0;
        while m < 225
            invariant
                m <= 225,
                cells@.len() == 225,
                forall|j: int| 0 <= j < m ==> cells@[j] == Cell::Empty,
            decreases 225 - m,
        {
            cells[m] = Cell::Empty;
            m = m + 1;
        }
        let b = Board {
            cells,
            to_move: Color::Black,
            status: Status::Ongoing,
            moves: Vec::new(),
        };
        proof {
            assert(b@.black =~= Set::<int>::empty());
            assert(b@.white =~= Set::<int>::empty());
            assert(b@.moves =~= Seq::<Move>::empty());
            assert(b.moves@ =~= Seq::<Move>::empty());
        }
        b
    }

    pub fn status(&self) -> (s: Status)
        ensures
            s == self@.status,
    {
        self.status
    }

    pub fn to_move(&self) -> (c: Color)
        ensures
            c == self@.to_move,
    {
        self.to_move
    }

    /// The stone on `mv`, if any.
    pub fn stone_at(&self, mv: Move) -> (s: Option<Color>)
        ensures
            s == (if self@.black.contains(mv@) {
                Some(Color::Black)
            } else if self@.white.contains(mv@) {
                Some(Color::White)
            } else {
                None
            }),
    {
        match self.cells[mv.index()] {
            Cell::Empty => None,
            Cell::Stone(color) => Some(color),
        }
    }

    /// The number of consecutive stones of `color` after `(r, c)` in steps
    /// of `(dr, dc)`, the cell `(r, c)` itself not counted.
    pub fn count_dir(&self, r: usize, c: usize, dr: i32, dc: i32, color: Color) -> (n: usize)
        requires
            r <= i32::MAX,
            c <= i32::MAX,
            i32::MIN <= r + dr <= i32::MAX,
            i32::MIN <= c + dc <= i32::MAX,
            i32::MIN + 15 <= dr <= i32::MAX - 15,
            i32::MIN + 15 <= dc <= i32::MAX - 15,
            dr == 0 && dc == 0 ==> !stone_in(self@.stones(color), r as int, c as int),
        ensures
            ray_is(self@.stones(color), r as int, c as int, dr as int, dc as int, n as int),
            n <= 15,
    {
        proof {
            assert(self@.stones(color) == cell_stones(self.cells@, color));
        }
        count_dir_cells(&self.cells, r, c, dr, dc, color)
    }

    /// Whether a stone of `color` on `(r, c)` is part of five, counting
    /// `(r, c)` as a stone.
    fn wins_from(&self, r: usize, c: usize, color: Color) -> (w: bool)
        requires
            r < 15,
            c < 15,
        ensures
            w == through_win(self@.stones(color), r as int, c as int),
    {
        proof {
            assert(self@.stones(color) == cell_stones(self.cells@, color));
        }
        wins_from_cells(&self.cells, r, c, color)
    }
}

impl Board {
    /// Place a stone of the side to move on `mv`.
    pub fn play(&mut self, mv: Move) -> (r: Result<(), PlayError>)
        requires
            old(self).wf(),
        ensures
            final(self).wf(),
            match old(self)@.play_error(mv@) {
                Some(e) => r == Err::<(), PlayError>(e) && final(self)@ == old(self)@,
                None => r is Ok && final(self)@ == old(self)@.after_play(mv),
            },
    {
        if self.status != Status::Ongoing {
            return Err(PlayError::GameOver);
        }
        let m = mv.index();
        if self.cells[m] != Cell::Empty {
            return Err(PlayError::Occupied);
        }
        let ghost old_view = self@;
        let ghost old_moves = self.moves@;
        proof {
            self.lemma_wf_valid();
        }
        let color = self.to_move;
        self.cells[m] = Cell::Stone(color);
        self.moves.push(mv);
        let row = mv.row() as usize;
        let col = mv.col() as usize;
        proof {
            assert(self@.black =~= old_view.after_play(mv).black);
            assert(self@.white =~= old_view.after_play(mv).white);
            assert(m == row * 15 + col);
        }
        proof {
            lemma_through_win(old_view.stones(color), row as int, col as int);
        }
        if self.wins_from(row, col, color) {
            self.status = Status::Won(color);
        } else if self.moves.len() == 225 {
            self.status = Status::Draw;
        }
        self.to_move = color.other();
        proof {
            assert(self@ =~= old_view.after_play(mv));
            assert(self.moves@.drop_last() =~= old_moves);
        }
        Ok(())
    }

    /// The moves played on this board, oldest first.
    pub fn moves(&self) -> (ms: &[Move])
        ensures
            ms@ == self@.moves,
    {
        self.moves.as_slice()
    }

    /// The empty cells in row-major order.
    pub fn empty_moves(&self) -> (v: Vec<Move>)
        ensures
            forall|k: int| 0 <= k < v.len() ==> !self@.occupied(#[trigger] v[k]@),
            forall|m: int|
                0 <= m < 225 && !self@.occupied(m) ==> exists|k: int|
                    0 <= k < v.len() && #[trigger] v[k]@ == m,
            forall|a: int, b: int| 0 <= a < b < v.len() ==> v[a]@ < v[b]@,
            self.wf() ==> v.len() == 225 - (self@.black.len() + self@.white.len()),
    {
        let mut v: Vec<Move> = Vec::new();
        let mut m: usize = 0;
        while m < 225
            invariant
                m <= 225,
                forall|k: int| 0 <= k < v.len() ==> !self@.occupied(#[trigger] v[k]@) && 0 <= v[k]@ < m,
                forall|j: int|
                    0 <= j < m && !self@.occupied(j) ==> exists|k: int|
                        0 <= k < v.len() && #[trigger] v[k]@ == j,
                forall|a: int, b: int| 0 <= a < b < v.len() ==> v[a]@ < v[b]@,
            decreases 225 - m,
        {
            let ghost old_v = v@;
            if self.cells[m] == Cell::Empty {
                v.push(Move::from_index(m));
                proof {
                    assert forall|j: int|
                        0 <= j < m + 1 && !self@.occupied(j) implies exists|k: int|
                        0 <= k < v.len() && #[trigger] v[k]@ == j by {
                        if j == m {
                            assert(v[v.len() - 1]@ == j);
                        } else {
                            let k = choose|k: int| 0 <= k < old_v.len() && #[trigger] old_v[k]@ == j;
                            assert(v[k]@ == j);
                        }
                    }
                }
            }
            m = m + 1;
        }
        proof {
            if self.wf() {
                self.lemma_wf_valid();
                let p = self@;
                crate::moveset::lemma_listing_len(v@, Set::new(|i: int| 0 <= i < 225 && !p.occupied(i)));
                crate::board::lemma_empties_len(p);
            }
        }
        v
    }

    /// Take back the last move by replaying the rest of the history on a
    /// fresh board.
    pub fn undo(&mut self)
        requires
            old(self).wf(),
            old(self)@.moves.len() > 0,
        ensures
            final(self).wf(),
            final(self)@ == old(self)@.after_undo(),
    {
        let ghost h = self.moves@;
        let ghost old_view = self@;
        let _ = self.moves.pop();
        let mut history: Vec<Move> = Vec::new();
        let mut j: usize = 0;
        while j < self.moves.len()
            invariant
                j <= self.moves.len(),
                history@ == self.moves@.subrange(0, j as int),
            decreases self.moves.len() - j,
        {
            history.push(self.moves[j]);
            j = j + 1;
        }
        proof {
            assert(history@ =~= h.drop_last());
        }
        *self = Board::new();
        proof {
            assert(self.moves@ =~= history@.subrange(0, 0));
            assert(legal_history(h.drop_last()));
        }
        let mut k: usize = 0;
        while k < history.len()
            invariant
                k <= history.len(),
                history@ == h.drop_last(),
                legal_history(history@),
                self.wf(),
                self.moves@ == history@.subrange(0, k as int),
            decreases history.len() - k,
        {
            proof {
                lemma_legal_step(history@, k as int);
                lemma_replay_valid(self.moves@);
            }
            let r = self.play(history[k]);
            match r {
                Ok(()) => {},
                Err(_) => {
                    proof {
                        assert(false);
                    }
                },
            }
            k = k + 1;
        }
        proof {
            assert(history@.subrange(0, history@.len() as int) =~= history@);
            let pre = h.drop_last();
            lemma_replay_valid(pre);
            assert(h =~= pre.push(h.last()));
            assert(h.drop_last() =~= pre);
            lemma_play_undo(replay(pre), h.last());
        }
    }
}

impl Default for Board {
    fn default() -> (b: Board)
        ensures
            b.wf(),
            b@ == start_position(),
    {
        Board::new()
    }
}


/// The empty cells where a stone of `side` would stand in a line of five
/// of `side` through it, found by walking the lines through each cell.
pub open spec fn naive_win_set(p: Position, side: Color) -> Set<int> {
    Set::new(|m: int| 0 <= m < 225 && !p.occupied(m) && through_win(p.stones(side), m / 15, m % 15))
}

/// The empty cells that are no line win for `side` by that walk, after
/// which the walk finds at least two empty cells that would be.
pub open spec fn naive_double_set(p: Position, side: Color) -> Set<int> {
    Set::new(
        |m: int|
            0 <= m < 225 && !p.occupied(m) && !through_win(p.stones(side), m / 15, m % 15) && Set::new(
                |m2: int|
                    empties(p).remove(m).contains(m2) && through_win(
                        p.stones(side).insert(m),
                        m2 / 15,
                        m2 % 15,
                    ),
            ).len() >= 2,
    )
}

/// The naive board a fast board's history replays into.
pub fn naive_from(b: &crate::board::Board) -> (nb: Board)
    requires
        b.wf(),
        legal_history(b@.moves),
    ensures
        nb.wf(),
        nb@ == replay(b@.moves),
{
    let ms = b.moves();
    let mut nb = Board::new();
    proof {
        assert(nb.moves@ =~= ms@.subrange(0, 0));
    }
    let mut k: usize = 0;
    while k < ms.len()
        invariant
            k <= ms.len(),
            legal_history(ms@),
            nb.wf(),
            nb.moves@ == ms@.subrange(0, k as int),
        decreases ms.len() - k,
    {
        proof {
            lemma_legal_step(ms@, k as int);
            lemma_replay_valid(nb.moves@);
        }
        let r = nb.play(ms[k]);
        match r {
            Ok(()) => {},
            Err(_) => {
                proof {
                    assert(false);
                }
            },
        }
        k = k + 1;
    }
    proof {
        assert(ms@.subrange(0, ms@.len() as int) =~= ms@);
        lemma_replay_valid(ms@);
    }
    nb
}

/// The line wins of `side` on a naive board.
fn immediate_wins_naive(b: &Board, side: Color) -> (s: MoveSet)
    ensures
        s@ == naive_win_set(b@, side),
{
    let mut out = MoveSet::empty();
    let ghost target = naive_win_set(b@, side);
    proof {
        assert(b@.stones(side) == cell_stones(b.cells@, side));
    }
    let mut m: usize = 0;
    while m < 225
        invariant
            m <= 225,
            target == naive_win_set(b@, side),
            b@.stones(side) == cell_stones(b.cells@, side),
            forall|x: int| #[trigger] out@.contains(x) <==> (0 <= x < m && target.contains(x)),
        decreases 225 - m,
    {
        let ghost before = out@;
        if b.cells[m] == Cell::Empty && wins_from_cells(&b.cells, m / 15, m % 15, side) {
            out.insert(Move::from_index(m));
        }
        proof {
            assert forall|x: int| #[trigger] out@.contains(x) <==> (0 <= x < m + 1 && target.contains(x)) by {
                if x != m {
                    assert(out@.contains(x) == before.contains(x));
                }
            }
        }
        m = m + 1;
    }
    proof {
        assert(out@ =~= target);
    }
    out
}

/// The line wins of `side` after replaying a fast board's history on the
/// naive board. On a position without five of `side` they are its
/// immediate wins (`lemma_naive_tactics_agree`).
pub fn naive_immediate_wins(b: &crate::board::Board, side: Color) -> (s: MoveSet)
    requires
        b.wf(),
        legal_history(b@.moves),
    ensures
        s@ == naive_win_set(replay(b@.moves), side),
{
    let nb = naive_from(b);
    immediate_wins_naive(&nb, side)
}

/// The opponent's line wins after replaying a fast board's history.
pub fn naive_forced_blocks(b: &crate::board::Board) -> (s: MoveSet)
    requires
        b.wf(),
        legal_history(b@.moves),
    ensures
        s@ == naive_win_set(replay(b@.moves), b@.to_move.opponent()),
{
    naive_immediate_wins(b, b.to_move().other())
}

/// The cells of `cells` after a stone of `side` is put on `m`.
fn with_stone(cells: &[Cell; 225], m: usize, side: Color) -> (h: [Cell; 225])
    requires
        m < 225,
    ensures
        h@ == cells@.update(m as int, Cell::Stone(side)),
        cell_stones(h@, side) == cell_stones(cells@, side).insert(m as int),
{
    let mut h = *cells;
    h[m] = Cell::Stone(side);
    proof {
        assert(cell_stones(h@, side) =~= cell_stones(cells@, side).insert(m as int));
    }
    h
}

/// The line-walking double threats of `side` after replaying a fast
/// board's history: each empty cell that is no line win itself is tried,
/// and kept when it leaves at least two.
pub fn naive_double_threats(b: &crate::board::Board, side: Color) -> (s: MoveSet)
    requires
        b.wf(),
        legal_history(b@.moves),
    ensures
        s@ == naive_double_set(replay(b@.moves), side),
{
    let nb = naive_from(b);
    let ghost p = nb@;
    let ghost target = naive_double_set(p, side);
    proof {
        assert(p.stones(side) == cell_stones(nb.cells@, side));
    }
    let mut out = MoveSet::empty();
    let mut m: usize = 0;
    while m < 225
        invariant
            m <= 225,
            p == nb@,
            target == naive_double_set(p, side),
            p.stones(side) == cell_stones(nb.cells@, side),
            forall|x: int| #[trigger] out@.contains(x) <==> (0 <= x < m && target.contains(x)),
        decreases 225 - m,
    {
        let ghost before = out@;
        if nb.cells[m] == Cell::Empty && !wins_from_cells(&nb.cells, m / 15, m % 15, side) {
            let hypo = with_stone(&nb.cells, m, side);
            let ghost inner = Set::new(
                |m2: int|
                    empties(p).remove(m as int).contains(m2) && through_win(
                        p.stones(side).insert(m as int),
                        m2 / 15,
                        m2 % 15,
                    ),
            );
            let mut wins = MoveSet::empty();
            let mut m2: usize = 0;
            while m2 < 225
                invariant
                    m2 <= 225,
                    m < 225,
                    p == nb@,
                    hypo@ == nb.cells@.update(m as int, Cell::Stone(side)),
                    cell_stones(hypo@, side) == p.stones(side).insert(m as int),
                    inner == Set::new(
                        |m2: int|
                            empties(p).remove(m as int).contains(m2) && through_win(
                                p.stones(side).insert(m as int),
                                m2 / 15,
                                m2 % 15,
                            ),
                    ),
                    forall|x: int| #[trigger] wins@.contains(x) <==> (0 <= x < m2 && inner.contains(x)),
                decreases 225 - m2,
            {
                let ghost wb = wins@;
                if hypo[m2] == Cell::Empty && wins_from_cells(&hypo, m2 / 15, m2 % 15, side) {
                    wins.insert(Move::from_index(m2));
                }
                proof {
                    assert(hypo@[m2 as int] == Cell::Empty <==> empties(p).remove(m as int).contains(m2 as int));
                    assert forall|x: int| #[trigger] wins@.contains(x) <==> (0 <= x < m2 + 1 && inner.contains(x)) by {
                        if x != m2 {
                            assert(wins@.contains(x) == wb.contains(x));
                        }
                    }
                }
                m2 = m2 + 1;
            }
            proof {
                assert(wins@ =~= inner);
            }
            if wins.len() >= 2 {
                out.insert(Move::from_index(m));
            }
        }
        proof {
            assert forall|x: int| #[trigger] out@.contains(x) <==> (0 <= x < m + 1 && target.contains(x)) by {
                if x != m {
                    assert(out@.contains(x) == before.contains(x));
                }
            }
        }
        m = m + 1;
    }
    proof {
        assert(out@ =~= target);
    }
    out
}

/// On a position where `side` has no five, the line-walking tactics and
/// the exact ones agree: the same immediate wins and the same double
/// threats.
pub proof fn lemma_naive_tactics_agree(p: Position, side: Color)
    requires
        !has_five(p.stones(side)),
    ensures
        naive_win_set(p, side) == immediate_win_set(p, side),
        naive_double_set(p, side) == double_threat_set(p, side),
{
    let st = p.stones(side);
    assert forall|m: int| #[trigger] naive_win_set(p, side).contains(m) == immediate_win_set(p, side).contains(m) by {
        if 0 <= m < 225 && !p.occupied(m) {
            assert(m / 15 * 15 + m % 15 == m);
            assert(!st.contains(m));
            lemma_through_win(st, m / 15, m % 15);
        }
    }
    assert(naive_win_set(p, side) =~= immediate_win_set(p, side));
    assert forall|m: int| #[trigger] naive_double_set(p, side).contains(m) == double_threat_set(p, side).contains(m) by {
        if 0 <= m < 225 && !p.occupied(m) {
            assert(m / 15 * 15 + m % 15 == m);
            assert(!st.contains(m));
            lemma_through_win(st, m / 15, m % 15);
            if !has_five(st.insert(m)) {
                let rest = empties(p).remove(m);
                let a = Set::new(|m2: int| rest.contains(m2) && through_win(st.insert(m), m2 / 15, m2 % 15));
                let b = winning_set(st.insert(m), rest);
                assert forall|m2: int| #[trigger] a.contains(m2) == b.contains(m2) by {
                    if rest.contains(m2) {
                        assert(m2 / 15 * 15 + m2 % 15 == m2);
                        assert(!st.insert(m).contains(m2));
                        lemma_through_win(st.insert(m), m2 / 15, m2 % 15);
                    }
                }
                assert(a =~= b);
            }
        }
    }
    assert(naive_double_set(p, side) =~= double_threat_set(p, side));
}

/// For every legal history that leaves the game going, the line-walking
/// tactics on the naive board agree with the exact tactics, for both
/// colors.
pub proof fn lemma_replayed_tactics_agree(moves: Seq<Move>, side: Color)
    requires
        legal_history(moves),
        replay(moves).status == Status::Ongoing,
    ensures
        naive_win_set(replay(moves), side) == immediate_win_set(replay(moves), side),
        naive_double_set(replay(moves), side) == double_threat_set(replay(moves), side),
{
    lemma_replay_valid(moves);
    lemma_naive_tactics_agree(replay(moves), side);
}


/// The move on row-major cell `m`.
pub open spec fn cell_move(m: int) -> Move {
    Move::at(m / 15, m % 15)
}

proof fn lemma_cell_move(m: int)
    requires
        0 <= m < 225,
    ensures
        cell_move(m)@ == m,
{
    Move::lemma_at_view(m / 15, m % 15);
}

/// With the defender to move, the adjudicator declares the attacker the
/// winner only if the attacker has a cell that completes five, and every
/// block of such a cell still leaves a position won for the attacker one
/// level less deep.
pub proof fn lemma_adjudication_defender(p: Position, side: Color, depth: nat, mv: Move)
    requires
        p.status == Status::Ongoing,
        p.to_move == side.opponent(),
        !has_five(p.stones(side)),
        adjudication(p, side, depth) == Some(side),
    ensures
        depth > 0,
        immediate_win_set(p, side) != Set::<int>::empty(),
        immediate_win_set(p, side).contains(mv@) ==> adjudication(
            p.after_play(mv),
            side,
            (depth - 1) as nat,
        ) == Some(side),
{
    lemma_naive_tactics_agree(p, side);
    if immediate_win_set(p, side).contains(mv@) {
        lemma_defend_all(p, side, depth, 0, mv@);
        lemma_cell_move(mv@);
        crate::moveset::lemma_move_view_injective(cell_move(mv@), mv);
    }
}

/// With the defender to move, when the attacker has a cell that completes
/// five and every block of such a cell leaves a position won for the
/// attacker one level less deep, the adjudicator declares the attacker the
/// winner.
pub proof fn lemma_adjudication_defender_complete(p: Position, side: Color, depth: nat)
    requires
        p.status == Status::Ongoing,
        p.to_move == side.opponent(),
        !has_five(p.stones(side)),
        depth > 0,
        immediate_win_set(p, side) != Set::<int>::empty(),
        forall|mv: Move|
            #[trigger] immediate_win_set(p, side).contains(mv@) ==> adjudication(
                p.after_play(mv),
                side,
                (depth - 1) as nat,
            ) == Some(side),
    ensures
        adjudication(p, side, depth) == Some(side),
{
    lemma_naive_tactics_agree(p, side);
    assert forall|x: int| #[trigger] naive_win_set(p, side).contains(x) implies adjudication(
        p.after_play(cell_move(x)),
        side,
        (depth - 1) as nat,
    ) == Some(side) by {
        lemma_cell_move(x);
        assert(immediate_win_set(p, side).contains(cell_move(x)@));
    }
    lemma_defend_complete(p, side, depth, 0);
}

/// A defender's run in which every block from cell `k` on is won for the
/// attacker one level deeper ends with the attacker winning.
proof fn lemma_defend_complete(p: Position, side: Color, depth: nat, k: int)
    requires
        0 <= k,
        depth > 0,
        forall|x: int| #[trigger] naive_win_set(p, side).contains(x) ==> adjudication(
            p.after_play(cell_move(x)),
            side,
            (depth - 1) as nat,
        ) == Some(side),
    ensures
        defend_from(p, side, depth, k) == Some(side),
    decreases 225 - k,
{
    if k < 225 {
        lemma_defend_complete(p, side, depth, k + 1);
    }
}

/// A defender's run that ends with the attacker winning has every block
/// from cell `k` on won for the attacker one level deeper.
proof fn lemma_defend_all(p: Position, side: Color, depth: nat, k: int, x: int)
    requires
        0 <= k <= x < 225,
        depth > 0,
        naive_win_set(p, side).contains(x),
        defend_from(p, side, depth, k) == Some(side),
    ensures
        adjudication(p.after_play(cell_move(x)), side, (depth - 1) as nat) == Some(side),
    decreases x - k,
{
    if k < x {
        if naive_win_set(p, side).contains(k) {
            let sub = adjudication(p.after_play(cell_move(k)), side, (depth - 1) as nat);
            assert(sub == Some(side));
        }
        lemma_defend_all(p, side, depth, k + 1, x);
    }
}

/// The depth-bounded threat-space verdict on `p` for the attacker `side`,
/// with the line-walking tactics: a decided game gives its winner, a draw
/// or an exhausted depth nothing. With the attacker to move, a line win
/// wins; otherwise the empty cells are tried in row-major order (see
/// `attack_from`). With the defender to move and no line win of the
/// attacker the position is quiet; otherwise every block must still lose
/// (see `defend_from`).
pub open spec fn adjudication(p: Position, side: Color, depth: nat) -> Option<Color>
    decreases depth, 2int, 0int,
{
    match p.status {
        Status::Won(c) => Some(c),
        Status::Draw => None,
        Status::Ongoing => if depth == 0 {
            None
        } else if p.to_move == side {
            if naive_win_set(p, side) != Set::<int>::empty() {
                Some(side)
            } else {
                attack_from(p, side, depth, 0)
            }
        } else {
            if naive_win_set(p, side) == Set::<int>::empty() {
                None
            } else {
                defend_from(p, side, depth, 0)
            }
        },
    }
}

/// The attacker's tries from cell `k` on: a move that wins, or that makes
/// two line wins while the defender has none, wins; a move that makes
/// exactly one, while the defender has none, wins when the position after
/// the forced block is won for the attacker one level deeper.
pub open spec fn attack_from(p: Position, side: Color, depth: nat, k: int) -> Option<Color>
    decreases depth, 1int, 225 - k,
{
    if k < 0 || k >= 225 || depth == 0 {
        None
    } else if p.occupied(k) {
        attack_from(p, side, depth, k + 1)
    } else {
        let q = p.after_play(cell_move(k));
        let threats = naive_win_set(q, side);
        if q.status == Status::Won(side) {
            Some(side)
        } else if naive_win_set(q, side.opponent()) != Set::<int>::empty() {
            attack_from(p, side, depth, k + 1)
        } else if threats.len() >= 2 {
            Some(side)
        } else if threats.len() == 0 {
            attack_from(p, side, depth, k + 1)
        } else if forall|x: int|
            #[trigger] threats.contains(x) ==> adjudication(
                q.after_play(cell_move(x)),
                side,
                (depth - 1) as nat,
            ) == Some(side) {
            Some(side)
        } else {
            attack_from(p, side, depth, k + 1)
        }
    }
}

/// The defender's blocks from cell `k` on, in row-major order: the first
/// block after which the verdict is not a win for the attacker decides;
/// if there is none, the attacker wins.
pub open spec fn defend_from(p: Position, side: Color, depth: nat, k: int) -> Option<Color>
    decreases depth, 1int, 225 - k,
{
    if k < 0 || k >= 225 || depth == 0 {
        Some(side)
    } else if !naive_win_set(p, side).contains(k) {
        defend_from(p, side, depth, k + 1)
    } else {
        let sub = adjudication(p.after_play(cell_move(k)), side, (depth - 1) as nat);
        if sub != Some(side) {
            sub
        } else {
            defend_from(p, side, depth, k + 1)
        }
    }
}

/// The depth-bounded verdict for `side` on a fast board, through its
/// history replayed on the naive board (see `adjudication`).
pub fn adjudicate(b: &crate::board::Board, side: Color, max_depth: u8) -> (r: Option<Color>)
    requires
        b.wf(),
        legal_history(b@.moves),
    ensures
        r == adjudication(replay(b@.moves), side, max_depth as nat),
{
    let mut nb = naive_from(b);
    adjudicate_naive(&mut nb, side, max_depth)
}

/// The verdict on a naive board; the board is left as it was.
fn adjudicate_naive(b: &mut Board, side: Color, depth: u8) -> (r: Option<Color>)
    requires
        old(b).wf(),
    ensures
        final(b).wf(),
        final(b)@ == old(b)@,
        r == adjudication(old(b)@, side, depth as nat),
    decreases depth,
{
    let ghost p = b@;
    match b.status() {
        Status::Won(c) => {
            return Some(c);
        },
        Status::Draw => {
            return None;
        },
        Status::Ongoing => {},
    }
    if depth == 0 {
        return None;
    }
    proof {
        b.lemma_wf_valid();
    }
    if b.to_move() == side {
        let wins = immediate_wins_naive(b, side);
        if !wins.is_empty() {
            return Some(side);
        }
        let mut m: usize = 0;
        while m < 225
            invariant
                m <= 225,
                depth > 0,
                b.wf(),
                b@ == p,
                p.valid(),
                p.status == Status::Ongoing,
                p.to_move == side,
                p == old(b)@,
                adjudication(p, side, depth as nat) == attack_from(p, side, depth as nat, 0),
                attack_from(p, side, depth as nat, 0) == attack_from(p, side, depth as nat, m as int),
            decreases 225 - m,
        {
            if b.cells[m] == Cell::Empty {
                let mv = Move::from_index(m);
                proof {
                    lemma_cell_move(m as int);
                    Move::lemma_at(mv, m as int / 15, m as int % 15);
                    assert(!p.occupied(m as int));
                }
                let ghost q = p.after_play(mv);
                let _ = b.play(mv);
                proof {
                    b.lemma_wf_valid();
                }
                if b.status() == Status::Won(side) {
                    b.undo();
                    proof {
                        lemma_play_undo(p, mv);
                    }
                    return Some(side);
                }
                let defender_wins = immediate_wins_naive(b, side.other());
                let attacker_wins = immediate_wins_naive(b, side);
                if !defender_wins.is_empty() {
                    b.undo();
                    proof {
                        lemma_play_undo(p, mv);
                    }
                } else if attacker_wins.len() >= 2 {
                    b.undo();
                    proof {
                        lemma_play_undo(p, mv);
                    }
                    return Some(side);
                } else if attacker_wins.is_empty() {
                    b.undo();
                    proof {
                        lemma_play_undo(p, mv);
                    }
                } else {
                    let ghost threats = naive_win_set(q, side);
                    let blocks = attacker_wins.iter();
                    proof {
                        attacker_wins.lemma_view_finite();
                        vstd::set_lib::lemma_set_empty_equivalency_len(attacker_wins@);
                        lemma_one_threat(attacker_wins@, blocks@);
                    }
                    let block = blocks[0];
                    proof {
                        assert(threats.contains(block@));
                        assert(!q.occupied(block@));
                    }
                    let _ = b.play(block);
                    let sub = adjudicate_naive(b, side, depth - 1);
                    b.undo();
                    proof {
                        b.lemma_wf_valid();
                        lemma_play_undo(q, block);
                        lemma_cell_move(block@);
                        crate::moveset::lemma_move_view_injective(block, cell_move(block@));
                        assert forall|x: int| #[trigger] threats.contains(x) implies x == block@ by {}
                    }
                    b.undo();
                    proof {
                        lemma_play_undo(p, mv);
                    }
                    if sub == Some(side) {
                        return Some(side);
                    }
                }
            }
            m = m + 1;
        }
        None
    } else {
        let blocks = immediate_wins_naive(b, side);
        if blocks.is_empty() {
            return None;
        }
        let mut m: usize = 0;
        while m < 225
            invariant
                m <= 225,
                depth > 0,
                b.wf(),
                b@ == p,
                p.valid(),
                p.status == Status::Ongoing,
                p.to_move != side,
                blocks@ == naive_win_set(p, side),
                p == old(b)@,
                adjudication(p, side, depth as nat) == defend_from(p, side, depth as nat, 0),
                defend_from(p, side, depth as nat, 0) == defend_from(p, side, depth as nat, m as int),
            decreases 225 - m,
        {
            if blocks.contains_index(m) {
                let mv = Move::from_index(m);
                proof {
                    lemma_cell_move(m as int);
                    crate::moveset::lemma_move_view_injective(mv, cell_move(m as int));
                    assert(!p.occupied(m as int));
                }
                let _ = b.play(mv);
                let sub = adjudicate_naive(b, side, depth - 1);
                b.undo();
                proof {
                    lemma_play_undo(p, mv);
                }
                if sub != Some(side) {
                    return sub;
                }
            }
            m = m + 1;
        }
        Some(side)
    }
}

/// A set of one cell listed in a sorted, exact list: the list has one
/// entry, and every member of the set is that entry.
proof fn lemma_one_threat(s: Set<int>, v: Seq<Move>)
    requires
        s.finite(),
        s.len() == 1,
        forall|k: int| 0 <= k < v.len() ==> s.contains(#[trigger] v[k]@),
        forall|i: int| #[trigger] s.contains(i) ==> exists|k: int| 0 <= k < v.len() && #[trigger] v[k]@ == i,
        forall|a: int, b: int| 0 <= a < b < v.len() ==> v[a]@ < v[b]@,
    ensures
        v.len() >= 1,
        forall|x: int| #[trigger] s.contains(x) ==> x == v[0]@,
{
    Set::lemma_is_singleton(s);
    let x = s.choose();
    assert(s.contains(x));
    if v.len() > 1 {
        assert(v[0]@ < v[1]@);
    }
}


/// The line wins lie on the board, so there are finitely many.
proof fn lemma_naive_win_finite(p: Position, side: Color)
    ensures
        naive_win_set(p, side).finite(),
{
    let pred = |m: int| !p.occupied(m) && through_win(p.stones(side), m / 15, m % 15);
    vstd::set_lib::lemma_int_range(0, 225);
    vstd::set_lib::set_int_range(0, 225).lemma_len_filter(pred);
    assert(naive_win_set(p, side) =~= vstd::set_lib::set_int_range(0, 225).filter(pred));
}

/// A legal move extends a legal history, which replays into the position
/// after the move.
proof fn lemma_legal_extend(h: Seq<Move>, mv: Move)
    requires
        legal_history(h),
        0 <= mv@ < 225,
        replay(h).play_error(mv@) is None,
    ensures
        legal_history(h.push(mv)),
        replay(h.push(mv)) == replay(h).after_play(mv),
{
    assert(h.push(mv).drop_last() =~= h);
}

/// When the adjudicator finds a win for the attacker to move, at any depth,
/// there is a forcing line for it that `verify_line` accepts.
pub proof fn lemma_adjudication_sound(h: Seq<Move>, side: Color, depth: nat)
    requires
        legal_history(h),
        replay(h).to_move == side,
        replay(h).status == Status::Ongoing,
        adjudication(replay(h), side, depth) == Some(side),
    ensures
        exists|line: Seq<Move>| line_wins(replay(h), side, line),
    decreases depth, 1int, 0int,
{
    let p = replay(h);
    lemma_replay_valid(h);
    lemma_naive_tactics_agree(p, side);
    if naive_win_set(p, side) != Set::<int>::empty() {
        crate::tss::lemma_nonempty_witness(naive_win_set(p, side));
        let w = choose|w: int| #[trigger] naive_win_set(p, side).contains(w);
        lemma_cell_move(w);
        let mv = cell_move(w);
        let line = seq![mv];
        assert(line_wins(p, side, line));
    } else {
        lemma_attack_sound(h, side, depth, 0);
    }
}

/// With the attacker to move, a position the adjudicator declares won for
/// the attacker is one where the attacker can really force five in a row,
/// whatever the defender answers.
pub proof fn lemma_adjudication_forces_win(h: Seq<Move>, side: Color, depth: nat)
    requires
        legal_history(h),
        replay(h).to_move == side,
        replay(h).status == Status::Ongoing,
        adjudication(replay(h), side, depth) == Some(side),
    ensures
        exists|n: nat| crate::tss::forces_win(replay(h), side, n),
{
    lemma_adjudication_sound(h, side, depth);
    lemma_replay_valid(h);
    let line = choose|line: Seq<Move>| line_wins(replay(h), side, line);
    crate::tss::lemma_line_forces_win(replay(h), side, line);
    assert(crate::tss::forces_win(replay(h), side, (line.len() + 1) as nat));
}

/// The attacker's tries from cell `k` on are backed by forcing lines.
proof fn lemma_attack_sound(h: Seq<Move>, side: Color, depth: nat, k: int)
    requires
        legal_history(h),
        replay(h).to_move == side,
        replay(h).status == Status::Ongoing,
        attack_from(replay(h), side, depth, k) == Some(side),
    ensures
        exists|line: Seq<Move>| line_wins(replay(h), side, line),
    decreases depth, 0int, 225 - k,
{
    let p = replay(h);
    lemma_replay_valid(h);
    if 0 <= k < 225 && depth > 0 {
        if p.occupied(k) {
            lemma_attack_sound(h, side, depth, k + 1);
        } else {
            lemma_cell_move(k);
            let mv = cell_move(k);
            let q = p.after_play(mv);
            let threats = naive_win_set(q, side);
            lemma_legal_extend(h, mv);
            let h1 = h.push(mv);
            lemma_replay_valid(h1);
            if q.status == Status::Won(side) {
                assert(line_wins(p, side, seq![mv]));
            } else if naive_win_set(q, side.opponent()) != Set::<int>::empty() {
                lemma_attack_sound(h, side, depth, k + 1);
            } else if threats.len() == 0 {
                lemma_attack_sound(h, side, depth, k + 1);
            } else if q.status != Status::Ongoing {
                // A full board leaves no empty cell, so no threat.
                assert(threats =~= Set::<int>::empty()) by {
                    crate::board::lemma_long_history_full(q);
                }
            } else {
                lemma_naive_tactics_agree(q, side);
                lemma_naive_tactics_agree(q, side.opponent());
                if threats.len() >= 2 {
                    assert(line_wins(p, side, seq![mv]));
                } else if forall|x: int|
                    #[trigger] threats.contains(x) ==> adjudication(
                        q.after_play(cell_move(x)),
                        side,
                        (depth - 1) as nat,
                    ) == Some(side) {
                    crate::tss::lemma_nonempty_witness(threats);
                    let x = choose|x: int| #[trigger] threats.contains(x);
                    lemma_cell_move(x);
                    let block = cell_move(x);
                    let q2 = q.after_play(block);
                    lemma_legal_extend(h1, block);
                    let h2 = h1.push(block);
                    lemma_replay_valid(h2);
                    assert(adjudication(q2, side, (depth - 1) as nat) == Some(side));
                    if q2.status == Status::Ongoing {
                        lemma_adjudication_sound(h2, side, (depth - 1) as nat);
                        let rest = choose|l: Seq<Move>| line_wins(q2, side, l);
                        let line = seq![mv, block] + rest;
                        assert(line.subrange(2, line.len() as int) =~= rest);
                        lemma_naive_win_finite(q, side);
                        Set::lemma_is_singleton(threats);
                        assert forall|alt: Move| #[trigger] threats.contains(alt@) implies line_wins(
                            q.after_play(alt),
                            side,
                            line.subrange(2, line.len() as int),
                        ) by {
                            assert(alt@ == x);
                            crate::moveset::lemma_move_view_injective(alt, block);
                        }
                        assert(line_wins(p, side, line));
                    }
                } else {
                    lemma_attack_sound(h, side, depth, k + 1);
                }
            }
        }
    }
}

} // verus!
