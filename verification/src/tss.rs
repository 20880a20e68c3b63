//! Bounded threat-space search: a prover and a line verifier.
//!
//! `prove_forced_win` answers `Some` only with a line that `verify_line`
//! accepts; `None` only means "not proven within budget".
use vstd::prelude::*;
use crate::bitboard::{idx, lemma_stride_index};
use crate::board::{Board, Color, Position, Status};
use crate::moveset::{Move, MoveSet, lemma_move_view_injective};
use crate::rules::has_five;
use crate::tactics::{
    clean_empties,
    empties,
    forced_blocks,
    immediate_win_set,
    immediate_wins,
    winning_cells,
    winning_set,
};
use crate::win::has_any_five;

verus! {

/// A certified forced win: the winner and one forcing sequence, starting with
/// the winner's first threat.
#[derive(Debug, Clone, PartialEq, Eq)]
pub struct Proof {
    pub winner: Color,
    pub line: Vec<Move>,
}

/// Hard caps on the search. Exhausting them means "no proof".
#[derive(Debug, Clone, Copy, PartialEq, Eq)]
pub struct SearchBudget {
    pub max_nodes: u32,
    pub max_depth: u8,
}

/// `line` is a sound forcing line for `side` from `p`: every attacker move is
/// legal; it either completes five, or leaves two or more winning cells while
/// the defender has none, or leaves exactly one winning cell, in which case
/// the next move is a block and the rest of the line wins after every block.
pub open spec fn line_wins(p: Position, side: Color, line: Seq<Move>) -> bool
    decreases line.len(),
{
    if line.len() == 0 {
        false
    } else {
        let mv = line[0];
        if !(0 <= mv@ < 225) || p.play_error(mv@) is Some || p.to_move != side {
            false
        } else {
            let q = p.after_play(mv);
            let wins = immediate_win_set(q, side);
            if q.status == Status::Won(side) {
                line.len() == 1
            } else if immediate_win_set(q, side.opponent()) != Set::<int>::empty() {
                false
            } else if wins.len() >= 2 {
                line.len() == 1
            } else if wins == Set::<int>::empty() || line.len() < 2 {
                false
            } else if !wins.contains(line[1]@) {
                false
            } else {
                forall|alt: Move|
                    #[trigger] wins.contains(alt@) ==> line_wins(
                        q.after_play(alt),
                        side,
                        line.subrange(2, line.len() as int),
                    )
            }
        }
    }
}

/// The first move of a winning line is a legal move of the attacker, who is
/// to move, and after it the attacker has either won or left the defender
/// without any cell that completes five while holding a winning cell of
/// its own: a line never hands the defender an immediate win.
pub proof fn lemma_line_first_move(p: Position, side: Color, line: Seq<Move>)
    requires
        line_wins(p, side, line),
    ensures
        line.len() >= 1,
        p.to_move == side,
        0 <= line[0]@ < 225,
        p.play_error(line[0]@) is None,
        p.after_play(line[0]).status == Status::Won(side) || (immediate_win_set(
            p.after_play(line[0]),
            side.opponent(),
        ) == Set::<int>::empty() && immediate_win_set(p.after_play(line[0]), side)
            != Set::<int>::empty()),
{
}

/// `side`, to move at `p`, can force five in a row within `n` of its own
/// moves, whatever the other side answers: some legal move wins at once, or
/// leaves the game going such that after every legal answer `side` can
/// again force a win within `n - 1` moves. A drawn or lost game is no win.
pub open spec fn forces_win(p: Position, side: Color, n: nat) -> bool
    decreases n,
{
    if n == 0 {
        false
    } else {
        &&& p.status == Status::Ongoing
        &&& p.to_move == side
        &&& exists|m: Move|
            0 <= m@ < 225 && p.play_error(m@) is None && (#[trigger] p.after_play(m).status
                == Status::Won(side) || (p.after_play(m).status == Status::Ongoing && forall|d: Move|
                0 <= d@ < 225 && p.after_play(m).play_error(d@) is None ==> forces_win(
                    #[trigger] p.after_play(m).after_play(d),
                    side,
                    (n - 1) as nat,
                )))
    }
}

/// Forcing a win within `a` moves is forcing it within any `b >= a`.
proof fn lemma_forces_win_more(p: Position, side: Color, a: nat, b: nat)
    requires
        forces_win(p, side, a),
        a <= b,
    ensures
        forces_win(p, side, b),
    decreases a,
{
    let m = choose|m: Move|
        0 <= m@ < 225 && p.play_error(m@) is None && (#[trigger] p.after_play(m).status
            == Status::Won(side) || (p.after_play(m).status == Status::Ongoing && forall|d: Move|
            0 <= d@ < 225 && p.after_play(m).play_error(d@) is None ==> forces_win(
                #[trigger] p.after_play(m).after_play(d),
                side,
                (a - 1) as nat,
            )));
    let q = p.after_play(m);
    if q.status != Status::Won(side) {
        assert forall|d: Move| 0 <= d@ < 225 && q.play_error(d@) is None implies forces_win(
            #[trigger] q.after_play(d),
            side,
            (b - 1) as nat,
        ) by {
            lemma_forces_win_more(q.after_play(d), side, (a - 1) as nat, (b - 1) as nat);
        }
    }
    assert(0 <= m@ < 225 && p.play_error(m@) is None);
}

/// A consistent position with an empty cell has fewer than 225 moves.
proof fn lemma_empty_cell_moves(p: Position, w: int)
    requires
        p.valid(),
        0 <= w < 225,
        !p.occupied(w),
    ensures
        p.moves.len() < 225,
{
    let cells = p.moves.map_values(|mv: Move| mv@);
    assert(cells.no_duplicates()) by {
        assert forall|a: int, b: int| 0 <= a < cells.len() && 0 <= b < cells.len() && a != b implies cells[a]
            != cells[b] by {
            if a < b {
                assert(p.moves[a]@ != p.moves[b]@);
            } else {
                assert(p.moves[b]@ != p.moves[a]@);
            }
        }
    }
    cells.unique_seq_to_set();
    let range = vstd::set_lib::set_int_range(0, 225).remove(w);
    assert forall|x: int| #[trigger] cells.to_set().contains(x) implies range.contains(x) by {
        let k = choose|k: int| 0 <= k < cells.len() && cells[k] == x;
        assert(p.stones(p.mover_at(k)).contains(p.moves[k]@));
    }
    vstd::set_lib::lemma_int_range(0, 225);
    vstd::set_lib::lemma_len_subset(cells.to_set(), range);
}

/// With `side` to move in a going game that is not full, a cell that
/// completes five wins within one move.
proof fn lemma_finish(r: Position, side: Color, w: Move)
    requires
        r.status == Status::Ongoing,
        r.to_move == side,
        immediate_win_set(r, side).contains(w@),
    ensures
        forces_win(r, side, 1),
{
    assert(r.after_play(w).status == Status::Won(side));
}

/// Every legal answer of the defender, in a position where the defender
/// has no cell that completes five and the attacker has one that the answer
/// leaves empty, leaves a going game with the attacker to move and that
/// cell still winning.
proof fn lemma_answer(q: Position, side: Color, d: Move, w: int)
    requires
        q.valid(),
        q.status == Status::Ongoing,
        q.to_move == side.opponent(),
        0 <= d@ < 225,
        q.play_error(d@) is None,
        immediate_win_set(q, side.opponent()) == Set::<int>::empty(),
        immediate_win_set(q, side).contains(w),
        w != d@,
    ensures
        q.after_play(d).status == Status::Ongoing,
        q.after_play(d).to_move == side,
        immediate_win_set(q.after_play(d), side).contains(w),
        q.after_play(d).valid(),
{
    let r = q.after_play(d);
    crate::board::lemma_play_valid(q, d);
    assert(!has_five(q.stones(side.opponent()).insert(d@))) by {
        if has_five(q.stones(side.opponent()).insert(d@)) {
            assert(immediate_win_set(q, side.opponent()).contains(d@));
        }
    }
    assert(!r.occupied(w));
    lemma_empty_cell_moves(r, w);
    assert(r.stones(side) == q.stones(side));
}

/// A line that the verifier accepts is a real forced win: the attacker,
/// playing it and finishing with a cell that completes five, wins within
/// one move more than the line is long, whatever the defender answers.
pub proof fn lemma_line_forces_win(p: Position, side: Color, line: Seq<Move>)
    requires
        p.valid(),
        line_wins(p, side, line),
    ensures
        forces_win(p, side, line.len() + 1),
    decreases line.len(),
{
    let n = (line.len() + 1) as nat;
    let mv = line[0];
    let q = p.after_play(mv);
    crate::board::lemma_play_valid(p, mv);
    if q.status == Status::Won(side) {
        assert(0 <= mv@ < 225 && p.play_error(mv@) is None && q.status == Status::Won(side));
    } else {
        let wins = immediate_win_set(q, side);
        lemma_nonempty_witness(wins);
        let w = choose|w: int| #[trigger] wins.contains(w);
        assert(!q.occupied(w));
        lemma_empty_cell_moves(q, w);
        assert(q.status == Status::Ongoing);
        assert forall|d: Move| 0 <= d@ < 225 && q.play_error(d@) is None implies forces_win(
            #[trigger] q.after_play(d),
            side,
            (n - 1) as nat,
        ) by {
            let r = q.after_play(d);
            if wins.contains(d@) && wins.len() < 2 {
                let rest = line.subrange(2, line.len() as int);
                crate::board::lemma_play_valid(q, d);
                lemma_line_forces_win(r, side, rest);
                lemma_forces_win_more(r, side, (rest.len() + 1) as nat, (n - 1) as nat);
            } else {
                let w2 = if !wins.contains(d@) {
                    w
                } else {
                    let x = choose|x: int| wins.contains(x) && x != d@;
                    x
                };
                if wins.contains(d@) {
                    assert(exists|x: int| wins.contains(x) && x != d@) by {
                        if !(exists|x: int| wins.contains(x) && x != d@) {
                            assert(wins =~= Set::<int>::empty().insert(d@));
                        }
                    }
                }
                lemma_answer(q, side, d, w2);
                let w2m = Move::of_index(w2);
                Move::lemma_of_index(w2m, w2);
                lemma_finish(r, side, w2m);
                lemma_forces_win_more(r, side, 1, (n - 1) as nat);
            }
        }
        assert(0 <= mv@ < 225 && p.play_error(mv@) is None);
    }
}

/// A set that is not empty has an element.
pub proof fn lemma_nonempty_witness(s: Set<int>)
    requires
        s != Set::<int>::empty(),
    ensures
        exists|m: int| #[trigger] s.contains(m),
{
    if !(exists|m: int| #[trigger] s.contains(m)) {
        assert(s =~= Set::<int>::empty());
    }
}

/// Empty cells that leave `side` with a winning cell but do not win at once.
pub open spec fn threat_set(p: Position, side: Color) -> Set<int> {
    Set::new(
        |m: int|
            empties(p).contains(m) && !has_five(p.stones(side).insert(m)) && winning_set(
                p.stones(side).insert(m),
                empties(p).remove(m),
            ) != Set::<int>::empty(),
    )
}

/// The first cell of `s` at or after `m`, or 225 when there is none.
pub open spec fn first_cell(s: Set<int>, m: int) -> int
    decreases 225 - m,
{
    if m >= 225 {
        225
    } else if s.contains(m) {
        m
    } else {
        first_cell(s, m + 1)
    }
}

/// The cells of a line of moves.
pub open spec fn line_cells(line: Seq<Move>) -> Seq<int> {
    line.map_values(|mv: Move| mv@)
}

/// The attacker node of the search from `p`, with `depth` plies and `n`
/// nodes left: the line it finds, if any, and the nodes left after it. A
/// node costs one; a winning cell answers at once (the first one); otherwise
/// the threats are tried in cell order.
pub open spec fn search_attack(p: Position, side: Color, depth: nat, n: nat) -> (Option<Seq<int>>, nat)
    decreases depth, 2int, 0int,
{
    if n == 0 || depth == 0 {
        (None, n)
    } else if immediate_win_set(p, side) != Set::<int>::empty() {
        (Some(seq![first_cell(immediate_win_set(p, side), 0)]), (n - 1) as nat)
    } else {
        search_threats(p, side, depth, (n - 1) as nat, 0)
    }
}

/// The threats of the attacker node tried from cell `m` on: a threat that
/// wins at once or leaves two winning cells while the defender has none is a
/// line of its own; one that leaves the defender a winning cell is skipped;
/// any other is followed by the defender's node one ply deeper.
pub open spec fn search_threats(p: Position, side: Color, depth: nat, n: nat, m: int) -> (Option<Seq<int>>, nat)
    decreases depth, 1int, 225 - m,
{
    if m >= 225 || depth == 0 {
        (None, n)
    } else if !threat_set(p, side).contains(m) {
        search_threats(p, side, depth, n, m + 1)
    } else {
        let q = p.after_play(Move::of_index(m));
        if q.status == Status::Won(side) {
            (Some(seq![m]), n)
        } else if immediate_win_set(q, side.opponent()) != Set::<int>::empty() {
            search_threats(p, side, depth, n, m + 1)
        } else if immediate_win_set(q, side).len() >= 2 {
            (Some(seq![m]), n)
        } else {
            let (r, n2) = search_defence(q, side, (depth - 1) as nat, n);
            match r {
                Some((reply, suffix)) => (Some(seq![m, reply] + suffix), n2),
                None => search_threats(p, side, depth, n2, m + 1),
            }
        }
    }
}

/// The defender node of the search at `q`: when the attacker has exactly one
/// winning cell, no five yet and the defender no winning cell, the block on
/// that cell and the attacker's line after it.
pub open spec fn search_defence(q: Position, side: Color, depth: nat, n: nat) -> (Option<(int, Seq<int>)>, nat)
    decreases depth, 0int, 0int,
{
    if n == 0 || depth == 0 {
        (None, n)
    } else {
        let wins = immediate_win_set(q, side);
        if q.status == Status::Won(side) || immediate_win_set(q, side.opponent())
            != Set::<int>::empty() || wins.len() >= 2 || wins == Set::<int>::empty() {
            (None, (n - 1) as nat)
        } else {
            let reply = first_cell(wins, 0);
            let (r, n2) = search_attack(
                q.after_play(Move::of_index(reply)),
                side,
                (depth - 1) as nat,
                (n - 1) as nat,
            );
            match r {
                Some(line) => (Some((reply, line)), n2),
                None => (None, n2),
            }
        }
    }
}

/// The line `prove_forced_win` finds for `side` from `p` within `budget`.
pub open spec fn forced_win_line(p: Position, side: Color, budget: SearchBudget) -> Option<Seq<int>> {
    if p.status != Status::Ongoing || p.to_move != side {
        None
    } else {
        search_attack(p, side, budget.max_depth as nat, budget.max_nodes as nat).0
    }
}

/// The first cell of `s` from `m` on is `x` when no cell of `s` lies between.
proof fn lemma_first_cell(s: Set<int>, x: int, m: int)
    requires
        m <= x < 225,
        s.contains(x),
        forall|y: int| m <= y < x ==> !#[trigger] s.contains(y),
    ensures
        first_cell(s, m) == x,
    decreases x - m,
{
    if m < x {
        lemma_first_cell(s, x, m + 1);
    }
}

/// The first move of an increasing listing of a set of board cells is the
/// set's first cell.
proof fn lemma_first_listed(v: Seq<Move>, s: Set<int>)
    requires
        v.len() > 0,
        forall|i: int| #[trigger] s.contains(i) ==> 0 <= i < 225,
        forall|k: int| 0 <= k < v.len() ==> s.contains(#[trigger] v[k]@),
        forall|i: int| #[trigger] s.contains(i) ==> exists|k: int| 0 <= k < v.len() && #[trigger] v[k]@ == i,
        forall|a: int, b: int| 0 <= a < b < v.len() ==> v[a]@ < v[b]@,
    ensures
        first_cell(s, 0) == v[0]@,
{
    assert(s.contains(v[0]@));
    assert forall|y: int| 0 <= y < v[0]@ implies !#[trigger] s.contains(y) by {
        if s.contains(y) {
            let k = choose|k: int| 0 <= k < v.len() && #[trigger] v[k]@ == y;
            if k > 0 {
                assert(v[0]@ < v[k]@);
            }
        }
    }
    lemma_first_cell(s, v[0]@, 0);
}

/// A finite set with two different elements has at least two.
proof fn lemma_two_elements(s: Set<int>, a: int, b: int)
    requires
        s.finite(),
        s.contains(a),
        s.contains(b),
        a != b,
    ensures
        s.len() >= 2,
{
    vstd::set::axiom_set_remove_len(s, a);
    vstd::set::axiom_set_remove_finite(s, a);
    vstd::set_lib::lemma_set_empty_equivalency_len(s.remove(a));
    assert(s.remove(a).contains(b));
}

/// Prove a forced win for `side`, the side to move, within `budget`.
/// `Some` carries a line of at most `max_depth` plies that `verify_line`
/// accepts; `None` says nothing about the position, and an empty budget
/// always gives `None`.
pub fn prove_forced_win(b: &Board, side: Color, budget: SearchBudget) -> (r: Option<Proof>)
    requires
        b.wf(),
    ensures
        (b@.status != Status::Ongoing || b@.to_move != side) ==> r is None,
        budget.max_nodes == 0 || budget.max_depth == 0 ==> r is None,
        r matches Some(p) ==> p.winner == side && b@.to_move == side && b@.status
            == Status::Ongoing && line_wins(b@, side, p.line@),
        r matches Some(p) ==> 1 <= p.line.len() <= budget.max_depth,
        r matches Some(p) ==> forces_win(b@, side, (p.line.len() + 1) as nat),
        match r {
            Some(p) => forced_win_line(b@, side, budget) == Some(line_cells(p.line@)),
            None => forced_win_line(b@, side, budget) is None,
        },
{
    if b.status() != Status::Ongoing || b.to_move() != side {
        return None;
    }
    let mut work = b.duplicate();
    let mut search = Search::new(budget);
    match search.solve(&mut work, side, budget.max_depth) {
        Some(line) => {
            proof {
                b.lemma_wf_valid();
                lemma_line_forces_win(b@, side, line@);
            }
            Some(Proof { winner: side, line })
        },
        None => None,
    }
}

/// Replay `proof.line` from `b` and accept it only if it is a sound forcing
/// line for `proof.winner`, who must be to move.
pub fn verify_line(b: &Board, proof: &Proof) -> (ok: bool)
    requires
        b.wf(),
    ensures
        ok == (b@.to_move == proof.winner && line_wins(b@, proof.winner, proof.line@)),
        ok ==> forces_win(b@, proof.winner, (proof.line@.len() + 1) as nat),
{
    let ok = verify_moves(b, proof.winner, proof.line.as_slice());
    proof {
        if ok {
            b.lemma_wf_valid();
            lemma_line_forces_win(b@, proof.winner, proof.line@);
        }
    }
    ok
}

/// `verify_line` on a winner and a line given apart.
fn verify_moves(b: &Board, winner: Color, line: &[Move]) -> (ok: bool)
    requires
        b.wf(),
    ensures
        ok == (b@.to_move == winner && line_wins(b@, winner, line@)),
{
    if b.to_move() != winner {
        return false;
    }
    proof {
        assert(line@.subrange(0, line@.len() as int) =~= line@);
    }
    verify_rec(b.duplicate(), winner, line, 0)
}

/// Replay `line[start..]` on `b`; see `line_wins`.
fn verify_rec(b: Board, side: Color, line: &[Move], start: usize) -> (ok: bool)
    requires
        b.wf(),
        start <= line.len(),
    ensures
        ok == line_wins(b@, side, line@.subrange(start as int, line.len() as int)),
    decreases line.len() - start,
{
    let ghost p = b@;
    let ghost rest = line@.subrange(start as int, line.len() as int);
    if start == line.len() {
        return false;
    }
    let mut b = b;
    let mv = line[start];
    let _ = mv.index();
    proof {
        assert(rest[0] == mv);
    }
    if !b.is_legal(mv) || b.to_move() != side {
        return false;
    }
    let _ = b.play(mv);
    let ghost q = b@;
    assert(q == p.after_play(mv));
    if b.status() == Status::Won(side) {
        return line.len() - start == 1;
    }
    if !immediate_wins(&b, side.other()).is_empty() {
        return false;
    }
    let aw = immediate_wins(&b, side);
    if aw.len() >= 2 {
        return line.len() - start == 1;
    }
    if aw.is_empty() || line.len() - start < 2 {
        return false;
    }
    let reply = line[start + 1];
    proof {
        assert(rest[1] == reply);
    }
    if !aw.contains(reply) {
        return false;
    }
    let ghost suffix = line@.subrange(start + 2, line.len() as int);
    proof {
        assert(rest.subrange(2, rest.len() as int) =~= suffix);
        b.lemma_wf_valid();
        lemma_nonempty_witness(aw@);
        if q.status == Status::Draw {
            let m = choose|m: int| #[trigger] aw@.contains(m);
            assert(q.occupied(m));
        }
        assert(q.status == Status::Ongoing);
        assert(line_wins(p, side, rest) == (forall|alt: Move| #[trigger]
            aw@.contains(alt@) ==> line_wins(q.after_play(alt), side, suffix)));
    }
    let alts = aw.iter();
    let mut all = true;
    let mut k: usize = 0;
    while k < alts.len() && all
        invariant
            k <= alts.len(),
            b.wf(),
            b@ == q,
            q.status == Status::Ongoing,
            start + 2 <= line.len(),
            suffix == line@.subrange(start + 2, line.len() as int),
            forall|j: int| 0 <= j < alts.len() ==> aw@.contains(#[trigger] alts[j]@),
            aw@ == immediate_win_set(q, side),
            all ==> forall|j: int|
                0 <= j < k ==> alts[j] == reply || line_wins(
                    q.after_play(#[trigger] alts[j]),
                    side,
                    suffix,
                ),
            !all ==> exists|alt: Move| #[trigger]
                aw@.contains(alt@) && !line_wins(q.after_play(alt), side, suffix),
        decreases alts.len() - k,
    {
        let alt = alts[k];
        if alt != reply {
            let mut branch = b.duplicate();
            let _ = branch.play(alt);
            proof {
                assert(aw@.contains(alt@));
            }
            if !verify_rec(branch, side, line, start + 2) {
                all = false;
            }
        }
        k = k + 1;
    }
    if !all {
        return false;
    }
    let _ = b.play(reply);
    let main = verify_rec(b, side, line, start + 2);
    proof {
        if main {
            assert forall|alt: Move| #[trigger] aw@.contains(alt@) implies line_wins(
                q.after_play(alt),
                side,
                suffix,
            ) by {
                let j = choose|j: int| 0 <= j < alts.len() && #[trigger] alts[j]@ == alt@;
                lemma_move_view_injective(alts[j], alt);
                lemma_move_view_injective(reply, alt);
            }
        }
    }
    main
}

/// Threat-generating cells: empty cells after which `side` has a winning
/// cell, but which do not complete five themselves.
pub fn threat_moves(b: &Board, side: Color) -> (s: MoveSet)
    requires
        b.wf(),
    ensures
        s@ == threat_set(b@, side),
{
    let stones = b.stones(side);
    let empty = clean_empties(b);
    let mut out = MoveSet::empty();
    let ghost p = b@;
    let ghost target = threat_set(p, side);
    let mut m: usize = 0;
    while m < 225
        invariant
            m <= 225,
            stones.clean(),
            empty.clean(),
            stones.cells() == p.stones(side),
            empty.cells() == empties(p),
            target == threat_set(p, side),
            forall|x: int| #[trigger] out@.contains(x) <==> (0 <= x < m && target.contains(x)),
        decreases 225 - m,
    {
        proof {
            lemma_stride_index(m as int);
            empty.lemma_cells_contains(m as int);
        }
        let i = idx((m / 15) as u8, (m % 15) as u8);
        let ghost before = out@;
        if empty.test(i) {
            let after = stones.with_bit(i);
            proof {
                stones.lemma_cells_insert(after, m as int);
            }
            if !has_any_five(&after) {
                let remaining = empty.without_bit(i);
                proof {
                    empty.lemma_cells_remove(remaining, m as int);
                }
                if !winning_cells(after, remaining).is_empty() {
                    out.insert(Move::from_index(m));
                }
            }
        }
        proof {
            assert forall|x: int| #[trigger] out@.contains(x) <==> (0 <= x < m + 1 && target.contains(x)) by {
                if x != m {
                    assert(out@.contains(x) == before.contains(x));
                }
            }
        }
        m = m + 1;
    }
    proof {
        assert(out@ =~= target);
    }
    out
}

/// The prover's node budget.
pub struct Search {
    nodes_left: u32,
}

impl Search {
    pub fn new(budget: SearchBudget) -> (s: Search)
        ensures
            s.nodes_left() == budget.max_nodes,
    {
        Search { nodes_left: budget.max_nodes }
    }

    pub closed spec fn nodes_left(&self) -> u32 {
        self.nodes_left
    }

    /// Attacker-to-move node: a winning line from this position, or `None`
    /// when the budget runs out or no proof is found. The board is left as it
    /// was.
    pub fn solve(&mut self, b: &mut Board, side: Color, depth: u8) -> (r: Option<Vec<Move>>)
        requires
            old(b).wf(),
            old(b)@.to_move == side,
            !(old(b)@.status is Won),
        ensures
            final(b).wf(),
            final(b)@ == old(b)@,
            final(self).nodes_left() <= old(self).nodes_left(),
            old(self).nodes_left() == 0 || depth == 0 ==> r is None,
            r matches Some(line) ==> line_wins(old(b)@, side, line@) && 1 <= line.len() <= depth,
            final(self).nodes_left() == search_attack(
                old(b)@,
                side,
                depth as nat,
                old(self).nodes_left() as nat,
            ).1,
            match r {
                Some(line) => search_attack(old(b)@, side, depth as nat, old(self).nodes_left() as nat).0
                    == Some(line_cells(line@)),
                None => search_attack(
                    old(b)@,
                    side,
                    depth as nat,
                    old(self).nodes_left() as nat,
                ).0 is None,
            },
        decreases depth, 1nat,
    {
        let ghost p = b@;
        let ghost n0 = self.nodes_left as nat;
        if self.nodes_left == 0 || depth == 0 {
            return None;
        }
        self.nodes_left = self.nodes_left - 1;
        proof {
            b.lemma_wf_valid();
        }
        let wins = immediate_wins(&*b, side);
        if !wins.is_empty() {
            proof {
                lemma_nonempty_witness(wins@);
                wins.lemma_view_finite();
            }
            let ws = wins.iter();
            proof {
                let i = choose|i: int| #[trigger] wins@.contains(i);
                let k = choose|k: int| 0 <= k < ws.len() && #[trigger] ws[k]@ == i;
                assert(ws@.len() > 0);
                lemma_first_listed(ws@, wins@);
            }
            let first = ws[0];
            let _ = first.index();
            let r = vec![first];
            proof {
                assert(p.status == Status::Ongoing) by {
                    if p.status == Status::Draw {
                        assert(p.occupied(first@));
                    }
                }
                let line = seq![first];
                assert(line[0] == first);
                assert(line_wins(p, side, line));
                assert(r@ =~= line);
                assert(line_cells(r@) =~= seq![first@]);
            }
            return Some(r);
        }
        let threats = threat_moves(&*b, side);
        let mut m: usize = 0;
        while m < 225
            invariant
                m <= 225,
                b.wf(),
                b@ == p,
                p == old(b)@,
                p.to_move == side,
                p.valid(),
                !(p.status is Won),
                depth > 0,
                n0 == old(self).nodes_left(),
                self.nodes_left() < old(self).nodes_left(),
                threats@ == threat_set(p, side),
                search_attack(p, side, depth as nat, n0) == search_threats(
                    p,
                    side,
                    depth as nat,
                    self.nodes_left() as nat,
                    m as int,
                ),
            decreases 225 - m,
        {
            if !threats.contains_index(m) {
                m = m + 1;
                continue;
            }
            let mv = Move::from_index(m);
            let _ = mv.index();
            proof {
                Move::lemma_of_index(mv, m as int);
                assert(threat_set(p, side).contains(mv@));
                assert(p.status == Status::Ongoing) by {
                    if p.status == Status::Draw {
                        assert(p.occupied(mv@));
                    }
                }
            }
            match b.play(mv) {
                Ok(()) => {},
                Err(_) => {
                    return None;
                },
            }
            let ghost q = b@;
            proof {
                crate::board::lemma_play_undo(p, mv);
                assert(q == p.after_play(mv));
                assert(q.after_undo() == p);
            }
            if b.status() == Status::Won(side) {
                b.undo();
                let r = vec![mv];
                proof {
                    let line = seq![mv];
                    assert(line[0] == mv);
                    assert(line_wins(p, side, line));
                    assert(r@ =~= line);
                    assert(line_cells(r@) =~= seq![m as int]);
                }
                return Some(r);
            }
            if !immediate_wins(&*b, side.other()).is_empty() {
                b.undo();
                m = m + 1;
                continue;
            }
            if immediate_wins(&*b, side).len() >= 2 {
                b.undo();
                let r = vec![mv];
                proof {
                    let line = seq![mv];
                    assert(line[0] == mv);
                    assert(line_wins(p, side, line));
                    assert(r@ =~= line);
                    assert(line_cells(r@) =~= seq![m as int]);
                }
                return Some(r);
            }
            let maybe_suffix = self.solve_after_attacker(b, side, depth - 1);
            b.undo();
            match maybe_suffix {
                Some((reply, suffix)) => {
                    let mut line: Vec<Move> = vec![mv, reply];
                    let mut j: usize = 0;
                    while j < suffix.len()
                        invariant
                            j <= suffix.len(),
                            line@ == seq![mv, reply] + suffix@.subrange(0, j as int),
                        decreases suffix.len() - j,
                    {
                        line.push(suffix[j]);
                        j = j + 1;
                    }
                    proof {
                        assert(suffix@.subrange(0, suffix.len() as int) =~= suffix@);
                        assert(line@[0] == mv);
                        assert(line@[1] == reply);
                        assert(line@.subrange(2, line@.len() as int) =~= suffix@);
                        assert(line_cells(line@) =~= seq![m as int, reply@] + line_cells(suffix@));
                    }
                    return Some(line);
                },
                None => {},
            }
            m = m + 1;
        }
        None
    }

    /// The position after an attacker move: `Some((reply, suffix))` when the
    /// move leaves exactly one winning cell, the defender has no win of its
    /// own, and `suffix` wins after every block. The board is left as it was.
    pub fn solve_after_attacker(&mut self, b: &mut Board, side: Color, depth: u8) -> (r: Option<
        (Move, Vec<Move>),
    >)
        requires
            old(b).wf(),
            old(b)@.to_move == side.opponent(),
            old(b)@.status != Status::Won(side.opponent()),
        ensures
            final(b).wf(),
            final(b)@ == old(b)@,
            final(self).nodes_left() <= old(self).nodes_left(),
            old(self).nodes_left() == 0 || depth == 0 ==> r is None,
            r matches Some((reply, suffix)) ==> suffix.len() < depth,
            r matches Some((reply, suffix)) ==> {
                let p = old(b)@;
                let wins = immediate_win_set(p, side);
                &&& p.status != Status::Won(side)
                &&& immediate_win_set(p, side.opponent()) == Set::<int>::empty()
                &&& !(wins.len() >= 2)
                &&& wins != Set::<int>::empty()
                &&& wins.contains(reply@)
                &&& forall|alt: Move| #[trigger]
                    wins.contains(alt@) ==> line_wins(p.after_play(alt), side, suffix@)
            },
            final(self).nodes_left() == search_defence(
                old(b)@,
                side,
                depth as nat,
                old(self).nodes_left() as nat,
            ).1,
            match r {
                Some((reply, suffix)) => search_defence(
                    old(b)@,
                    side,
                    depth as nat,
                    old(self).nodes_left() as nat,
                ).0 == Some((reply@, line_cells(suffix@))),
                None => search_defence(
                    old(b)@,
                    side,
                    depth as nat,
                    old(self).nodes_left() as nat,
                ).0 is None,
            },
        decreases depth, 0nat,
    {
        let ghost p = b@;
        let ghost n0 = self.nodes_left as nat;
        if self.nodes_left == 0 || depth == 0 {
            return None;
        }
        self.nodes_left = self.nodes_left - 1;
        if b.status() == Status::Won(side) {
            return None;
        }
        if !immediate_wins(&*b, side.other()).is_empty() {
            return None;
        }
        let attacker_wins = immediate_wins(&*b, side);
        if attacker_wins.len() >= 2 {
            return None;
        }
        if attacker_wins.is_empty() {
            return None;
        }
        proof {
            b.lemma_wf_valid();
            lemma_nonempty_witness(attacker_wins@);
            attacker_wins.lemma_view_finite();
            if p.status == Status::Draw {
                let m = choose|m: int| #[trigger] attacker_wins@.contains(m);
                assert(p.occupied(m));
            }
            assert(p.status == Status::Ongoing);
        }
        let replies = forced_blocks(&*b).iter();
        proof {
            let i = choose|i: int| #[trigger] attacker_wins@.contains(i);
            let k = choose|k: int| 0 <= k < replies.len() && #[trigger] replies[k]@ == i;
            if replies.len() >= 2 {
                assert(replies[0]@ < replies[1]@);
                lemma_two_elements(attacker_wins@, replies[0]@, replies[1]@);
            }
            assert(replies.len() == 1);
            lemma_first_listed(replies@, attacker_wins@);
            Move::lemma_of_index(replies[0], 0);
            assert(replies[0] == Move::of_index(first_cell(immediate_win_set(p, side), 0)));
        }
        let ghost spec_after = search_defence(p, side, depth as nat, n0);
        let mut continuations: Vec<(Move, Vec<Move>)> = Vec::new();
        let mut k: usize = 0;
        while k < replies.len()
            invariant
                k <= replies.len(),
                replies.len() == 1,
                b.wf(),
                b@ == p,
                p == old(b)@,
                p.valid(),
                p.status == Status::Ongoing,
                p.to_move == side.opponent(),
                depth > 0,
                n0 == old(self).nodes_left(),
                n0 > 0,
                spec_after == search_defence(p, side, depth as nat, n0),
                replies[0] == Move::of_index(first_cell(immediate_win_set(p, side), 0)),
                replies[0]@ == first_cell(immediate_win_set(p, side), 0),
                !(immediate_win_set(p, side).len() >= 2),
                immediate_win_set(p, side) != Set::<int>::empty(),
                immediate_win_set(p, side.opponent()) == Set::<int>::empty(),
                forall|j: int| 0 <= j < replies.len() ==> immediate_win_set(p, side).contains(
                    #[trigger] replies[j]@,
                ),
                continuations.len() == k,
                k == 0 ==> self.nodes_left() == n0 - 1,
                k == 1 ==> spec_after == (
                    Some((replies[0]@, line_cells(continuations[0].1@))),
                    self.nodes_left() as nat,
                ),
                self.nodes_left() < old(self).nodes_left(),
                forall|j: int| 0 <= j < k ==> (#[trigger] continuations[j]).1.len() < depth,
                forall|j: int|
                    0 <= j < k ==> (#[trigger] continuations[j]).0 == replies[j] && line_wins(
                        p.after_play(replies[j]),
                        side,
                        continuations[j].1@,
                    ),
            decreases replies.len() - k,
        {
            let reply = replies[k];
            let _ = reply.index();
            proof {
                assert(immediate_win_set(p, side).contains(replies[k as int]@));
                crate::board::lemma_play_undo(p, reply);
            }
            match b.play(reply) {
                Ok(()) => {},
                Err(_) => {
                    return None;
                },
            }
            proof {
                assert(!has_five(p.stones(side.opponent()).insert(reply@))) by {
                    if has_five(p.stones(side.opponent()).insert(reply@)) {
                        assert(immediate_win_set(p, side.opponent()).contains(reply@));
                    }
                }
            }
            let cont = self.solve(b, side, depth - 1);
            b.undo();
            let line = match cont {
                Some(line) => line,
                None => {
                    return None;
                },
            };
            continuations.push((reply, line));
            k = k + 1;
        }
        let mut c: usize = 0;
        while c < continuations.len()
            invariant
                c == 0,
                n0 == old(self).nodes_left(),
                continuations.len() == replies.len(),
                replies.len() == 1,
                b.wf(),
                b@ == p,
                p == old(b)@,
                p.valid(),
                p.status == Status::Ongoing,
                p.to_move == side.opponent(),
                spec_after == search_defence(p, side, depth as nat, n0),
                spec_after == (
                    Some((replies[0]@, line_cells(continuations[0].1@))),
                    self.nodes_left() as nat,
                ),
                self.nodes_left() < old(self).nodes_left(),
                immediate_win_set(p, side.opponent()) == Set::<int>::empty(),
                forall|j: int| 0 <= j < replies.len() ==> immediate_win_set(p, side).contains(
                    #[trigger] replies[j]@,
                ),
                forall|x: int| #[trigger]
                    immediate_win_set(p, side).contains(x) ==> exists|j: int|
                        0 <= j < replies.len() && #[trigger] replies[j]@ == x,
                forall|j: int|
                    0 <= j < continuations.len() ==> (#[trigger] continuations[j]).0 == replies[j],
                forall|j: int| 0 <= j < continuations.len() ==> (#[trigger] continuations[j]).1.len() < depth,
                forall|j: int|
                    0 <= j < continuations.len() ==> line_wins(
                        p.after_play(replies[j]),
                        side,
                        (#[trigger] continuations[j]).1@,
                    ),
                !(immediate_win_set(p, side).len() >= 2),
                immediate_win_set(p, side) != Set::<int>::empty(),
            decreases continuations.len() - c,
        {
            let mut ok = true;
            let mut j: usize = 0;
            while j < replies.len()
                invariant
                    j <= replies.len(),
                    replies.len() == 1,
                    continuations.len() == 1,
                    c == 0,
                    ok,
                    b.wf(),
                    b@ == p,
                    p == old(b)@,
                    p.valid(),
                    p.status == Status::Ongoing,
                    p.to_move == side.opponent(),
                    forall|i: int| 0 <= i < replies.len() ==> immediate_win_set(p, side).contains(
                        #[trigger] replies[i]@,
                    ),
                    line_wins(p.after_play(replies[0]), side, continuations[0].1@),
                    forall|i: int|
                        0 <= i < j ==> line_wins(
                            p.after_play(#[trigger] replies[i]),
                            side,
                            continuations[c as int].1@,
                        ),
                ensures
                    b.wf(),
                    b@ == p,
                    ok,
                    forall|i: int|
                        0 <= i < replies.len() ==> line_wins(
                            p.after_play(#[trigger] replies[i]),
                            side,
                            continuations[c as int].1@,
                        ),
                decreases replies.len() - j,
            {
                let r2 = replies[j];
                let _ = r2.index();
                proof {
                    assert(immediate_win_set(p, side).contains(replies[j as int]@));
                    crate::board::lemma_play_undo(p, r2);
                }
                match b.play(r2) {
                    Ok(()) => {},
                    Err(_) => {
                        return None;
                    },
                }
                let passes = verify_moves(&*b, side, continuations[c].1.as_slice());
                b.undo();
                if !passes {
                    ok = false;
                    break;
                }
                j = j + 1;
            }
            if ok {
                let ghost cont0 = continuations[0];
                let (reply, suffix) = continuations.remove(c);
                proof {
                    assert(reply == cont0.0 && suffix == cont0.1);
                    assert forall|alt: Move| #[trigger]
                        immediate_win_set(p, side).contains(alt@) implies line_wins(
                        p.after_play(alt),
                        side,
                        suffix@,
                    ) by {
                        let i = choose|i: int| 0 <= i < replies.len() && #[trigger] replies[i]@ == alt@;
                        lemma_move_view_injective(replies[i], alt);
                    }
                }
                return Some((reply, suffix));
            }
            c = c + 1;
        }
        None
    }
}

} // verus!
