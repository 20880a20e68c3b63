//! Tactics: immediate wins, forced blocks, double threats.
//!
//! Every answer is exact: `immediate_wins` is every empty cell that completes
//! five, `forced_blocks` the opponent's immediate wins, and `double_threats`
//! every empty cell that is not itself a win and after which at least two
//! empty cells complete five.
use vstd::prelude::*;
use crate::bitboard::{Bitboard, idx, valid, stride_index, lemma_stride_index};
use crate::board::{Board, Color, Position};
use crate::moveset::{Move, MoveSet};
use crate::rules::has_five;
use crate::win::has_any_five;

verus! {

/// The cells of `empty` on which one more stone completes five for `stones`.
pub open spec fn winning_set(stones: Set<int>, empty: Set<int>) -> Set<int> {
    Set::new(|m: int| empty.contains(m) && has_five(stones.insert(m)))
}

/// The empty cells of a position.
pub open spec fn empties(p: Position) -> Set<int> {
    Set::new(|m: int| 0 <= m < 225 && !p.occupied(m))
}

/// Cells where `side` completes five with one more stone.
pub open spec fn immediate_win_set(p: Position, side: Color) -> Set<int> {
    winning_set(p.stones(side), empties(p))
}

/// Empty cells that do not win at once but leave `side` with at least two
/// winning cells.
pub open spec fn double_threat_set(p: Position, side: Color) -> Set<int> {
    Set::new(
        |m: int|
            empties(p).contains(m) && !has_five(p.stones(side).insert(m)) && winning_set(
                p.stones(side).insert(m),
                empties(p).remove(m),
            ).len() >= 2,
    )
}

/// A move that completes five ends the game and is never counted as a
/// double threat: for one side, winning cells and double threats are
/// disjoint sets of empty cells.
pub proof fn lemma_wins_are_not_threats(p: Position, side: Color)
    ensures
        immediate_win_set(p, side).disjoint(double_threat_set(p, side)),
        immediate_win_set(p, side).subset_of(empties(p)),
        double_threat_set(p, side).subset_of(empties(p)),
{
}

/// Cells where `side` completes five immediately, whichever side is to move.
pub fn immediate_wins(b: &Board, side: Color) -> (s: MoveSet)
    requires
        b.wf(),
    ensures
        s@ == immediate_win_set(b@, side),
{
    let e = clean_empties(b);
    winning_cells(b.stones(side), e)
}

/// Cells the side to move must play: the opponent's immediate wins.
pub fn forced_blocks(b: &Board) -> (s: MoveSet)
    requires
        b.wf(),
    ensures
        s@ == immediate_win_set(b@, b@.to_move.opponent()),
{
    immediate_wins(b, b.to_move().other())
}

/// Moves after which `side` has at least two immediate wins; immediate wins
/// themselves are excluded.
pub fn double_threats(b: &Board, side: Color) -> (s: MoveSet)
    requires
        b.wf(),
    ensures
        s@ == double_threat_set(b@, side),
{
    let stones = b.stones(side);
    let empty = clean_empties(b);
    let mut out = MoveSet::empty();
    let ghost p = b@;
    let ghost target = double_threat_set(p, side);
    let mut m: usize = 0;
    while m < 225
        invariant
            m <= 225,
            stones.clean(),
            empty.clean(),
            stones.cells() == p.stones(side),
            empty.cells() == empties(p),
            p == b@,
            target == double_threat_set(p, side),
            forall|x: int| #[trigger] out@.contains(x) <==> (0 <= x < m && target.contains(x)),
        decreases 225 - m,
    {
        proof {
            lemma_stride_index(m as int);
            empty.lemma_cells_contains(m as int);
        }
        let i = idx((m / 15) as u8, (m % 15) as u8);
        let ghost before = out@;
        if empty.test(i) {
            let hypo = stones.with_bit(i);
            proof {
                stones.lemma_cells_insert(hypo, m as int);
            }
            if !has_any_five(&hypo) {
                let rest = empty.without_bit(i);
                proof {
                    empty.lemma_cells_remove(rest, m as int);
                }
                if winning_cells(hypo, rest).len() >= 2 {
                    out.insert(Move::from_index(m));
                }
            }
        }
        proof {
            assert forall|x: int| #[trigger] out@.contains(x) <==> (0 <= x < m + 1 && target.contains(x)) by {
                if x != m {
                    assert(out@.contains(x) == before.contains(x));
                }
            }
        }
        m = m + 1;
    }
    proof {
        assert(out@ =~= target);
    }
    out
}

/// Every cell of `empty` whose occupation completes five for `stones`.
pub fn winning_cells(stones: Bitboard, empty: Bitboard) -> (s: MoveSet)
    requires
        stones.clean(),
        empty.clean(),
    ensures
        s@ == winning_set(stones.cells(), empty.cells()),
{
    let mut out = MoveSet::empty();
    let ghost target = winning_set(stones.cells(), empty.cells());
    let mut m: usize = 0;
    while m < 225
        invariant
            m <= 225,
            stones.clean(),
            empty.clean(),
            target == winning_set(stones.cells(), empty.cells()),
            forall|x: int| #[trigger] out@.contains(x) <==> (0 <= x < m && target.contains(x)),
        decreases 225 - m,
    {
        proof {
            lemma_stride_index(m as int);
            empty.lemma_cells_contains(m as int);
        }
        let i = idx((m / 15) as u8, (m % 15) as u8);
        let ghost before = out@;
        if empty.test(i) {
            let hypo = stones.with_bit(i);
            proof {
                stones.lemma_cells_insert(hypo, m as int);
            }
            if has_any_five(&hypo) {
                out.insert(Move::from_index(m));
            }
        }
        proof {
            assert forall|x: int| #[trigger] out@.contains(x) <==> (0 <= x < m + 1 && target.contains(x)) by {
                if x != m {
                    assert(out@.contains(x) == before.contains(x));
                }
            }
        }
        m = m + 1;
    }
    proof {
        assert forall|x: int| #[trigger] target.contains(x) implies 0 <= x < 225 by {
            empty.lemma_cells_contains(x);
        }
        assert(out@ =~= target);
    }
    out
}

/// The empty cells as a clean bitboard.
pub fn clean_empties(b: &Board) -> (e: Bitboard)
    requires
        b.wf(),
    ensures
        e.clean(),
        e.cells() == empties(b@),
{
    let bl = b.stones(Color::Black);
    let wh = b.stones(Color::White);
    let e = bl.bitor(wh).not().bitand(valid());
    proof {
        assert forall|m: int| #[trigger] e.cells().contains(m) == empties(b@).contains(m) by {
            e.lemma_cells_contains(m);
            bl.lemma_cells_contains(m);
            wh.lemma_cells_contains(m);
            if 0 <= m < 225 {
                lemma_stride_index(m);
            }
        }
        assert(e.cells() =~= empties(b@));
    }
    e
}

} // verus!
