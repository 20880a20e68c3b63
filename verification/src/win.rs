//! Win detection: the staged two/four/five shift-AND over a bitboard.
use vstd::prelude::*;
use crate::bitboard::Bitboard;
use crate::rules::{on_board, stone_in, five_from, five_in_dir, has_five};

verus! {

/// Five set bits from `i`, stepping by `s`.
pub open spec fn run5(b: Bitboard, i: int, s: int) -> bool {
    &&& b.bit(i)
    &&& b.bit(i + s)
    &&& b.bit(i + 2 * s)
    &&& b.bit(i + 3 * s)
    &&& b.bit(i + 4 * s)
}

/// The four axes, as `(row step, column step)`.
pub open spec fn is_axis(dr: int, dc: int) -> bool {
    ||| (dr == 0 && dc == 1)
    ||| (dr == 1 && dc == 0)
    ||| (dr == 1 && dc == -1)
    ||| (dr == 1 && dc == 1)
}

/// Row step of the axis that the stride-16 shift `s` walks.
pub open spec fn axis_dr(s: int) -> int {
    if s == 1 {
        0
    } else {
        1
    }
}

/// Column step of the axis that the stride-16 shift `s` walks.
pub open spec fn axis_dc(s: int) -> int {
    if s == 1 {
        1
    } else if s == 16 {
        0
    } else if s == 15 {
        -1
    } else {
        1
    }
}

/// A stride-16 shift amount of one of the four axes.
pub open spec fn is_shift(s: int) -> bool {
    s == 1 || s == 16 || s == 15 || s == 17
}

pub proof fn lemma_cells_at(b: Bitboard, r: int, c: int)
    ensures
        stone_in(b.cells(), r, c) == b.at(r, c),
{
    if on_board(r, c) {
        let m = r * 15 + c;
        assert(m / 15 == r && m % 15 == c) by (nonlinear_arith)
            requires
                m == r * 15 + c,
                0 <= c < 15,
                0 <= r,
        ;
    }
}

pub proof fn lemma_five_at(b: Bitboard, r: int, c: int, dr: int, dc: int)
    ensures
        five_from(b.cells(), r, c, dr, dc) == (b.at(r, c) && b.at(r + dr, c + dc) && b.at(
            r + 2 * dr,
            c + 2 * dc,
        ) && b.at(r + 3 * dr, c + 3 * dc) && b.at(r + 4 * dr, c + 4 * dc)),
{
    lemma_cells_at(b, r, c);
    lemma_cells_at(b, r + dr, c + dc);
    lemma_cells_at(b, r + 2 * dr, c + 2 * dc);
    lemma_cells_at(b, r + 3 * dr, c + 3 * dc);
    lemma_cells_at(b, r + 4 * dr, c + 4 * dc);
}

/// On a clean bitboard, five bits in a run of stride `16 * dr + dc` are five
/// stones in a row on the board: the padding column stops every wrap.
pub proof fn lemma_run_is_five(b: Bitboard, i: int, dr: int, dc: int)
    requires
        b.clean(),
        is_axis(dr, dc),
        run5(b, i, 16 * dr + dc),
    ensures
        five_from(b.cells(), i / 16, i % 16, dr, dc),
{
    let s = 16 * dr + dc;
    let r = i / 16;
    let c = i % 16;
    assert(b.bit(i));
    assert(b.bit(i + s));
    assert(b.bit(i + 2 * s));
    assert(b.bit(i + 3 * s));
    assert(b.bit(i + 4 * s));
    assert(i == 16 * r + c);
    assert(c < 15);
    assert((i + s) % 16 < 15);
    assert((i + 2 * s) % 16 < 15);
    assert((i + 3 * s) % 16 < 15);
    assert((i + 4 * s) % 16 < 15);
    assert(i + 4 * s < 240);
    if dc == 1 {
        assert(c + 1 < 15);
        assert(c + 2 < 15);
        assert(c + 3 < 15);
        assert(c + 4 < 15);
    } else if dc == -1 {
        assert(c >= 1);
        assert(c >= 2);
        assert(c >= 3);
        assert(c >= 4);
    }
    assert(r + 4 * dr < 15);
    lemma_five_at(b, r, c, dr, dc);
}

/// Five stones in a row on the board are five bits in a stride run.
pub proof fn lemma_five_is_run(b: Bitboard, r: int, c: int, dr: int, dc: int)
    requires
        is_axis(dr, dc),
        five_from(b.cells(), r, c, dr, dc),
    ensures
        run5(b, 16 * r + c, 16 * dr + dc),
{
    lemma_five_at(b, r, c, dr, dc);
}

/// `has_five_in_dir`'s answer, in index space, is the geometric one.
pub proof fn lemma_dir_runs(b: Bitboard, s: int)
    requires
        b.clean(),
        is_shift(s),
    ensures
        (exists|i: int| #[trigger] run5(b, i, s)) == five_in_dir(b.cells(), axis_dr(s), axis_dc(s)),
{
    let dr = axis_dr(s);
    let dc = axis_dc(s);
    assert(s == 16 * dr + dc);
    if exists|i: int| #[trigger] run5(b, i, s) {
        let i = choose|i: int| #[trigger] run5(b, i, s);
        lemma_run_is_five(b, i, dr, dc);
        assert(five_from(b.cells(), i / 16, i % 16, dr, dc));
    }
    if five_in_dir(b.cells(), dr, dc) {
        let (r, c) = choose|r: int, c: int| #[trigger] five_from(b.cells(), r, c, dr, dc);
        lemma_five_is_run(b, r, c, dr, dc);
        assert(run5(b, 16 * r + c, s));
    }
}

/// True if `b` has five (or more) in a row along the axis that the shift `s`
/// walks: 1 is horizontal, 16 vertical, 15 and 17 the two diagonals.
pub fn has_five_in_dir(b: &Bitboard, s: u32) -> (r: bool)
    requires
        b.clean(),
        is_shift(s as int),
    ensures
        r == five_in_dir(b.cells(), axis_dr(s as int), axis_dc(s as int)),
{
    let two = b.bitand(b.shr(s));
    let four = two.bitand(two.shr(2 * s));
    let five = four.bitand(four.shr(s));
    let z = five.is_zero();
    proof {
        let si = s as int;
        assert forall|i: int| #[trigger] two.bit(i) == (b.bit(i) && b.bit(i + si)) by {}
        assert forall|i: int| #[trigger] four.bit(i) == (two.bit(i) && two.bit(i + 2 * si)) by {}
        assert forall|i: int| #[trigger] five.bit(i) == run5(*b, i, si) by {
            assert(four.bit(i) == (two.bit(i) && two.bit(i + 2 * si)));
            assert(four.bit(i + si) == (two.bit(i + si) && two.bit(i + si + 2 * si)));
            assert(two.bit(i) == (b.bit(i) && b.bit(i + si)));
            assert(two.bit(i + 2 * si) == (b.bit(i + 2 * si) && b.bit(i + 2 * si + si)));
            assert(two.bit(i + si) == (b.bit(i + si) && b.bit(i + si + si)));
            assert(two.bit(i + si + 2 * si) == (b.bit(i + si + 2 * si) && b.bit(
                i + si + 2 * si + si,
            )));
        }
        lemma_dir_runs(*b, si);
        if !z {
            let i = choose|i: int| #[trigger] five.bit(i);
            assert(run5(*b, i, si));
        } else {
            assert forall|i: int| !#[trigger] run5(*b, i, si) by {
                assert(five.bit(i) == run5(*b, i, si));
            }
        }
    }
    !z
}

/// True if `b` has five (or more) in a row anywhere on the board.
pub fn has_any_five(b: &Bitboard) -> (r: bool)
    requires
        b.clean(),
    ensures
        r == has_five(b.cells()),
{
    has_five_in_dir(b, 1) || has_five_in_dir(b, 16) || has_five_in_dir(b, 15) || has_five_in_dir(
        b,
        17,
    )
}

} // verus!
