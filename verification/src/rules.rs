//! The mathematical rules of freestyle Gomoku on a 15x15 board.
//!
//! A position's stones of one color are a set of row-major cell indices
//! `row * 15 + col`. Five (or more) in a row along one of the four axes wins;
//! overlines count.
use vstd::prelude::*;

verus! {

pub open spec fn on_board(r: int, c: int) -> bool {
    0 <= r < 15 && 0 <= c < 15
}

/// `s` holds a stone at `(r, c)`, which is on the board.
pub open spec fn stone_in(s: Set<int>, r: int, c: int) -> bool {
    on_board(r, c) && s.contains(r * 15 + c)
}

/// Five stones of `s` starting at `(r, c)` and stepping by `(dr, dc)`.
pub open spec fn five_from(s: Set<int>, r: int, c: int, dr: int, dc: int) -> bool {
    &&& stone_in(s, r, c)
    &&& stone_in(s, r + dr, c + dc)
    &&& stone_in(s, r + 2 * dr, c + 2 * dc)
    &&& stone_in(s, r + 3 * dr, c + 3 * dc)
    &&& stone_in(s, r + 4 * dr, c + 4 * dc)
}

/// `s` has five in a row along the axis `(dr, dc)`.
pub open spec fn five_in_dir(s: Set<int>, dr: int, dc: int) -> bool {
    exists|r: int, c: int| #[trigger] five_from(s, r, c, dr, dc)
}

/// `s` has five in a row along any of the four axes: horizontal, vertical
/// and the two diagonals.
pub open spec fn has_five(s: Set<int>) -> bool {
    ||| five_in_dir(s, 0, 1)
    ||| five_in_dir(s, 1, 0)
    ||| five_in_dir(s, 1, -1)
    ||| five_in_dir(s, 1, 1)
}

} // verus!
