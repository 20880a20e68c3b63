//! Zobrist hashing: one fixed pseudo-random key per (color, cell) and one for
//! "White to move"; a position's key is the XOR of the keys it holds.
use vstd::prelude::*;
use crate::board::Color;

verus! {

/// One round of xorshift64.
pub open spec fn spec_xorshift(x: u64) -> u64 {
    let a = x ^ (x << 13u64);
    let b = a ^ (a >> 7u64);
    b ^ (b << 17u64)
}

/// The pseudo-random key number `n` (four xorshift rounds from a seed).
pub open spec fn spec_mix(n: u64) -> u64 {
    spec_xorshift(spec_xorshift(spec_xorshift(spec_xorshift(n ^ 0x9E37_79B9_7F4A_7C15u64))))
}

/// The key of a stone of `color` on cell `i`.
pub open spec fn cell_key(color: Color, i: int) -> u64 {
    match color {
        Color::Black => spec_mix((i + 1) as u64),
        Color::White => spec_mix((i + 226) as u64),
    }
}

/// The key that marks "White to move".
pub open spec fn white_to_move_key() -> u64 {
    spec_mix(451u64)
}

/// XOR of the keys of every stone below cell `n`.
pub open spec fn stones_key(black: Set<int>, white: Set<int>, n: int) -> u64
    decreases n,
{
    if n <= 0 {
        0u64
    } else {
        stones_key(black, white, n - 1) ^ (if black.contains(n - 1) {
            cell_key(Color::Black, n - 1)
        } else {
            0u64
        }) ^ (if white.contains(n - 1) {
            cell_key(Color::White, n - 1)
        } else {
            0u64
        })
    }
}

/// The Zobrist key of a position.
pub open spec fn position_key(black: Set<int>, white: Set<int>, to_move: Color) -> u64 {
    stones_key(black, white, 225) ^ (if to_move == Color::White {
        white_to_move_key()
    } else {
        0u64
    })
}

fn xorshift(x: u64) -> (r: u64)
    ensures
        r == spec_xorshift(x),
{
    let a = x ^ (x << 13u64);
    let b = a ^ (a >> 7u64);
    b ^ (b << 17u64)
}

fn mix(n: u64) -> (r: u64)
    ensures
        r == spec_mix(n),
{
    xorshift(xorshift(xorshift(xorshift(n ^ 0x9E37_79B9_7F4A_7C15u64))))
}

/// The key of a stone of `color` on cell `i`.
pub fn key_for(color: Color, i: usize) -> (k: u64)
    requires
        i < 225,
    ensures
        k == cell_key(color, i as int),
{
    match color {
        Color::Black => mix((i + 1) as u64),
        Color::White => mix((i + 226) as u64),
    }
}

/// The key that marks "White to move".
pub fn white_to_move() -> (k: u64)
    ensures
        k == white_to_move_key(),
{
    mix(451u64)
}

proof fn lemma_xor_swap(a: u64, b: u64, c: u64, k: u64)
    by (bit_vector)
    ensures
        ((a ^ k) ^ b) ^ c == ((a ^ b) ^ c) ^ k,
        ((a ^ b) ^ k) ^ c == ((a ^ b) ^ c) ^ k,
        (a ^ b) ^ (c ^ k) == ((a ^ b) ^ c) ^ k,
{
}

/// Adding the stone `(color, i)` to a position XORs its key into the stone key.
pub proof fn lemma_stones_key_toggle(
    black: Set<int>,
    white: Set<int>,
    black2: Set<int>,
    white2: Set<int>,
    color: Color,
    i: int,
    n: int,
)
    requires
        0 <= i < n,
        forall|j: int| j != i ==> (black2.contains(j) == black.contains(j) && white2.contains(j)
            == white.contains(j)),
        color == Color::Black ==> (white2.contains(i) == white.contains(i) && black2.contains(i)
            && !black.contains(i)),
        color == Color::White ==> (black2.contains(i) == black.contains(i) && white2.contains(i)
            && !white.contains(i)),
    ensures
        stones_key(black2, white2, n) == stones_key(black, white, n) ^ cell_key(color, i),
    decreases n,
{
    if n == i + 1 {
        lemma_stones_key_same(black, white, black2, white2, i);
        let a = stones_key(black, white, i);
        let bt = if black.contains(i) {
            cell_key(Color::Black, i)
        } else {
            0u64
        };
        let wt = if white.contains(i) {
            cell_key(Color::White, i)
        } else {
            0u64
        };
        let k = cell_key(color, i);
        assert((a ^ k) ^ wt == ((a ^ 0u64) ^ wt) ^ k) by (bit_vector);
        assert((a ^ bt) ^ k == ((a ^ bt) ^ 0u64) ^ k) by (bit_vector);
    } else {
        lemma_stones_key_toggle(black, white, black2, white2, color, i, n - 1);
        let a = stones_key(black, white, n - 1);
        let bt = if black.contains(n - 1) {
            cell_key(Color::Black, n - 1)
        } else {
            0u64
        };
        let wt = if white.contains(n - 1) {
            cell_key(Color::White, n - 1)
        } else {
            0u64
        };
        lemma_xor_swap(a, bt, wt, cell_key(color, i));
    }
}

/// Positions that agree below `n` have the same stone key below `n`.
pub proof fn lemma_stones_key_same(
    black: Set<int>,
    white: Set<int>,
    black2: Set<int>,
    white2: Set<int>,
    n: int,
)
    requires
        forall|j: int|
            0 <= j < n ==> (black2.contains(j) == black.contains(j) && white2.contains(j)
                == white.contains(j)),
    ensures
        stones_key(black2, white2, n) == stones_key(black, white, n),
    decreases n,
{
    if n > 0 {
        lemma_stones_key_same(black, white, black2, white2, n - 1);
    }
}

} // verus!
