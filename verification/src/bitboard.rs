//! Stride-16 bitboard over four 64-bit words.
//!
//! Cell `(r, c)` of the 15x15 board lives at bit `16 * r + c`. Column 15 of
//! every row and the bits from 240 upwards are padding; a *clean* bitboard
//! keeps them at zero.
use vstd::prelude::*;
use vstd::std_specs::bits::{axiom_u64_trailing_zeros, u64_trailing_zeros};
use vstd::set_lib::set_int_range;
use crate::moveset::{count_where, lemma_count_is_len, lemma_count_le};

verus! {

/// Bit `j` of a single word.
pub open spec fn word_bit(w: u64, j: u64) -> bool {
    (w >> j) & 1u64 == 1u64
}

pub proof fn lemma_or_bit(w: u64, b: u64, j: u64)
    by (bit_vector)
    requires
        b < 64,
        j < 64,
    ensures
        ((w | (1u64 << b)) >> j) & 1u64 == (if j == b { 1u64 } else { (w >> j) & 1u64 }),
{
}

pub proof fn lemma_clear_bit(w: u64, b: u64, j: u64)
    by (bit_vector)
    requires
        b < 64,
        j < 64,
    ensures
        ((w & !(1u64 << b)) >> j) & 1u64 == (if j == b { 0u64 } else { (w >> j) & 1u64 }),
{
}

pub proof fn lemma_test_bit(w: u64, b: u64)
    by (bit_vector)
    requires
        b < 64,
    ensures
        (w & (1u64 << b) != 0) == ((w >> b) & 1u64 == 1u64),
{
}

pub proof fn lemma_and_bits(a: u64, b: u64, j: u64)
    by (bit_vector)
    requires
        j < 64,
    ensures
        ((a & b) >> j) & 1u64 == 1u64 <==> ((a >> j) & 1u64 == 1u64 && (b >> j) & 1u64 == 1u64),
{
}

pub proof fn lemma_or_bits(a: u64, b: u64, j: u64)
    by (bit_vector)
    requires
        j < 64,
    ensures
        ((a | b) >> j) & 1u64 == 1u64 <==> ((a >> j) & 1u64 == 1u64 || (b >> j) & 1u64 == 1u64),
{
}

pub proof fn lemma_not_bits(a: u64, j: u64)
    by (bit_vector)
    requires
        j < 64,
    ensures
        ((!a) >> j) & 1u64 == 1u64 <==> !((a >> j) & 1u64 == 1u64),
{
}

pub proof fn lemma_shr_pair(a: u64, b: u64, s: u64, j: u64)
    by (bit_vector)
    requires
        0 < s < 64,
        j < 64,
    ensures
        (((a >> s) | (b << ((64 - s) as u64))) >> j) & 1u64 == (if j + s < 64 {
            (a >> ((j + s) as u64)) & 1u64
        } else {
            (b >> ((j + s - 64) as u64)) & 1u64
        }),
{
}

pub proof fn lemma_shr_last(a: u64, s: u64, j: u64)
    by (bit_vector)
    requires
        0 < s < 64,
        j < 64,
    ensures
        ((a >> s) >> j) & 1u64 == (if j + s < 64 {
            (a >> ((j + s) as u64)) & 1u64
        } else {
            0u64
        }),
{
}

pub proof fn lemma_zero_word(w: u64)
    ensures
        (w == 0) <==> (forall|j: u64| j < 64 ==> !#[trigger] word_bit(w, j)),
{
    if w == 0 {
        assert forall|j: u64| j < 64 implies !#[trigger] word_bit(w, j) by {
            assert(w == 0 ==> (w >> j) & 1u64 == 0u64) by (bit_vector);
        }
    } else {
        axiom_u64_trailing_zeros(w);
        let tz = u64_trailing_zeros(w) as u64;
        assert(word_bit(w, tz));
    }
}

/// Stride-16 bit of the row-major cell `m`.
pub open spec fn stride_index(m: int) -> int {
    16 * (m / 15) + m % 15
}

pub proof fn lemma_stride_index(m: int)
    requires
        0 <= m < 225,
    ensures
        0 <= m / 15 < 15,
        0 <= m % 15 < 15,
        m == 15 * (m / 15) + m % 15,
        0 <= stride_index(m) < 240,
        stride_index(m) % 16 == m % 15,
        stride_index(m) / 16 == m / 15,
{
}

pub proof fn lemma_stride_injective(m: int, x: int)
    requires
        0 <= m < 225,
        0 <= x < 225,
        stride_index(m) == stride_index(x),
    ensures
        m == x,
{
    lemma_stride_index(m);
    lemma_stride_index(x);
}

/// 256 bits, of which 225 are real board cells.
#[derive(Debug, Clone, Copy, PartialEq, Eq)]
pub struct Bitboard(pub [u64; 4]);

/// Stride-16 index of cell `(r, c)`.
pub fn idx(r: u8, c: u8) -> (i: usize)
    ensures
        i == 16 * r + c,
{
    r as usize * 16 + c as usize
}

/// The 225 real cells, padding excluded.
pub fn valid() -> (v: Bitboard)
    ensures
        forall|i: int| #[trigger] v.bit(i) <==> (0 <= i < 240 && i % 16 < 15),
{
    let v = Bitboard([0x7FFF_7FFF_7FFF_7FFFu64, 0x7FFF_7FFF_7FFF_7FFFu64, 0x7FFF_7FFF_7FFF_7FFFu64, 0x0000_7FFF_7FFF_7FFFu64]);
    proof {
        assert forall|i: int| #[trigger] v.bit(i) <==> (0 <= i < 240 && i % 16 < 15) by {
            if 0 <= i < 256 {
                let j = (i % 64) as u64;
                assert(j < 64 ==> (((0x7FFF_7FFF_7FFF_7FFFu64 >> j) & 1u64 == 1u64) <==> (j % 16
                    < 15))) by (bit_vector);
                assert(j < 64 ==> (((0x0000_7FFF_7FFF_7FFFu64 >> j) & 1u64 == 1u64) <==> (j % 16
                    < 15 && j < 48))) by (bit_vector);
                assert(i % 16 == (i % 64) % 16);
            }
        }
    }
    v
}

impl Bitboard {
    /// Bit `i` of the 256-bit value.
    pub open spec fn bit(self, i: int) -> bool {
        0 <= i < 256 && word_bit(self.0[i / 64], (i % 64) as u64)
    }

    /// Padding bits (column 15, rows 15 and beyond) are clear.
    pub open spec fn clean(self) -> bool {
        forall|i: int| #[trigger] self.bit(i) ==> i < 240 && i % 16 < 15
    }

    /// The stone at cell `(r, c)`, if the cell is on the board.
    pub open spec fn at(self, r: int, c: int) -> bool {
        0 <= r < 15 && 0 <= c < 15 && self.bit(16 * r + c)
    }

    /// The set of occupied cells, as row-major (stride-15) indices.
    pub open spec fn cells(self) -> Set<int> {
        Set::new(|m: int| 0 <= m < 225 && self.at(m / 15, m % 15))
    }

    pub fn empty() -> (b: Bitboard)
        ensures
            forall|i: int| !#[trigger] b.bit(i),
            b.clean(),
    {
        let b = Bitboard([0u64, 0u64, 0u64, 0u64]);
        proof {
            assert forall|i: int| !#[trigger] b.bit(i) by {
                if 0 <= i < 256 {
                    lemma_zero_word(0u64);
                    assert(!word_bit(0u64, (i % 64) as u64));
                }
            }
        }
        b
    }

    pub fn with_bit(self, i: usize) -> (r: Bitboard)
        requires
            i < 256,
        ensures
            forall|j: int| #[trigger] r.bit(j) == (self.bit(j) || j == i),
    {
        let k = i / 64;
        let b = (i % 64) as u64;
        let m = 1u64 << b;
        let w = self.0;
        let nw = if k == 0 {
            [w[0] | m, w[1], w[2], w[3]]
        } else if k == 1 {
            [w[0], w[1] | m, w[2], w[3]]
        } else if k == 2 {
            [w[0], w[1], w[2] | m, w[3]]
        } else {
            [w[0], w[1], w[2], w[3] | m]
        };
        let r = Bitboard(nw);
        proof {
            assert forall|j: int| #[trigger] r.bit(j) == (self.bit(j) || j == i) by {
                if 0 <= j < 256 {
                    let jw = (j % 64) as u64;
                    if j / 64 == k as int {
                        lemma_or_bit(w[k as int], b, jw);
                    }
                }
            }
        }
        r
    }

    pub fn without_bit(self, i: usize) -> (r: Bitboard)
        requires
            i < 256,
        ensures
            forall|j: int| #[trigger] r.bit(j) == (self.bit(j) && j != i),
    {
        let k = i / 64;
        let b = (i % 64) as u64;
        let m = !(1u64 << b);
        let w = self.0;
        let nw = if k == 0 {
            [w[0] & m, w[1], w[2], w[3]]
        } else if k == 1 {
            [w[0], w[1] & m, w[2], w[3]]
        } else if k == 2 {
            [w[0], w[1], w[2] & m, w[3]]
        } else {
            [w[0], w[1], w[2], w[3] & m]
        };
        let r = Bitboard(nw);
        proof {
            assert forall|j: int| #[trigger] r.bit(j) == (self.bit(j) && j != i) by {
                if 0 <= j < 256 {
                    let jw = (j % 64) as u64;
                    if j / 64 == k as int {
                        lemma_clear_bit(w[k as int], b, jw);
                    }
                }
            }
        }
        r
    }

    pub fn test(&self, i: usize) -> (r: bool)
        requires
            i < 256,
        ensures
            r == self.bit(i as int),
    {
        let b = (i % 64) as u64;
        proof {
            lemma_test_bit(self.0[i as int / 64], b);
        }
        self.0[i / 64] & (1u64 << b) != 0
    }

    pub fn is_zero(&self) -> (r: bool)
        ensures
            r == (forall|i: int| !#[trigger] self.bit(i)),
    {
        let r = self.0[0] == 0 && self.0[1] == 0 && self.0[2] == 0 && self.0[3] == 0;
        proof {
            lemma_zero_word(self.0[0]);
            lemma_zero_word(self.0[1]);
            lemma_zero_word(self.0[2]);
            lemma_zero_word(self.0[3]);
            if r {
                assert forall|i: int| !#[trigger] self.bit(i) by {
                    if 0 <= i < 256 {
                        let jw = (i % 64) as u64;
                        assert(!word_bit(self.0[i / 64], jw));
                    }
                }
            } else {
                let k: int = if self.0[0] != 0 {
                    0
                } else if self.0[1] != 0 {
                    1
                } else if self.0[2] != 0 {
                    2
                } else {
                    3
                };
                let j = choose|j: u64| j < 64 && word_bit(self.0[k], j);
                assert(self.bit(64 * k + j));
            }
        }
        r
    }

    /// Number of stones on the 225 real cells.
    pub fn count(&self) -> (n: u32)
        ensures
            n == self.cells().len(),
            self.cells().finite(),
            n <= 225,
    {
        let mut n: u32 = 0;
        let mut m: usize = 0;
        let ghost p = |j: int| self.cells().contains(j);
        while m < 225
            invariant
                m <= 225,
                n == count_where(p, m as int),
                n <= m,
                p == (|j: int| self.cells().contains(j)),
            decreases 225 - m,
        {
            proof {
                lemma_stride_index(m as int);
            }
            if self.test(idx((m / 15) as u8, (m % 15) as u8)) {
                n = n + 1;
            }
            m = m + 1;
        }
        proof {
            lemma_count_is_len(p, 225);
            assert(set_int_range(0, 225).filter(p) =~= self.cells());
        }
        n
    }

    /// Logical right shift of the 256-bit value by `s`.
    pub fn shr(&self, s: u32) -> (r: Bitboard)
        requires
            0 < s < 64,
        ensures
            forall|i: int| 0 <= i < 256 ==> #[trigger] r.bit(i) == self.bit(i + s),
    {
        let w = self.0;
        let s64 = s as u64;
        let t = 64 - s64;
        let r = Bitboard(
            [
                (w[0] >> s64) | (w[1] << t),
                (w[1] >> s64) | (w[2] << t),
                (w[2] >> s64) | (w[3] << t),
                w[3] >> s64,
            ],
        );
        proof {
            assert forall|i: int| 0 <= i < 256 implies #[trigger] r.bit(i) == self.bit(i + s) by {
                let k = i / 64;
                let j = (i % 64) as u64;
                if k < 3 {
                    lemma_shr_pair(w[k], w[k + 1], s64, j);
                } else {
                    lemma_shr_last(w[3], s64, j);
                }
                if j + s64 < 64 {
                    assert((i + s) / 64 == k);
                    assert((i + s) % 64 == j + s64);
                } else {
                    assert((i + s) / 64 == k + 1);
                    assert((i + s) % 64 == j + s64 - 64);
                }
            }
        }
        r
    }

    pub fn bitand(self, rhs: Bitboard) -> (r: Bitboard)
        ensures
            forall|i: int| #[trigger] r.bit(i) == (self.bit(i) && rhs.bit(i)),
    {
        let r = Bitboard(
            [
                self.0[0] & rhs.0[0],
                self.0[1] & rhs.0[1],
                self.0[2] & rhs.0[2],
                self.0[3] & rhs.0[3],
            ],
        );
        proof {
            assert forall|i: int| #[trigger] r.bit(i) == (self.bit(i) && rhs.bit(i)) by {
                if 0 <= i < 256 {
                    lemma_and_bits(self.0[i / 64], rhs.0[i / 64], (i % 64) as u64);
                }
            }
        }
        r
    }

    pub fn bitor(self, rhs: Bitboard) -> (r: Bitboard)
        ensures
            forall|i: int| #[trigger] r.bit(i) == (self.bit(i) || rhs.bit(i)),
    {
        let r = Bitboard(
            [
                self.0[0] | rhs.0[0],
                self.0[1] | rhs.0[1],
                self.0[2] | rhs.0[2],
                self.0[3] | rhs.0[3],
            ],
        );
        proof {
            assert forall|i: int| #[trigger] r.bit(i) == (self.bit(i) || rhs.bit(i)) by {
                if 0 <= i < 256 {
                    lemma_or_bits(self.0[i / 64], rhs.0[i / 64], (i % 64) as u64);
                }
            }
        }
        r
    }

    pub proof fn lemma_cells_contains(self, m: int)
        ensures
            self.cells().contains(m) == (0 <= m < 225 && self.bit(stride_index(m))),
    {
        if 0 <= m < 225 {
            lemma_stride_index(m);
        }
    }

    pub proof fn lemma_cells_finite(self)
        ensures
            self.cells().finite(),
            self.cells().len() <= 225,
    {
        let p = |j: int| self.cells().contains(j);
        lemma_count_is_len(p, 225);
        assert(set_int_range(0, 225).filter(p) =~= self.cells());
        lemma_count_le(p, 225);
    }

    /// Setting the bit of cell `m` inserts `m` into the cells.
    pub proof fn lemma_cells_insert(self, next: Bitboard, m: int)
        requires
            0 <= m < 225,
            forall|j: int| #[trigger] next.bit(j) == (self.bit(j) || j == stride_index(m)),
        ensures
            next.cells() == self.cells().insert(m),
            self.clean() ==> next.clean(),
    {
        lemma_stride_index(m);
        assert forall|x: int| #[trigger] next.cells().contains(x) == self.cells().insert(m).contains(x) by {
            self.lemma_cells_contains(x);
            next.lemma_cells_contains(x);
            if 0 <= x < 225 && stride_index(x) == stride_index(m) {
                lemma_stride_injective(m, x);
            }
        }
        assert(next.cells() =~= self.cells().insert(m));
    }

    /// Clearing the bit of cell `m` removes `m` from the cells.
    pub proof fn lemma_cells_remove(self, next: Bitboard, m: int)
        requires
            0 <= m < 225,
            forall|j: int| #[trigger] next.bit(j) == (self.bit(j) && j != stride_index(m)),
        ensures
            next.cells() == self.cells().remove(m),
            self.clean() ==> next.clean(),
    {
        lemma_stride_index(m);
        assert forall|x: int| #[trigger] next.cells().contains(x) == self.cells().remove(m).contains(x) by {
            self.lemma_cells_contains(x);
            next.lemma_cells_contains(x);
            if 0 <= x < 225 && stride_index(x) == stride_index(m) {
                lemma_stride_injective(m, x);
            }
        }
        assert(next.cells() =~= self.cells().remove(m));
    }

    /// A clean bitboard is determined by its cells.
    pub proof fn lemma_clean_bits(self, i: int)
        requires
            self.clean(),
            self.bit(i),
        ensures
            0 <= i < 240,
            i % 16 < 15,
            self.cells().contains(15 * (i / 16) + i % 16),
            stride_index(15 * (i / 16) + i % 16) == i,
    {
        let m = 15 * (i / 16) + i % 16;
        assert(m / 15 == i / 16 && m % 15 == i % 16);
        self.lemma_cells_contains(m);
    }

    /// Complement of every bit, padding included: callers mask it with `valid()`.
    pub fn not(self) -> (r: Bitboard)
        ensures
            forall|i: int| 0 <= i < 256 ==> #[trigger] r.bit(i) == !self.bit(i),
    {
        let r = Bitboard([!self.0[0], !self.0[1], !self.0[2], !self.0[3]]);
        proof {
            assert forall|i: int| 0 <= i < 256 implies #[trigger] r.bit(i) == !self.bit(i) by {
                lemma_not_bits(self.0[i / 64], (i % 64) as u64);
            }
        }
        r
    }

    /// No padding bit is set: every bit lies on one of the 225 cells.
    pub fn is_clean(&self) -> (b: bool)
        ensures
            b == self.clean(),
    {
        let v = valid();
        let outside = self.bitand(v.not());
        let b = outside.is_zero();
        proof {
            if b {
                assert forall|i: int| #[trigger] self.bit(i) implies i < 240 && i % 16 < 15 by {
                    assert(!outside.bit(i));
                    assert(v.bit(i));
                }
            } else {
                let i = choose|i: int| #[trigger] outside.bit(i);
                assert(self.bit(i) && !v.bit(i));
            }
        }
        b
    }
}

} // verus!
