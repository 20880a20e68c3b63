//! `Move` (a legal cell) and `MoveSet` (a set of cells as a bitset over
//! row-major indices `row * 15 + col`).
use vstd::prelude::*;
use vstd::set_lib::*;
use crate::bitboard::{word_bit, lemma_or_bit, lemma_test_bit, lemma_zero_word};

verus! {

/// A legal Gomoku cell: `row * 15 + col`, always below 225.
#[derive(Debug, Clone, Copy, PartialEq, Eq, Hash, Structural)]
pub struct Move(u8);

impl View for Move {
    type V = int;

    closed spec fn view(&self) -> int {
        self.0 as int
    }
}

/// Row of a row-major index.
pub open spec fn row_of(i: int) -> int {
    i / 15
}

/// Column of a row-major index.
pub open spec fn col_of(i: int) -> int {
    i % 15
}

impl Move {
    #[verifier::type_invariant]
    spec fn inv(self) -> bool {
        self.0 < 225
    }

    /// Create a move from row and column; `None` if off the board.
    pub fn new(row: u8, col: u8) -> (r: Option<Move>)
        ensures
            r is Some <==> (row < 15 && col < 15),
            r matches Some(m) ==> m@ == row * 15 + col,
    {
        if row < 15 && col < 15 {
            Some(Move(row * 15 + col))
        } else {
            None
        }
    }

    /// The move at a row-major index.
    pub fn from_index(i: usize) -> (m: Move)
        requires
            i < 225,
        ensures
            m@ == i,
    {
        Move(i as u8)
    }

    /// Row index, `0..=14`.
    pub fn row(self) -> (r: u8)
        ensures
            r == row_of(self@),
            r < 15,
    {
        proof {
            use_type_invariant(&self);
        }
        self.0 / 15
    }

    /// Column index, `0..=14`.
    pub fn col(self) -> (c: u8)
        ensures
            c == col_of(self@),
            c < 15,
    {
        self.0 % 15
    }

    /// Row-major index, `0..=224`.
    pub fn index(self) -> (i: usize)
        ensures
            i == self@,
            i < 225,
    {
        proof {
            use_type_invariant(&self);
        }
        self.0 as usize
    }

    /// The move on cell `i` of the board.
    pub closed spec fn of_index(i: int) -> Move {
        Move(i as u8)
    }

    /// A move is the move on its own cell, and the move on a cell of the
    /// board is that cell.
    pub proof fn lemma_of_index(m: Move, i: int)
        ensures
            m == Move::of_index(m@),
            0 <= i < 225 ==> Move::of_index(i)@ == i,
    {
    }

    /// The move on `(row, col)` of the board.
    pub closed spec fn at(row: int, col: int) -> Move {
        Move((row * 15 + col) as u8)
    }

    /// A move on `(row, col)` is `Move::at(row, col)`.
    pub proof fn lemma_at(m: Move, row: int, col: int)
        requires
            0 <= row < 15,
            0 <= col < 15,
            m@ == row * 15 + col,
        ensures
            m == Move::at(row, col),
            Move::at(row, col)@ == row * 15 + col,
    {
    }

    /// The move on `(row, col)` is that cell.
    pub proof fn lemma_at_view(row: int, col: int)
        requires
            0 <= row < 15,
            0 <= col < 15,
        ensures
            Move::at(row, col)@ == row * 15 + col,
    {
    }

    /// Two moves are the same cell.
    pub fn same(self, other: Move) -> (b: bool)
        ensures
            b == (self@ == other@),
    {
        self.0 == other.0
    }
}

/// Moves with the same index are the same move.
pub proof fn lemma_move_view_injective(a: Move, b: Move)
    ensures
        a@ == b@ ==> a == b,
{
}

/// An increasing listing of a set of cells, one move per member, has as
/// many moves as the set has members.
pub proof fn lemma_listing_len(v: Seq<Move>, s: Set<int>)
    requires
        forall|k: int| 0 <= k < v.len() ==> s.contains(#[trigger] v[k]@),
        forall|i: int| #[trigger] s.contains(i) ==> exists|k: int| 0 <= k < v.len() && #[trigger] v[k]@ == i,
        forall|a: int, b: int| 0 <= a < b < v.len() ==> v[a]@ < v[b]@,
    ensures
        v.len() == s.len(),
{
    let w = v.map_values(|m: Move| m@);
    assert(w.no_duplicates()) by {
        assert forall|a: int, b: int| 0 <= a < w.len() && 0 <= b < w.len() && a != b implies w[a]
            != w[b] by {
            if a < b {
                assert(v[a]@ < v[b]@);
            } else {
                assert(v[b]@ < v[a]@);
            }
        }
    }
    assert forall|i: int| #[trigger] w.to_set().contains(i) == s.contains(i) by {
        if s.contains(i) {
            let k = choose|k: int| 0 <= k < v.len() && #[trigger] v[k]@ == i;
            assert(w[k] == i);
        }
        if w.to_set().contains(i) {
            let k = choose|k: int| 0 <= k < w.len() && w[k] == i;
            assert(s.contains(v[k]@));
        }
    }
    assert(w.to_set() =~= s);
    w.unique_seq_to_set();
}

/// A set of moves as a 225-bit bitset over row-major indices.
#[derive(Debug, Clone, Copy, PartialEq, Eq)]
pub struct MoveSet([u64; 4]);

impl View for MoveSet {
    type V = Set<int>;

    closed spec fn view(&self) -> Set<int> {
        set_int_range(0, 225).filter(|i: int| self.has(i))
    }
}

/// Number of indices `i < n` that satisfy `p`.
pub open spec fn count_where(p: spec_fn(int) -> bool, n: int) -> nat
    decreases n,
{
    if n <= 0 {
        0
    } else {
        count_where(p, n - 1) + (if p(n - 1) { 1nat } else { 0nat })
    }
}

pub proof fn lemma_count_le(p: spec_fn(int) -> bool, n: int)
    requires
        0 <= n,
    ensures
        count_where(p, n) <= n,
    decreases n,
{
    if n > 0 {
        lemma_count_le(p, n - 1);
    }
}

/// The count of a predicate below `n` is the size of the set it selects.
pub proof fn lemma_count_is_len(p: spec_fn(int) -> bool, n: int)
    requires
        0 <= n,
    ensures
        set_int_range(0, n).filter(p).finite(),
        set_int_range(0, n).filter(p).len() == count_where(p, n),
    decreases n,
{
    lemma_int_range(0, n);
    set_int_range(0, n).lemma_len_filter(p);
    if n > 0 {
        lemma_count_is_len(p, n - 1);
        let prev = set_int_range(0, n - 1).filter(p);
        let cur = set_int_range(0, n).filter(p);
        if p(n - 1) {
            assert(cur =~= prev.insert(n - 1));
        } else {
            assert(cur =~= prev);
        }
    } else {
        assert(set_int_range(0, n).filter(p) =~= Set::empty());
    }
}

impl MoveSet {
    spec fn has(self, i: int) -> bool {
        0 <= i < 256 && word_bit(self.0[i / 64], (i % 64) as u64)
    }

    #[verifier::type_invariant]
    spec fn inv(self) -> bool {
        forall|i: int| #[trigger] self.has(i) ==> i < 225
    }

    /// Number of moves in the set, as a count over the 225 cells.
    pub closed spec fn size(self) -> nat {
        count_where(|i: int| self@.contains(i), 225)
    }

    /// A move set is a finite set of cells of the board.
    pub proof fn lemma_view_finite(self)
        ensures
            self@.finite(),
            forall|x: int| #[trigger] self@.contains(x) ==> 0 <= x < 225,
    {
        lemma_int_range(0, 225);
        set_int_range(0, 225).lemma_len_filter(|i: int| self.has(i));
    }

    /// The empty set.
    pub fn empty() -> (s: MoveSet)
        ensures
            s@ == Set::<int>::empty(),
    {
        let w = [0u64, 0u64, 0u64, 0u64];
        proof {
            lemma_zero_word(0u64);
            assert forall|i: int| 0 <= i < 256 implies !word_bit(#[trigger] w[i / 64], (i % 64) as u64) by {
                assert(w[i / 64] == 0u64);
            }
        }
        let s = MoveSet(w);
        proof {
            assert(s@ =~= Set::<int>::empty());
        }
        s
    }

    /// Insert `mv` into the set.
    pub fn insert(&mut self, mv: Move)
        ensures
            final(self)@ == old(self)@.insert(mv@),
    {
        proof {
            use_type_invariant(&*self);
        }
        let i = mv.index();
        let k = i / 64;
        let b = (i % 64) as u64;
        let m = 1u64 << b;
        let w = self.0;
        let nw = if k == 0 {
            [w[0] | m, w[1], w[2], w[3]]
        } else if k == 1 {
            [w[0], w[1] | m, w[2], w[3]]
        } else if k == 2 {
            [w[0], w[1], w[2] | m, w[3]]
        } else {
            [w[0], w[1], w[2], w[3] | m]
        };
        let ghost before = *self;
        proof {
            assert forall|j: int| 0 <= j < 256 implies #[trigger] word_bit(nw[j / 64], (j % 64) as u64)
                == (before.has(j) || j == i) by {
                let jw = (j % 64) as u64;
                if j / 64 == k as int {
                    lemma_or_bit(w[k as int], b, jw);
                }
            }
        }
        let next = MoveSet(nw);
        proof {
            assert forall|j: int| #[trigger] next.has(j) == (before.has(j) || j == i) by {
                if 0 <= j < 256 {
                    assert(word_bit(nw[j / 64], (j % 64) as u64) == (before.has(j) || j == i));
                }
            }
            assert(next@ =~= before@.insert(mv@));
        }
        *self = next;
    }

    /// True if `mv` is in the set.
    pub fn contains(&self, mv: Move) -> (b: bool)
        ensures
            b == self@.contains(mv@),
    {
        let i = mv.index();
        let b = (i % 64) as u64;
        proof {
            lemma_test_bit(self.0[i as int / 64], b);
        }
        self.0[i / 64] & (1u64 << b) != 0
    }

    /// True if index `i` is in the set.
    pub fn contains_index(&self, i: usize) -> (b: bool)
        requires
            i < 225,
        ensures
            b == self@.contains(i as int),
    {
        let b = (i % 64) as u64;
        proof {
            lemma_test_bit(self.0[i as int / 64], b);
        }
        self.0[i / 64] & (1u64 << b) != 0
    }

    /// Number of moves in the set.
    pub fn len(&self) -> (n: u32)
        ensures
            n == self@.len(),
            n == self.size(),
            n <= 225,
    {
        let mut n: u32 = 0;
        let mut i: usize = 0;
        let ghost p = |j: int| self@.contains(j);
        while i < 225
            invariant
                i <= 225,
                n == count_where(p, i as int),
                n <= i,
                p == (|j: int| self@.contains(j)),
            decreases 225 - i,
        {
            if self.contains_index(i) {
                n = n + 1;
            }
            i = i + 1;
        }
        proof {
            lemma_count_is_len(p, 225);
            assert(set_int_range(0, 225).filter(p) =~= self@);
        }
        n
    }

    /// True if the set contains no moves.
    pub fn is_empty(&self) -> (b: bool)
        ensures
            b == (self@ == Set::<int>::empty()),
    {
        proof {
            use_type_invariant(&*self);
        }
        let b = self.0[0] == 0 && self.0[1] == 0 && self.0[2] == 0 && self.0[3] == 0;
        proof {
            lemma_zero_word(self.0[0]);
            lemma_zero_word(self.0[1]);
            lemma_zero_word(self.0[2]);
            lemma_zero_word(self.0[3]);
            if b {
                assert forall|i: int| !#[trigger] self.has(i) by {
                    if 0 <= i < 256 {
                        assert(!word_bit(self.0[i / 64], (i % 64) as u64));
                    }
                }
                assert(self@ =~= Set::<int>::empty());
            } else {
                let k: int = if self.0[0] != 0 {
                    0
                } else if self.0[1] != 0 {
                    1
                } else if self.0[2] != 0 {
                    2
                } else {
                    3
                };
                let j = choose|j: u64| j < 64 && word_bit(self.0[k], j);
                assert(self.has(64 * k + j));
                assert(self@.contains(64 * k + j));
            }
        }
        b
    }

    /// The moves of the set in increasing index order.
    pub fn iter(&self) -> (v: Vec<Move>)
        ensures
            forall|k: int| 0 <= k < v.len() ==> self@.contains(#[trigger] v[k]@),
            forall|i: int| #[trigger] self@.contains(i) ==> exists|k: int|
                0 <= k < v.len() && #[trigger] v[k]@ == i,
            forall|a: int, b: int| 0 <= a < b < v.len() ==> v[a]@ < v[b]@,
            v.len() == self@.len(),
    {
        let mut v: Vec<Move> = Vec::new();
        let mut i: usize = 0;
        while i < 225
            invariant
                i <= 225,
                forall|k: int| 0 <= k < v.len() ==> self@.contains(#[trigger] v[k]@) && v[k]@ < i,
                forall|j: int| 0 <= j < i && #[trigger] self@.contains(j) ==> exists|k: int|
                    0 <= k < v.len() && #[trigger] v[k]@ == j,
                forall|a: int, b: int| 0 <= a < b < v.len() ==> v[a]@ < v[b]@,
            decreases 225 - i,
        {
            let ghost old_v = v@;
            if self.contains_index(i) {
                let m = Move::from_index(i);
                v.push(m);
                proof {
                    assert(v[v.len() - 1]@ == i);
                    assert forall|j: int| 0 <= j < i + 1 && #[trigger] self@.contains(j) implies exists|k: int|
                        0 <= k < v.len() && #[trigger] v[k]@ == j by {
                        if j == i {
                            assert(v[v.len() - 1]@ == j);
                        } else {
                            let k = choose|k: int| 0 <= k < old_v.len() && #[trigger] old_v[k]@ == j;
                            assert(v[k]@ == j);
                        }
                    }
                }
            }
            i = i + 1;
        }
        proof {
            assert forall|j: int| #[trigger] self@.contains(j) implies exists|k: int|
                0 <= k < v.len() && #[trigger] v[k]@ == j by {
                assert(0 <= j < 225);
            }
            lemma_listing_len(v@, self@);
        }
        v
    }
}

impl Default for MoveSet {
    fn default() -> (s: MoveSet)
        ensures
            s@ == Set::<int>::empty(),
    {
        MoveSet::empty()
    }
}

} // verus!
