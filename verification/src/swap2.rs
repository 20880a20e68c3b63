//! The Swap2 opening protocol as a typestate machine.
use std::marker::PhantomData;
use vstd::prelude::*;
use vstd::pervasive::unreached;
use crate::bitboard::{Bitboard, idx, lemma_stride_index, stride_index};
use crate::board::{
    Board,
    Color,
    PlayError,
    Position,
    cells_of,
    position_error,
    status_of,
};
use crate::moveset::Move;

verus! {

/// Player A places three stones: two Black and one White.
#[derive(Debug)]
pub struct Placing3;

/// Player B chooses a color or places two more stones.
#[derive(Debug)]
pub struct FirstChoice;

/// Player B places one Black and one White stone.
#[derive(Debug)]
pub struct Placing2;

/// Player A picks a color after the extra stones were placed.
#[derive(Debug)]
pub struct FinalChoice;

/// The stone counts a state of the opening holds.
pub trait OpeningStage {
    /// Black and White hold `black` and `white` stones in this state.
    spec fn counts_fit(black: nat, white: nat) -> bool;
}

impl OpeningStage for Placing3 {
    open spec fn counts_fit(black: nat, white: nat) -> bool {
        true
    }
}

impl OpeningStage for FirstChoice {
    open spec fn counts_fit(black: nat, white: nat) -> bool {
        black == 2 && white == 1
    }
}

impl OpeningStage for Placing2 {
    open spec fn counts_fit(black: nat, white: nat) -> bool {
        true
    }
}

impl OpeningStage for FinalChoice {
    open spec fn counts_fit(black: nat, white: nat) -> bool {
        black == 3 && white == 2
    }
}

/// The Swap2 opening, parameterized by its current state.
#[derive(Debug)]
pub struct Swap2<State> {
    black: Bitboard,
    white: Bitboard,
    _state: PhantomData<State>,
}

impl<State: OpeningStage> Swap2<State> {
    /// Black stones placed so far.
    pub closed spec fn black_cells(&self) -> Set<int> {
        self.black.cells()
    }

    /// White stones placed so far.
    pub closed spec fn white_cells(&self) -> Set<int> {
        self.white.cells()
    }

    /// Clean, non-overlapping stone sets.
    closed spec fn stones_ok(&self) -> bool {
        &&& self.black.clean()
        &&& self.white.clean()
        &&& forall|m: int| !(#[trigger] self.black.cells().contains(m) && self.white.cells().contains(m))
    }

    /// Clean, non-overlapping stone sets, as many as the state holds.
    pub closed spec fn wf(&self) -> bool {
        &&& self.stones_ok()
        &&& State::counts_fit(self.black_cells().len(), self.white_cells().len())
    }

    fn place_stone(&mut self, mv: Move, color: Color) -> (r: Result<(), PlayError>)
        requires
            old(self).stones_ok(),
        ensures
            final(self).stones_ok(),
            (old(self).black_cells().contains(mv@) || old(self).white_cells().contains(mv@)) ==> (r
                == Err::<(), PlayError>(PlayError::Occupied) && final(self).black_cells() == old(
                self,
            ).black_cells() && final(self).white_cells() == old(self).white_cells()),
            !(old(self).black_cells().contains(mv@) || old(self).white_cells().contains(mv@)) ==> (
            r is Ok && final(self).black_cells() == (if color == Color::Black {
                old(self).black_cells().insert(mv@)
            } else {
                old(self).black_cells()
            }) && final(self).white_cells() == (if color == Color::White {
                old(self).white_cells().insert(mv@)
            } else {
                old(self).white_cells()
            })),
    {
        let m = mv.index();
        let i = idx(mv.row(), mv.col());
        proof {
            lemma_stride_index(m as int);
            self.black.lemma_cells_contains(m as int);
            self.white.lemma_cells_contains(m as int);
        }
        if self.black.bitor(self.white).test(i) {
            return Err(PlayError::Occupied);
        }
        match color {
            Color::Black => {
                let next = self.black.with_bit(i);
                proof {
                    self.black.lemma_cells_insert(next, m as int);
                }
                self.black = next;
            },
            Color::White => {
                let next = self.white.with_bit(i);
                proof {
                    self.white.lemma_cells_insert(next, m as int);
                }
                self.white = next;
            },
        }
        Ok(())
    }

    fn counts_are(&self, black: u32, white: u32) -> (b: bool)
        requires
            self.stones_ok(),
        ensures
            b == (self.black_cells().len() == black && self.white_cells().len() == white),
    {
        self.black.count() == black && self.white.count() == white
    }

    /// The board after the opening; White, who has fewer stones, is to move.
    fn build_board(self) -> (b: Board)
        requires
            self.stones_ok(),
            (self.black_cells().len() == 2 && self.white_cells().len() == 1) || (
            self.black_cells().len() == 3 && self.white_cells().len() == 2),
        ensures
            b.wf(),
            b@ == (Position {
                black: self.black_cells(),
                white: self.white_cells(),
                to_move: Color::White,
                status: status_of(self.black_cells(), self.white_cells()),
                moves: Seq::<Move>::empty(),
            }),
    {
        let black = moves_of(&self.black);
        let white = moves_of(&self.white);
        let to_move = if white.len() < black.len() {
            Color::White
        } else {
            Color::Black
        };
        proof {
            self.black.lemma_cells_finite();
            self.white.lemma_cells_finite();
        }
        match Board::from_position(black.as_slice(), white.as_slice(), to_move) {
            Ok(b) => b,
            Err(_) => unreached(),
        }
    }
}

impl Swap2<Placing3> {
    /// Start a fresh Swap2 opening.
    pub fn new() -> (s: Self)
        ensures
            s.wf(),
            s.black_cells() == Set::<int>::empty(),
            s.white_cells() == Set::<int>::empty(),
    {
        let e = Bitboard::empty();
        proof {
            assert(e.cells() =~= Set::<int>::empty());
        }
        Swap2 { black: e, white: e, _state: PhantomData }
    }

    /// Place one stone of the given color; `Occupied` if the cell is taken.
    pub fn place(&mut self, mv: Move, color: Color) -> (r: Result<(), PlayError>)
        requires
            old(self).wf(),
        ensures
            final(self).wf(),
            (old(self).black_cells().contains(mv@) || old(self).white_cells().contains(mv@)) ==> (r
                == Err::<(), PlayError>(PlayError::Occupied) && final(self).black_cells() == old(
                self,
            ).black_cells() && final(self).white_cells() == old(self).white_cells()),
            !(old(self).black_cells().contains(mv@) || old(self).white_cells().contains(mv@)) ==> (
            r is Ok && final(self).black_cells() == (if color == Color::Black {
                old(self).black_cells().insert(mv@)
            } else {
                old(self).black_cells()
            }) && final(self).white_cells() == (if color == Color::White {
                old(self).white_cells().insert(mv@)
            } else {
                old(self).white_cells()
            })),
    {
        self.place_stone(mv, color)
    }

    /// Finish the first placement phase: exactly two Black stones and one
    /// White stone, else `BadOpeningCounts`.
    pub fn finish(self) -> (r: Result<Swap2<FirstChoice>, PlayError>)
        requires
            self.wf(),
        ensures
            (self.black_cells().len() == 2 && self.white_cells().len() == 1) <==> r is Ok,
            r matches Err(e) ==> e == PlayError::BadOpeningCounts,
            r matches Ok(s) ==> s.wf() && s.black_cells() == self.black_cells() && s.white_cells()
                == self.white_cells(),
    {
        if self.counts_are(2, 1) {
            Ok(Swap2 { black: self.black, white: self.white, _state: PhantomData })
        } else {
            Err(PlayError::BadOpeningCounts)
        }
    }
}

impl Default for Swap2<Placing3> {
    fn default() -> (s: Self)
        ensures
            s.wf(),
            s.black_cells() == Set::<int>::empty(),
            s.white_cells() == Set::<int>::empty(),
    {
        Self::new()
    }
}

impl Swap2<FirstChoice> {
    /// Take Black; White, who has fewer stones, moves next.
    pub fn take_black(self) -> (b: Board)
        requires
            self.wf(),
        ensures
            b.wf(),
            b@ == (Position {
                black: self.black_cells(),
                white: self.white_cells(),
                to_move: Color::White,
                status: status_of(self.black_cells(), self.white_cells()),
                moves: Seq::<Move>::empty(),
            }),
    {
        self.build_board()
    }

    /// Take White; White, who has fewer stones, moves next.
    pub fn take_white(self) -> (b: Board)
        requires
            self.wf(),
        ensures
            b.wf(),
            b@ == (Position {
                black: self.black_cells(),
                white: self.white_cells(),
                to_move: Color::White,
                status: status_of(self.black_cells(), self.white_cells()),
                moves: Seq::<Move>::empty(),
            }),
    {
        self.build_board()
    }

    /// Player B places two more stones instead of choosing a color.
    pub fn place_two_more(self) -> (s: Swap2<Placing2>)
        requires
            self.wf(),
        ensures
            s.wf(),
            s.black_cells() == self.black_cells(),
            s.white_cells() == self.white_cells(),
    {
        Swap2 { black: self.black, white: self.white, _state: PhantomData }
    }
}

impl Swap2<Placing2> {
    /// Place one stone of the given color; `Occupied` if the cell is taken.
    pub fn place(&mut self, mv: Move, color: Color) -> (r: Result<(), PlayError>)
        requires
            old(self).wf(),
        ensures
            final(self).wf(),
            (old(self).black_cells().contains(mv@) || old(self).white_cells().contains(mv@)) ==> (r
                == Err::<(), PlayError>(PlayError::Occupied) && final(self).black_cells() == old(
                self,
            ).black_cells() && final(self).white_cells() == old(self).white_cells()),
            !(old(self).black_cells().contains(mv@) || old(self).white_cells().contains(mv@)) ==> (
            r is Ok && final(self).black_cells() == (if color == Color::Black {
                old(self).black_cells().insert(mv@)
            } else {
                old(self).black_cells()
            }) && final(self).white_cells() == (if color == Color::White {
                old(self).white_cells().insert(mv@)
            } else {
                old(self).white_cells()
            })),
    {
        self.place_stone(mv, color)
    }

    /// Finish the second placement phase: exactly three Black stones and two
    /// White stones, else `BadOpeningCounts`.
    pub fn finish(self) -> (r: Result<Swap2<FinalChoice>, PlayError>)
        requires
            self.wf(),
        ensures
            (self.black_cells().len() == 3 && self.white_cells().len() == 2) <==> r is Ok,
            r matches Err(e) ==> e == PlayError::BadOpeningCounts,
            r matches Ok(s) ==> s.wf() && s.black_cells() == self.black_cells() && s.white_cells()
                == self.white_cells(),
    {
        if self.counts_are(3, 2) {
            Ok(Swap2 { black: self.black, white: self.white, _state: PhantomData })
        } else {
            Err(PlayError::BadOpeningCounts)
        }
    }
}

impl Swap2<FinalChoice> {
    /// Take Black; White, who has fewer stones, moves next.
    pub fn take_black(self) -> (b: Board)
        requires
            self.wf(),
        ensures
            b.wf(),
            b@ == (Position {
                black: self.black_cells(),
                white: self.white_cells(),
                to_move: Color::White,
                status: status_of(self.black_cells(), self.white_cells()),
                moves: Seq::<Move>::empty(),
            }),
    {
        self.build_board()
    }

    /// Take White; White, who has fewer stones, moves next.
    pub fn take_white(self) -> (b: Board)
        requires
            self.wf(),
        ensures
            b.wf(),
            b@ == (Position {
                black: self.black_cells(),
                white: self.white_cells(),
                to_move: Color::White,
                status: status_of(self.black_cells(), self.white_cells()),
                moves: Seq::<Move>::empty(),
            }),
    {
        self.build_board()
    }
}

/// The cells of a bitboard as moves, in row-major order.
pub fn moves_of(bb: &Bitboard) -> (v: Vec<Move>)
    ensures
        cells_of(v@) == bb.cells(),
        v.len() == bb.cells().len(),
{
    let mut v: Vec<Move> = Vec::new();
    let mut m: usize = 0;
    while m < 225
        invariant
            m <= 225,
            cells_of(v@) == bb.cells().filter(|x: int| x < m),
            forall|a: int, b: int| 0 <= a < b < v.len() ==> v[a]@ < v[b]@,
            forall|k: int| 0 <= k < v.len() ==> #[trigger] v[k]@ < m,
        decreases 225 - m,
    {
        proof {
            lemma_stride_index(m as int);
            bb.lemma_cells_contains(m as int);
        }
        let ghost old_v = v@;
        if bb.test(idx((m / 15) as u8, (m % 15) as u8)) {
            v.push(Move::from_index(m));
        }
        proof {
            assert forall|x: int| #[trigger] cells_of(v@).contains(x) == bb.cells().filter(
                |y: int| y < m + 1,
            ).contains(x) by {
                if cells_of(v@).contains(x) {
                    let k = choose|k: int| 0 <= k < v@.len() && #[trigger] v@[k]@ == x;
                    if k < old_v.len() {
                        assert(old_v[k]@ == x);
                        assert(cells_of(old_v).contains(x));
                        assert(bb.cells().filter(|y: int| y < m).contains(x));
                    } else {
                        assert(x == m);
                    }
                }
                if x < m && bb.cells().contains(x) {
                    assert(bb.cells().filter(|y: int| y < m).contains(x));
                    assert(cells_of(old_v).contains(x));
                    let k = choose|k: int| 0 <= k < old_v.len() && #[trigger] old_v[k]@ == x;
                    assert(v@[k]@ == x);
                }
                if x == m && bb.cells().contains(x) {
                    assert(v@[v.len() - 1]@ == x);
                }
            }
            assert(cells_of(v@) =~= bb.cells().filter(|y: int| y < m + 1));
        }
        m = m + 1;
    }
    proof {
        assert(bb.cells().filter(|x: int| x < 225) =~= bb.cells());
        lemma_distinct_len(v@);
    }
    v
}

/// A strictly increasing list has as many cells as entries.
pub proof fn lemma_distinct_len(list: Seq<Move>)
    requires
        forall|a: int, b: int| 0 <= a < b < list.len() ==> list[a]@ < list[b]@,
    ensures
        cells_of(list).finite(),
        cells_of(list).len() == list.len(),
    decreases list.len(),
{
    if list.len() == 0 {
        assert(cells_of(list) =~= Set::<int>::empty());
    } else {
        let pre = list.drop_last();
        lemma_distinct_len(pre);
        let x = list.last()@;
        assert forall|y: int| #[trigger] cells_of(list).contains(y) == cells_of(pre).insert(x).contains(y) by {
            if cells_of(list).contains(y) {
                let k = choose|k: int| 0 <= k < list.len() && #[trigger] list[k]@ == y;
                if k < pre.len() {
                    assert(pre[k]@ == y);
                }
            }
            if cells_of(pre).contains(y) {
                let k = choose|k: int| 0 <= k < pre.len() && #[trigger] pre[k]@ == y;
                assert(list[k]@ == y);
            }
            if y == x {
                assert(list[list.len() - 1]@ == y);
            }
        }
        assert(cells_of(list) =~= cells_of(pre).insert(x));
        if cells_of(pre).contains(x) {
            let k = choose|k: int| 0 <= k < pre.len() && #[trigger] pre[k]@ == x;
            assert(list[k]@ < list[list.len() - 1]@);
        }
    }
}

} // verus!
