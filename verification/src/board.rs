//! `Board`: absolute colors, side to move, play/undo, legality, status.
use vstd::prelude::*;
use vstd::string::StringExecFns;
use vstd::set_lib::{lemma_int_range, lemma_len_subset, lemma_set_disjoint_lens, set_int_range};
use crate::bitboard::{Bitboard, idx, valid, stride_index, lemma_stride_index};
use crate::moveset::Move;
use crate::rules::has_five;
use crate::reference::{lemma_replayed_play, lemma_replayed_undo, replayed};
use crate::win::has_any_five;
use crate::zobrist::{
    cell_key,
    key_for,
    lemma_stones_key_toggle,
    position_key,
    stones_key,
    white_to_move,
    white_to_move_key,
};

verus! {

#[derive(Debug, Clone, Copy, PartialEq, Eq, Structural)]
pub enum Color {
    Black,
    White,
}

impl Color {
    pub open spec fn opponent(self) -> Color {
        match self {
            Color::Black => Color::White,
            Color::White => Color::Black,
        }
    }

    pub fn other(self) -> (c: Color)
        ensures
            c == self.opponent(),
    {
        match self {
            Color::Black => Color::White,
            Color::White => Color::Black,
        }
    }
}

/// Game state.
#[derive(Debug, Clone, Copy, PartialEq, Eq, Structural)]
pub enum Status {
    Ongoing,
    Won(Color),
    Draw,
}

/// Why a stone could not be placed.
#[derive(Debug, Clone, Copy, PartialEq, Eq, Structural)]
pub enum PlayError {
    Occupied,
    GameOver,
    BadOpeningCounts,
}

/// The text a play error reads as.
pub open spec fn play_error_text(e: PlayError) -> Seq<char> {
    match e {
        PlayError::Occupied => "Cell is already occupied."@,
        PlayError::GameOver => "Game is already over."@,
        PlayError::BadOpeningCounts => "Opening has the wrong stone counts for this stage."@,
    }
}

impl PlayError {
    /// The error as a sentence.
    pub fn message(&self) -> (s: String)
        ensures
            s@ == play_error_text(*self),
    {
        match self {
            PlayError::Occupied => String::from_str("Cell is already occupied."),
            PlayError::GameOver => String::from_str("Game is already over."),
            PlayError::BadOpeningCounts => String::from_str(
                "Opening has the wrong stone counts for this stage.",
            ),
        }
    }
}

/// The text a position error reads as.
pub open spec fn position_error_text(e: PositionError) -> Seq<char> {
    match e {
        PositionError::OverlappingColors => "Black and white stones overlap on the same cell."@,
        PositionError::InvalidCounts => "Stone counts are inconsistent with the side to move."@,
    }
}

impl PositionError {
    /// The error as a sentence.
    pub fn message(&self) -> (s: String)
        ensures
            s@ == position_error_text(*self),
    {
        match self {
            PositionError::OverlappingColors => String::from_str(
                "Black and white stones overlap on the same cell.",
            ),
            PositionError::InvalidCounts => String::from_str(
                "Stone counts are inconsistent with the side to move.",
            ),
        }
    }
}

/// Why a position could not be built.
#[derive(Debug, Clone, Copy, PartialEq, Eq, Structural)]
pub enum PositionError {
    OverlappingColors,
    InvalidCounts,
}

/// The abstract state of a board.
pub struct Position {
    /// Black stones, as row-major cell indices.
    pub black: Set<int>,
    /// White stones, as row-major cell indices.
    pub white: Set<int>,
    pub to_move: Color,
    pub status: Status,
    /// The moves played on this board, oldest first.
    pub moves: Seq<Move>,
}

/// The cells named in a list of moves.
pub open spec fn cells_of(list: Seq<Move>) -> Set<int> {
    Set::new(|m: int| exists|k: int| 0 <= k < list.len() && #[trigger] list[k]@ == m)
}

/// The side to move in a position with these stone counts: White when Black
/// is ahead, Black otherwise.
pub open spec fn mover_for_counts(black: nat, white: nat) -> Color {
    if white < black {
        Color::White
    } else {
        Color::Black
    }
}

/// The status of a freshly set-up position.
pub open spec fn status_of(black: Set<int>, white: Set<int>) -> Status {
    if has_five(black) {
        Status::Won(Color::Black)
    } else if has_five(white) {
        Status::Won(Color::White)
    } else if black.len() + white.len() == 225 {
        Status::Draw
    } else {
        Status::Ongoing
    }
}

impl Position {
    pub open spec fn stones(self, color: Color) -> Set<int> {
        match color {
            Color::Black => self.black,
            Color::White => self.white,
        }
    }

    pub open spec fn occupied(self, m: int) -> bool {
        self.black.contains(m) || self.white.contains(m)
    }

    /// The color that played `moves[k]`: colors alternate and the last move
    /// was made by the side not to move.
    pub open spec fn mover_at(self, k: int) -> Color {
        if (self.moves.len() - 1 - k) % 2 == 0 {
            self.to_move.opponent()
        } else {
            self.to_move
        }
    }

    /// The consistency every board keeps.
    pub open spec fn valid(self) -> bool {
        &&& self.consistent()
        &&& self.status == Status::Draw ==> self.full()
    }

    /// Stones on real cells, colors apart, and a history of distinct moves
    /// whose colors alternate back from the side not to move.
    pub open spec fn consistent(self) -> bool {
        &&& self.black.finite()
        &&& self.white.finite()
        &&& forall|m: int| #[trigger] self.black.contains(m) ==> 0 <= m < 225
        &&& forall|m: int| #[trigger] self.white.contains(m) ==> 0 <= m < 225
        &&& forall|m: int| !(#[trigger] self.black.contains(m) && self.white.contains(m))
        &&& forall|k: int|
            0 <= k < self.moves.len() ==> self.stones(self.mover_at(k)).contains(
                #[trigger] self.moves[k]@,
            )
        &&& forall|a: int, b: int|
            0 <= a < b < self.moves.len() ==> #[trigger] self.moves[a]@ != #[trigger] self.moves[b]@
    }

    /// Every cell holds a stone.
    pub open spec fn full(self) -> bool {
        forall|m: int| 0 <= m < 225 ==> #[trigger] self.occupied(m)
    }

    /// The position after the side to move places a stone on `mv`.
    pub open spec fn after_play(self, mv: Move) -> Position {
        let c = self.to_move;
        let stones = self.stones(c).insert(mv@);
        let moves = self.moves.push(mv);
        Position {
            black: if c == Color::Black {
                stones
            } else {
                self.black
            },
            white: if c == Color::White {
                stones
            } else {
                self.white
            },
            to_move: c.opponent(),
            status: if has_five(stones) {
                Status::Won(c)
            } else if moves.len() == 225 {
                Status::Draw
            } else {
                Status::Ongoing
            },
            moves: moves,
        }
    }

    /// The position after taking back the last move.
    pub open spec fn after_undo(self) -> Position {
        let c = self.to_move.opponent();
        let m = self.moves.last()@;
        Position {
            black: if c == Color::Black {
                self.black.remove(m)
            } else {
                self.black
            },
            white: if c == Color::White {
                self.white.remove(m)
            } else {
                self.white
            },
            to_move: c,
            status: Status::Ongoing,
            moves: self.moves.drop_last(),
        }
    }

    /// The error `play` answers with, if any.
    pub open spec fn play_error(self, m: int) -> Option<PlayError> {
        if self.status != Status::Ongoing {
            Some(PlayError::GameOver)
        } else if self.occupied(m) {
            Some(PlayError::Occupied)
        } else {
            None
        }
    }
}

/// A consistent position has 225 cells less its stones empty.
pub proof fn lemma_empties_len(p: Position)
    requires
        p.consistent(),
    ensures
        Set::new(|i: int| 0 <= i < 225 && !p.occupied(i)).len() == 225 - (p.black.len()
            + p.white.len()),
{
    let range = set_int_range(0, 225);
    let occ = p.black + p.white;
    lemma_int_range(0, 225);
    lemma_set_disjoint_lens(p.black, p.white);
    assert(p.black.disjoint(p.white));
    vstd::set_lib::lemma_set_difference_len(range, occ);
    assert(range.intersect(occ) =~= occ);
    assert(range.difference(occ) =~= Set::new(|i: int| 0 <= i < 225 && !p.occupied(i)));
}

/// A set of at least 225 cells covers the whole board.
pub proof fn lemma_covers_board(s: Set<int>)
    requires
        s.finite(),
        forall|m: int| #[trigger] s.contains(m) ==> 0 <= m < 225,
        s.len() >= 225,
    ensures
        forall|m: int| 0 <= m < 225 ==> #[trigger] s.contains(m),
{
    lemma_int_range(0, 225);
    assert forall|m: int| 0 <= m < 225 implies #[trigger] s.contains(m) by {
        if !s.contains(m) {
            lemma_len_subset(s, set_int_range(0, 225).remove(m));
        }
    }
}

/// A list of pairwise distinct moves names as many cells as it has entries.
pub proof fn lemma_cells_of_len(list: Seq<Move>)
    requires
        forall|a: int, b: int| 0 <= a < b < list.len() ==> #[trigger] list[a]@ != #[trigger] list[b]@,
    ensures
        cells_of(list).finite(),
        cells_of(list).len() == list.len(),
    decreases list.len(),
{
    if list.len() == 0 {
        assert(cells_of(list) =~= Set::<int>::empty());
    } else {
        let pre = list.drop_last();
        assert forall|a: int, b: int| 0 <= a < b < pre.len() implies #[trigger] pre[a]@ != #[trigger] pre[b]@ by {
            assert(pre[a] == list[a] && pre[b] == list[b]);
        }
        lemma_cells_of_len(pre);
        let x = list.last()@;
        assert forall|y: int| #[trigger] cells_of(list).contains(y) == cells_of(pre).insert(x).contains(y) by {
            if cells_of(list).contains(y) {
                let k = choose|k: int| 0 <= k < list.len() && #[trigger] list[k]@ == y;
                if k < pre.len() {
                    assert(pre[k]@ == y);
                }
            }
            if cells_of(pre).contains(y) {
                let k = choose|k: int| 0 <= k < pre.len() && #[trigger] pre[k]@ == y;
                assert(list[k]@ == y);
            }
            if y == x {
                assert(list[list.len() - 1]@ == y);
            }
        }
        assert(cells_of(list) =~= cells_of(pre).insert(x));
        if cells_of(pre).contains(x) {
            let k = choose|k: int| 0 <= k < pre.len() && #[trigger] pre[k]@ == x;
            assert(list[k]@ != list[list.len() - 1]@);
        }
    }
}

/// A consistent position with a history of 225 moves has a stone on every cell.
pub proof fn lemma_long_history_full(p: Position)
    requires
        p.consistent(),
        p.moves.len() >= 225,
    ensures
        p.full(),
{
    lemma_cells_of_len(p.moves);
    let occ = p.black + p.white;
    assert forall|m: int| #[trigger] cells_of(p.moves).contains(m) implies occ.contains(m) by {
        let k = choose|k: int| 0 <= k < p.moves.len() && #[trigger] p.moves[k]@ == m;
        assert(p.stones(p.mover_at(k)).contains(p.moves[k]@));
    }
    assert(cells_of(p.moves).subset_of(occ));
    lemma_len_subset(cells_of(p.moves), occ);
    lemma_covers_board(occ);
    assert forall|m: int| 0 <= m < 225 implies #[trigger] p.occupied(m) by {
        assert(occ.contains(m));
    }
}

/// Playing a legal move and taking it back restores the position exactly.
pub proof fn lemma_play_undo(p: Position, mv: Move)
    requires
        p.valid(),
        p.play_error(mv@) is None,
    ensures
        p.after_play(mv).after_undo() == p,
{
    let q = p.after_play(mv).after_undo();
    assert(q.moves =~= p.moves);
    assert(!p.black.contains(mv@) && !p.white.contains(mv@));
    assert(q.black =~= p.black);
    assert(q.white =~= p.white);
}

/// Playing keeps a position consistent.
pub proof fn lemma_play_valid(p: Position, mv: Move)
    requires
        p.valid(),
        p.play_error(mv@) is None,
        0 <= mv@ < 225,
    ensures
        p.after_play(mv).valid(),
{
    let q = p.after_play(mv);
    assert forall|k: int| 0 <= k < q.moves.len() implies q.stones(q.mover_at(k)).contains(
        #[trigger] q.moves[k]@,
    ) by {
        if k < p.moves.len() {
            assert(q.moves[k] == p.moves[k]);
            assert(q.mover_at(k) == p.mover_at(k));
            assert(p.stones(p.mover_at(k)).contains(p.moves[k]@));
        }
    }
    assert forall|a: int, b: int| 0 <= a < b < q.moves.len() implies #[trigger] q.moves[a]@
        != #[trigger] q.moves[b]@ by {
        if b == p.moves.len() {
            assert(p.stones(p.mover_at(a)).contains(p.moves[a]@));
        }
    }
    if q.status == Status::Draw {
        assert(q.black.finite() && q.white.finite());
        lemma_long_history_full(q);
    }
}

/// Taking back a move keeps a position consistent.
pub proof fn lemma_undo_valid(p: Position)
    requires
        p.valid(),
        p.moves.len() > 0,
    ensures
        p.after_undo().valid(),
{
    let q = p.after_undo();
    let n = p.moves.len() - 1;
    assert forall|k: int| 0 <= k < q.moves.len() implies q.stones(q.mover_at(k)).contains(
        #[trigger] q.moves[k]@,
    ) by {
        assert(q.moves[k] == p.moves[k]);
        assert(q.mover_at(k) == p.mover_at(k));
        assert(p.stones(p.mover_at(k)).contains(p.moves[k]@));
        assert(p.moves[k]@ != p.moves[n]@);
    }
    assert forall|a: int, b: int| 0 <= a < b < q.moves.len() implies #[trigger] q.moves[a]@
        != #[trigger] q.moves[b]@ by {
        assert(q.moves[a] == p.moves[a]);
        assert(q.moves[b] == p.moves[b]);
    }
}

/// The production board: two bitboards in absolute colors, side to move,
/// status, the move history, and the incrementally kept Zobrist key.
#[derive(Debug, Clone, PartialEq, Eq)]
pub struct Board {
    black: Bitboard,
    white: Bitboard,
    to_move: Color,
    status: Status,
    moves: Vec<Move>,
    key: u64,
}

impl View for Board {
    type V = Position;

    closed spec fn view(&self) -> Position {
        Position {
            black: self.black.cells(),
            white: self.white.cells(),
            to_move: self.to_move,
            status: self.status,
            moves: self.moves@,
        }
    }
}

impl Board {
    /// The board's internal consistency: clean bitboards, a consistent
    /// position, and a key that is the Zobrist key of that position.
    pub closed spec fn wf(&self) -> bool {
        &&& self.black.clean()
        &&& self.white.clean()
        &&& self@.valid()
        &&& self.key == position_key(self@.black, self@.white, self.to_move)
    }

    /// A well-formed board holds a consistent position.
    pub proof fn lemma_wf_valid(&self)
        requires
            self.wf(),
        ensures
            self@.valid(),
    {
    }

    /// The empty board, Black to move.
    pub fn new() -> (b: Board)
        ensures
            b.wf(),
            b@.black == Set::<int>::empty(),
            b@.white == Set::<int>::empty(),
            b@.to_move == Color::Black,
            b@.status == Status::Ongoing,
            b@.moves == Seq::<Move>::empty(),
            replayed(b@),
    {
        let e = Bitboard::empty();
        let b = Board {
            black: e,
            white: e,
            to_move: Color::Black,
            status: Status::Ongoing,
            moves: Vec::new(),
            key: 0,
        };
        proof {
            assert(e.cells() =~= Set::<int>::empty());
            lemma_stones_key_empty(225);
            assert(0u64 ^ 0u64 == 0u64) by (bit_vector);
            assert(b@ =~= crate::reference::start_position());
        }
        b
    }

    /// A copy of the board.
    pub fn duplicate(&self) -> (b: Board)
        requires
            self.wf(),
        ensures
            b.wf(),
            b@ == self@,
    {
        let mut moves: Vec<Move> = Vec::new();
        let mut k: usize = 0;
        while k < self.moves.len()
            invariant
                k <= self.moves.len(),
                moves@ == self.moves@.subrange(0, k as int),
            decreases self.moves.len() - k,
        {
            moves.push(self.moves[k]);
            k = k + 1;
        }
        proof {
            assert(moves@ =~= self.moves@);
        }
        Board {
            black: self.black,
            white: self.white,
            to_move: self.to_move,
            status: self.status,
            moves: moves,
            key: self.key,
        }
    }

    /// The Zobrist key of the position.
    pub fn zobrist(&self) -> (k: u64)
        requires
            self.wf(),
        ensures
            k == position_key(self@.black, self@.white, self@.to_move),
    {
        self.key
    }

    /// Place a stone of the side to move on `mv`.
    pub fn play(&mut self, mv: Move) -> (r: Result<(), PlayError>)
        requires
            old(self).wf(),
        ensures
            final(self).wf(),
            match old(self)@.play_error(mv@) {
                Some(e) => r == Err::<(), PlayError>(e) && final(self)@ == old(self)@,
                None => r is Ok && final(self)@ == old(self)@.after_play(mv),
            },
            replayed(old(self)@) ==> replayed(final(self)@),
    {
        if self.status != Status::Ongoing {
            return Err(PlayError::GameOver);
        }
        let m = mv.index();
        let i = idx(mv.row(), mv.col());
        proof {
            lemma_stride_index(m as int);
            assert(i == stride_index(m as int));
            self.black.lemma_cells_contains(m as int);
            self.white.lemma_cells_contains(m as int);
        }
        if self.black.bitor(self.white).test(i) {
            return Err(PlayError::Occupied);
        }
        let ghost old_view = self@;
        let ghost old_key = self.key;
        let c = self.to_move;
        let stones = match c {
            Color::Black => self.black.with_bit(i),
            Color::White => self.white.with_bit(i),
        };
        proof {
            match c {
                Color::Black => self.black.lemma_cells_insert(stones, m as int),
                Color::White => self.white.lemma_cells_insert(stones, m as int),
            }
        }
        match c {
            Color::Black => self.black = stones,
            Color::White => self.white = stones,
        }
        self.moves.push(mv);
        if has_any_five(&stones) {
            self.status = Status::Won(c);
        } else if self.moves.len() == 225 {
            self.status = Status::Draw;
        }
        let k = key_for(c, m);
        let w = white_to_move();
        self.key = self.key ^ k;
        self.key = self.key ^ w;
        self.to_move = c.other();
        proof {
            assert(self@ =~= old_view.after_play(mv));
            lemma_play_valid(old_view, mv);
            let nb = self@.black;
            let nw = self@.white;
            lemma_stones_key_toggle(old_view.black, old_view.white, nb, nw, c, m as int, 225);
            let sk = stones_key(old_view.black, old_view.white, 225);
            let wk = white_to_move_key();
            let ck = cell_key(c, m as int);
            assert(((sk ^ 0u64) ^ ck) ^ wk == (sk ^ ck) ^ wk) by (bit_vector);
            assert(((sk ^ wk) ^ ck) ^ wk == (sk ^ ck) ^ 0u64) by (bit_vector);
            if replayed(old_view) {
                lemma_replayed_play(old_view, mv);
            }
        }
        Ok(())
    }

    pub fn status(&self) -> (s: Status)
        ensures
            s == self@.status,
    {
        self.status
    }

    pub fn to_move(&self) -> (c: Color)
        ensures
            c == self@.to_move,
    {
        self.to_move
    }

    /// The moves played on this board, oldest first.
    pub fn moves(&self) -> (ms: &[Move])
        ensures
            ms@ == self@.moves,
    {
        self.moves.as_slice()
    }

    /// The game is ongoing and the cell is empty.
    pub fn is_legal(&self, mv: Move) -> (b: bool)
        requires
            self.wf(),
        ensures
            b == (self@.play_error(mv@) is None),
    {
        let m = mv.index();
        let i = idx(mv.row(), mv.col());
        proof {
            lemma_stride_index(m as int);
            assert(i == stride_index(m as int));
            self.black.lemma_cells_contains(m as int);
            self.white.lemma_cells_contains(m as int);
        }
        self.status == Status::Ongoing && !self.black.bitor(self.white).test(i)
    }

    /// Take back the last move. The game is ongoing afterwards.
    pub fn undo(&mut self)
        requires
            old(self).wf(),
            old(self)@.moves.len() > 0,
        ensures
            final(self).wf(),
            final(self)@ == old(self)@.after_undo(),
            replayed(old(self)@) ==> replayed(final(self)@),
    {
        let ghost old_view = self@;
        let mv = self.moves.pop().unwrap();
        let m = mv.index();
        let i = idx(mv.row(), mv.col());
        let c = self.to_move.other();
        proof {
            lemma_stride_index(m as int);
            assert(mv == old_view.moves.last());
            assert(old_view.mover_at(old_view.moves.len() - 1) == c);
        }
        let stones = match c {
            Color::Black => self.black.without_bit(i),
            Color::White => self.white.without_bit(i),
        };
        proof {
            match c {
                Color::Black => self.black.lemma_cells_remove(stones, m as int),
                Color::White => self.white.lemma_cells_remove(stones, m as int),
            }
        }
        match c {
            Color::Black => self.black = stones,
            Color::White => self.white = stones,
        }
        let k = key_for(c, m);
        let w = white_to_move();
        self.key = self.key ^ k;
        self.key = self.key ^ w;
        self.to_move = c;
        self.status = Status::Ongoing;
        proof {
            if replayed(old_view) {
                lemma_replayed_undo(old_view);
            }
            assert(self@ =~= old_view.after_undo());
            lemma_undo_valid(old_view);
            let nb = self@.black;
            let nw = self@.white;
            lemma_stones_key_toggle(nb, nw, old_view.black, old_view.white, c, m as int, 225);
            let sk = stones_key(nb, nw, 225);
            let wk = white_to_move_key();
            let ck = cell_key(c, m as int);
            assert((((sk ^ ck) ^ 0u64) ^ ck) ^ wk == sk ^ wk) by (bit_vector);
            assert((((sk ^ ck) ^ wk) ^ ck) ^ wk == sk ^ 0u64) by (bit_vector);
        }
    }

    /// The empty cells in row-major order.
    pub fn empty_moves(&self) -> (v: Vec<Move>)
        requires
            self.wf(),
        ensures
            forall|k: int| 0 <= k < v.len() ==> !self@.occupied(#[trigger] v[k]@),
            forall|m: int|
                0 <= m < 225 && !self@.occupied(m) ==> exists|k: int|
                    0 <= k < v.len() && #[trigger] v[k]@ == m,
            forall|a: int, b: int| 0 <= a < b < v.len() ==> v[a]@ < v[b]@,
            v.len() == 225 - (self@.black.len() + self@.white.len()),
    {
        let empty = self.black.bitor(self.white).not().bitand(valid());
        let mut v: Vec<Move> = Vec::new();
        let mut m: usize = 0;
        while m < 225
            invariant
                m <= 225,
                forall|i: int| 0 <= i < 225 ==> #[trigger] empty.bit(stride_index(i)) == !self@.occupied(i),
                forall|k: int| 0 <= k < v.len() ==> !self@.occupied(#[trigger] v[k]@) && 0 <= v[k]@ < m,
                forall|j: int|
                    0 <= j < m && !self@.occupied(j) ==> exists|k: int|
                        0 <= k < v.len() && #[trigger] v[k]@ == j,
                forall|a: int, b: int| 0 <= a < b < v.len() ==> v[a]@ < v[b]@,
            decreases 225 - m,
        {
            proof {
                lemma_stride_index(m as int);
            }
            let ghost old_v = v@;
            if empty.test(idx((m / 15) as u8, (m % 15) as u8)) {
                v.push(Move::from_index(m));
                proof {
                    assert forall|j: int|
                        0 <= j < m + 1 && !self@.occupied(j) implies exists|k: int|
                        0 <= k < v.len() && #[trigger] v[k]@ == j by {
                        if j == m {
                            assert(v[v.len() - 1]@ == j);
                        } else {
                            let k = choose|k: int| 0 <= k < old_v.len() && #[trigger] old_v[k]@ == j;
                            assert(v[k]@ == j);
                        }
                    }
                }
            }
            m = m + 1;
        }
        proof {
            let p = self@;
            let free = Set::new(|i: int| 0 <= i < 225 && !p.occupied(i));
            crate::moveset::lemma_listing_len(v@, free);
            lemma_empties_len(p);
        }
        v
    }

    /// The stones of one color.
    pub fn stones(&self, color: Color) -> (b: Bitboard)
        requires
            self.wf(),
        ensures
            b.clean(),
            b.cells() == self@.stones(color),
    {
        match color {
            Color::Black => self.black,
            Color::White => self.white,
        }
    }

    /// The stone on `mv`, if any.
    pub fn stone_at(&self, mv: Move) -> (s: Option<Color>)
        requires
            self.wf(),
        ensures
            s == (if self@.black.contains(mv@) {
                Some(Color::Black)
            } else if self@.white.contains(mv@) {
                Some(Color::White)
            } else {
                None
            }),
    {
        let m = mv.index();
        let i = idx(mv.row(), mv.col());
        proof {
            lemma_stride_index(m as int);
            self.black.lemma_cells_contains(m as int);
            self.white.lemma_cells_contains(m as int);
        }
        if self.black.test(i) {
            Some(Color::Black)
        } else if self.white.test(i) {
            Some(Color::White)
        } else {
            None
        }
    }
}

/// Why `from_position` rejects a setup, if it does.
pub open spec fn position_error(black: Set<int>, white: Set<int>, to_move: Color) -> Option<
    PositionError,
> {
    if exists|m: int| #[trigger] black.contains(m) && white.contains(m) {
        Some(PositionError::OverlappingColors)
    } else if black.len() > white.len() + 1 || white.len() > black.len() + 1 || to_move
        != mover_for_counts(black.len(), white.len()) {
        Some(PositionError::InvalidCounts)
    } else {
        None
    }
}

/// A bitboard with a stone on every cell of `list`.
pub fn bitboard_of(list: &[Move]) -> (b: Bitboard)
    ensures
        b.clean(),
        b.cells() == cells_of(list@),
{
    let mut b = Bitboard::empty();
    proof {
        assert(b.cells() =~= cells_of(list@.subrange(0, 0)));
    }
    let mut k: usize = 0;
    while k < list.len()
        invariant
            k <= list.len(),
            b.clean(),
            b.cells() == cells_of(list@.subrange(0, k as int)),
        decreases list.len() - k,
    {
        let mv = list[k];
        let m = mv.index();
        proof {
            lemma_stride_index(m as int);
        }
        let next = b.with_bit(idx(mv.row(), mv.col()));
        proof {
            b.lemma_cells_insert(next, m as int);
            let pre = list@.subrange(0, k as int);
            let post = list@.subrange(0, k + 1);
            assert forall|x: int| #[trigger] cells_of(post).contains(x) == cells_of(pre).insert(m as int).contains(x) by {
                if cells_of(post).contains(x) {
                    let j = choose|j: int| 0 <= j < post.len() && #[trigger] post[j]@ == x;
                    if j < k {
                        assert(pre[j]@ == x);
                    }
                }
                if cells_of(pre).contains(x) {
                    let j = choose|j: int| 0 <= j < pre.len() && #[trigger] pre[j]@ == x;
                    assert(post[j]@ == x);
                }
                if x == m {
                    assert(post[k as int]@ == x);
                }
            }
            assert(cells_of(post) =~= cells_of(pre).insert(m as int));
        }
        b = next;
        k = k + 1;
    }
    proof {
        assert(list@.subrange(0, list.len() as int) =~= list@);
    }
    b
}

/// The Zobrist key of a position given by its two bitboards.
pub fn compute_key(black: &Bitboard, white: &Bitboard, to_move: Color) -> (k: u64)
    ensures
        k == position_key(black.cells(), white.cells(), to_move),
{
    let mut key: u64 = 0;
    let mut m: usize = 0;
    while m < 225
        invariant
            m <= 225,
            key == stones_key(black.cells(), white.cells(), m as int),
        decreases 225 - m,
    {
        proof {
            lemma_stride_index(m as int);
            black.lemma_cells_contains(m as int);
            white.lemma_cells_contains(m as int);
        }
        let i = idx((m / 15) as u8, (m % 15) as u8);
        let bk = if black.test(i) {
            key_for(Color::Black, m)
        } else {
            0
        };
        let wk = if white.test(i) {
            key_for(Color::White, m)
        } else {
            0
        };
        key = key ^ bk ^ wk;
        m = m + 1;
    }
    match to_move {
        Color::White => key ^ white_to_move(),
        Color::Black => key ^ 0,
    }
}

impl Board {
    /// Build a board from an arbitrary position: the colors must not
    /// overlap, the stone counts must differ by at most one, and `to_move`
    /// must be the color with fewer-or-equal stones (Black on a tie). The
    /// history of the new board is empty.
    pub fn from_position(black: &[Move], white: &[Move], to_move: Color) -> (r: Result<
        Board,
        PositionError,
    >)
        ensures
            match position_error(cells_of(black@), cells_of(white@), to_move) {
                Some(e) => r == Err::<Board, PositionError>(e),
                None => r matches Ok(b) && b.wf() && b@ == (Position {
                    black: cells_of(black@),
                    white: cells_of(white@),
                    to_move: to_move,
                    status: status_of(cells_of(black@), cells_of(white@)),
                    moves: Seq::<Move>::empty(),
                }),
            },
    {
        let bb_black = bitboard_of(black);
        let bb_white = bitboard_of(white);
        let both = bb_black.bitand(bb_white);
        let ghost bs = cells_of(black@);
        let ghost ws = cells_of(white@);
        proof {
            if exists|m: int| #[trigger] bs.contains(m) && ws.contains(m) {
                let m = choose|m: int| #[trigger] bs.contains(m) && ws.contains(m);
                bb_black.lemma_cells_contains(m);
                bb_white.lemma_cells_contains(m);
                assert(both.bit(stride_index(m)));
            } else {
                assert forall|i: int| !#[trigger] both.bit(i) by {
                    if both.bit(i) {
                        bb_black.lemma_clean_bits(i);
                        bb_white.lemma_clean_bits(i);
                        let m = 15 * (i / 16) + i % 16;
                        assert(bs.contains(m) && ws.contains(m));
                    }
                }
            }
        }
        if !both.is_zero() {
            return Err(PositionError::OverlappingColors);
        }
        let black_count = bb_black.count();
        let white_count = bb_white.count();
        if black_count > white_count + 1 || white_count > black_count + 1 {
            return Err(PositionError::InvalidCounts);
        }
        let expected_to_move = if white_count < black_count {
            Color::White
        } else {
            Color::Black
        };
        if to_move != expected_to_move {
            return Err(PositionError::InvalidCounts);
        }
        let key = compute_key(&bb_black, &bb_white, to_move);
        let status = if has_any_five(&bb_black) {
            Status::Won(Color::Black)
        } else if has_any_five(&bb_white) {
            Status::Won(Color::White)
        } else if black_count + white_count == 225 {
            Status::Draw
        } else {
            Status::Ongoing
        };
        let b = Board {
            black: bb_black,
            white: bb_white,
            to_move: to_move,
            status: status,
            moves: Vec::new(),
            key: key,
        };
        proof {
            bb_black.lemma_cells_finite();
            bb_white.lemma_cells_finite();
            assert(b@.moves =~= Seq::<Move>::empty());
            if status == Status::Draw {
                assert(bs.disjoint(ws));
                lemma_set_disjoint_lens(bs, ws);
                let occ = bs + ws;
                lemma_covers_board(occ);
                assert forall|m: int| 0 <= m < 225 implies #[trigger] b@.occupied(m) by {
                    assert(occ.contains(m));
                }
            }
        }
        Ok(b)
    }
}

impl Default for Board {
    fn default() -> (b: Board)
        ensures
            b.wf(),
            b@.black == Set::<int>::empty(),
            b@.white == Set::<int>::empty(),
            b@.to_move == Color::Black,
            b@.status == Status::Ongoing,
            b@.moves == Seq::<Move>::empty(),
    {
        Board::new()
    }
}

/// The stone key of the empty board is zero.
pub proof fn lemma_stones_key_empty(n: int)
    ensures
        stones_key(Set::<int>::empty(), Set::<int>::empty(), n) == 0u64,
    decreases n,
{
    if n > 0 {
        lemma_stones_key_empty(n - 1);
        assert((0u64 ^ 0u64) ^ 0u64 == 0u64) by (bit_vector);
    }
}

} // verus!
