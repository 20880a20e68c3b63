//! The front end's view of a board: one trait over the naive board, the
//! bitboard engine and the puzzle board with its redo stack.
use vstd::prelude::*;
use crate::board::{Board, Color, PlayError, Position, Status};
use crate::moveset::Move;
use crate::puzzle::{Puzzle, puzzle_setup};
use crate::reference;

verus! {

/// Everything the front end needs from a board.
///
/// `pos` is the position on the board, `redo_moves` the moves that `redo`
/// would replay (last one first), `keeps_redo` whether `undo` files the
/// move it takes back there, `fast` whether the bitboard engine is
/// underneath, and `undo_floored` whether `undo` on an empty history is a
/// no-op rather than a caller error.
pub trait GameBoard {
    spec fn pos(&self) -> Position;

    spec fn inv(&self) -> bool;

    spec fn redo_moves(&self) -> Seq<Move>;

    spec fn keeps_redo(&self) -> bool;

    spec fn fast(&self) -> bool;

    spec fn undo_floored(&self) -> bool;

    spec fn engine_name(&self) -> Seq<char>;

    /// Place a stone of the side to move; a new move forgets the redo stack.
    fn play(&mut self, mv: Move) -> (r: Result<(), PlayError>)
        requires
            old(self).inv(),
        ensures
            final(self).inv(),
            final(self).fast() == old(self).fast(),
            final(self).undo_floored() == old(self).undo_floored(),
            final(self).engine_name() == old(self).engine_name(),
            match old(self).pos().play_error(mv@) {
                Some(e) => r == Err::<(), PlayError>(e) && final(self).pos() == old(self).pos()
                    && final(self).redo_moves() == old(self).redo_moves(),
                None => r is Ok && final(self).pos() == old(self).pos().after_play(mv)
                    && final(self).redo_moves() == Seq::<Move>::empty(),
            },
    ;

    /// Take back the last move; on an empty history only boards with an
    /// undo floor accept the call, and leave the position as it is.
    fn undo(&mut self)
        requires
            old(self).inv(),
            old(self).pos().moves.len() > 0 || old(self).undo_floored(),
        ensures
            final(self).inv(),
            final(self).fast() == old(self).fast(),
            final(self).undo_floored() == old(self).undo_floored(),
            final(self).engine_name() == old(self).engine_name(),
            old(self).pos().moves.len() > 0 ==> final(self).pos() == old(self).pos().after_undo()
                && final(self).redo_moves() == if old(self).keeps_redo() {
                    old(self).redo_moves().push(old(self).pos().moves.last())
                } else {
                    old(self).redo_moves()
                },
            old(self).pos().moves.len() == 0 ==> final(self).pos() == old(self).pos()
                && final(self).redo_moves() == old(self).redo_moves(),
    ;

    fn status(&self) -> (s: Status)
        requires
            self.inv(),
        ensures
            s == self.pos().status,
    ;

    fn to_move(&self) -> (c: Color)
        requires
            self.inv(),
        ensures
            c == self.pos().to_move,
    ;

    fn stone_at(&self, mv: Move) -> (s: Option<Color>)
        requires
            self.inv(),
        ensures
            s == (if self.pos().black.contains(mv@) {
                Some(Color::Black)
            } else if self.pos().white.contains(mv@) {
                Some(Color::White)
            } else {
                None
            }),
    ;

    fn moves(&self) -> (ms: &[Move])
        requires
            self.inv(),
        ensures
            ms@ == self.pos().moves,
    ;

    fn name(&self) -> (n: &'static str)
        ensures
            n@ == self.engine_name(),
    ;

    /// The bitboard engine underneath, if there is one.
    fn engine_board(&self) -> (b: Option<&Board>)
        requires
            self.inv(),
        ensures
            b is Some <==> self.fast(),
            b matches Some(e) ==> e.wf() && e@ == self.pos(),
    ;

    /// Replay the last undone move, if any; a move that no longer fits is
    /// dropped.
    fn redo(&mut self)
        requires
            old(self).inv(),
        ensures
            final(self).inv(),
            final(self).fast() == old(self).fast(),
            final(self).undo_floored() == old(self).undo_floored(),
            final(self).engine_name() == old(self).engine_name(),
            old(self).redo_moves().len() == 0 ==> final(self).pos() == old(self).pos()
                && final(self).redo_moves() == old(self).redo_moves(),
            old(self).redo_moves().len() > 0 ==> {
                let mv = old(self).redo_moves().last();
                &&& final(self).redo_moves() == old(self).redo_moves().drop_last()
                &&& final(self).pos() == if old(self).pos().play_error(mv@) is None {
                    old(self).pos().after_play(mv)
                } else {
                    old(self).pos()
                }
            },
    ;

    /// There is a move to redo.
    fn can_redo(&self) -> (b: bool)
        requires
            self.inv(),
        ensures
            b == (self.redo_moves().len() > 0),
    ;
}

/// The naive line-walking board.
pub struct NaiveBoard(reference::Board);

impl GameBoard for NaiveBoard {
    closed spec fn pos(&self) -> Position {
        self.0@
    }

    closed spec fn inv(&self) -> bool {
        self.0.wf()
    }

    open spec fn redo_moves(&self) -> Seq<Move> {
        Seq::empty()
    }

    open spec fn keeps_redo(&self) -> bool {
        false
    }

    open spec fn fast(&self) -> bool {
        false
    }

    open spec fn undo_floored(&self) -> bool {
        false
    }

    open spec fn engine_name(&self) -> Seq<char> {
        "naive"@
    }

    fn play(&mut self, mv: Move) -> (r: Result<(), PlayError>) {
        self.0.play(mv)
    }

    fn undo(&mut self) {
        self.0.undo()
    }

    fn status(&self) -> (s: Status) {
        self.0.status()
    }

    fn to_move(&self) -> (c: Color) {
        self.0.to_move()
    }

    fn stone_at(&self, mv: Move) -> (s: Option<Color>) {
        self.0.stone_at(mv)
    }

    fn moves(&self) -> (ms: &[Move]) {
        self.0.moves()
    }

    fn name(&self) -> (n: &'static str) {
        "naive"
    }

    fn engine_board(&self) -> (b: Option<&Board>) {
        None
    }

    fn redo(&mut self) {
    }

    fn can_redo(&self) -> (b: bool) {
        false
    }
}

/// The production bitboard engine.
pub struct FastBoard(Board);

impl FastBoard {
    /// Wrap an engine board for the front end.
    pub fn new(board: Board) -> (b: FastBoard)
        requires
            board.wf(),
        ensures
            b.inv(),
            b.pos() == board@,
    {
        FastBoard(board)
    }
}

impl GameBoard for FastBoard {
    closed spec fn pos(&self) -> Position {
        self.0@
    }

    closed spec fn inv(&self) -> bool {
        self.0.wf()
    }

    open spec fn redo_moves(&self) -> Seq<Move> {
        Seq::empty()
    }

    open spec fn keeps_redo(&self) -> bool {
        false
    }

    open spec fn fast(&self) -> bool {
        true
    }

    open spec fn undo_floored(&self) -> bool {
        false
    }

    open spec fn engine_name(&self) -> Seq<char> {
        "fast"@
    }

    fn play(&mut self, mv: Move) -> (r: Result<(), PlayError>) {
        self.0.play(mv)
    }

    fn undo(&mut self) {
        self.0.undo()
    }

    fn status(&self) -> (s: Status) {
        self.0.status()
    }

    fn to_move(&self) -> (c: Color) {
        self.0.to_move()
    }

    fn stone_at(&self, mv: Move) -> (s: Option<Color>) {
        self.0.stone_at(mv)
    }

    fn moves(&self) -> (ms: &[Move]) {
        self.0.moves()
    }

    fn name(&self) -> (n: &'static str) {
        "fast"
    }

    fn engine_board(&self) -> (b: Option<&Board>) {
        Some(&self.0)
    }

    fn redo(&mut self) {
    }

    fn can_redo(&self) -> (b: bool) {
        false
    }
}

/// Which engine a new game runs on.
#[derive(Debug, Clone, Copy, PartialEq, Eq, Structural)]
pub enum EngineKind {
    Naive,
    Fast,
}

/// A board of either engine, chosen at run time.
pub enum AnyBoard {
    Naive(NaiveBoard),
    Fast(FastBoard),
}

impl GameBoard for AnyBoard {
    open spec fn pos(&self) -> Position {
        match self {
            AnyBoard::Naive(b) => b.pos(),
            AnyBoard::Fast(b) => b.pos(),
        }
    }

    open spec fn inv(&self) -> bool {
        match self {
            AnyBoard::Naive(b) => b.inv(),
            AnyBoard::Fast(b) => b.inv(),
        }
    }

    open spec fn redo_moves(&self) -> Seq<Move> {
        Seq::empty()
    }

    open spec fn keeps_redo(&self) -> bool {
        false
    }

    open spec fn fast(&self) -> bool {
        self is Fast
    }

    open spec fn undo_floored(&self) -> bool {
        false
    }

    open spec fn engine_name(&self) -> Seq<char> {
        match self {
            AnyBoard::Naive(b) => b.engine_name(),
            AnyBoard::Fast(b) => b.engine_name(),
        }
    }

    fn play(&mut self, mv: Move) -> (r: Result<(), PlayError>) {
        match self {
            AnyBoard::Naive(b) => b.play(mv),
            AnyBoard::Fast(b) => b.play(mv),
        }
    }

    fn undo(&mut self) {
        match self {
            AnyBoard::Naive(b) => b.undo(),
            AnyBoard::Fast(b) => b.undo(),
        }
    }

    fn status(&self) -> (s: Status) {
        match self {
            AnyBoard::Naive(b) => b.status(),
            AnyBoard::Fast(b) => b.status(),
        }
    }

    fn to_move(&self) -> (c: Color) {
        match self {
            AnyBoard::Naive(b) => b.to_move(),
            AnyBoard::Fast(b) => b.to_move(),
        }
    }

    fn stone_at(&self, mv: Move) -> (s: Option<Color>) {
        match self {
            AnyBoard::Naive(b) => b.stone_at(mv),
            AnyBoard::Fast(b) => b.stone_at(mv),
        }
    }

    fn moves(&self) -> (ms: &[Move]) {
        match self {
            AnyBoard::Naive(b) => b.moves(),
            AnyBoard::Fast(b) => b.moves(),
        }
    }

    fn name(&self) -> (n: &'static str) {
        match self {
            AnyBoard::Naive(b) => b.name(),
            AnyBoard::Fast(b) => b.name(),
        }
    }

    fn engine_board(&self) -> (b: Option<&Board>) {
        match self {
            AnyBoard::Naive(b) => b.engine_board(),
            AnyBoard::Fast(b) => b.engine_board(),
        }
    }

    fn redo(&mut self) {
    }

    fn can_redo(&self) -> (b: bool) {
        false
    }
}

/// A fresh empty board of the chosen engine, Black to move.
pub fn board_for(kind: EngineKind) -> (b: AnyBoard)
    ensures
        b.inv(),
        b.pos() == reference::start_position(),
        b.fast() == (kind == EngineKind::Fast),
        b.engine_name() == match kind {
            EngineKind::Naive => "naive"@,
            EngineKind::Fast => "fast"@,
        },
{
    match kind {
        EngineKind::Naive => AnyBoard::Naive(NaiveBoard(reference::Board::new())),
        EngineKind::Fast => {
            let b = Board::new();
            proof {
                assert(b@ =~= reference::start_position());
            }
            AnyBoard::Fast(FastBoard(b))
        },
    }
}

/// The position reached by playing `moves` on `base`.
pub open spec fn replay_on(base: Position, moves: Seq<Move>) -> Position
    decreases moves.len(),
{
    if moves.len() == 0 {
        base
    } else {
        replay_on(base, moves.drop_last()).after_play(moves.last())
    }
}

/// Every move of `moves` is legal where it is played on `base`.
pub open spec fn legal_on(base: Position, moves: Seq<Move>) -> bool
    decreases moves.len(),
{
    moves.len() == 0 || (legal_on(base, moves.drop_last()) && 0 <= moves.last()@ < 225 && replay_on(
        base,
        moves.drop_last(),
    ).play_error(moves.last()@) is None)
}

/// Playing legal moves on a consistent position keeps it consistent.
proof fn lemma_replay_on_valid(base: Position, moves: Seq<Move>)
    requires
        base.valid(),
        legal_on(base, moves),
    ensures
        replay_on(base, moves).valid(),
    decreases moves.len(),
{
    if moves.len() > 0 {
        lemma_replay_on_valid(base, moves.drop_last());
        crate::board::lemma_play_valid(replay_on(base, moves.drop_last()), moves.last());
    }
}

/// A board that starts from a puzzle's position and keeps a redo stack of
/// the moves undone since.
pub struct PuzzleBoard {
    board: Board,
    redo: Vec<Move>,
    /// The puzzle's position, which the history is played on.
    base: Ghost<Position>,
}

impl PuzzleBoard {
    /// A board on the puzzle's position with an empty history; the puzzle
    /// must form a valid position.
    pub fn new(puzzle: &Puzzle) -> (b: PuzzleBoard)
        requires
            puzzle.valid_setup(),
        ensures
            b.inv(),
            b.pos() == puzzle_setup(puzzle),
            b.redo_moves() == Seq::<Move>::empty(),
    {
        let r = Board::from_position(puzzle.black.as_slice(), puzzle.white.as_slice(), puzzle.to_move);
        match r {
            Ok(board) => {
                let ghost base = board@;
                proof {
                    board.lemma_wf_valid();
                }
                PuzzleBoard { board, redo: Vec::new(), base: Ghost(base) }
            },
            Err(_) => {
                proof {
                    assert(false);
                }
                let board = Board::new();
                let ghost base = board@;
                proof {
                    board.lemma_wf_valid();
                }
                PuzzleBoard { board, redo: Vec::new(), base: Ghost(base) }
            },
        }
    }
}

impl GameBoard for PuzzleBoard {
    closed spec fn pos(&self) -> Position {
        self.board@
    }

    closed spec fn inv(&self) -> bool {
        &&& self.board.wf()
        &&& self.base@.valid()
        &&& legal_on(self.base@, self.board@.moves)
        &&& self.board@ == replay_on(self.base@, self.board@.moves)
    }

    closed spec fn redo_moves(&self) -> Seq<Move> {
        self.redo@
    }

    open spec fn keeps_redo(&self) -> bool {
        true
    }

    open spec fn fast(&self) -> bool {
        true
    }

    open spec fn undo_floored(&self) -> bool {
        true
    }

    open spec fn engine_name(&self) -> Seq<char> {
        "fast"@
    }

    fn play(&mut self, mv: Move) -> (r: Result<(), PlayError>) {
        let ghost q = self.board@;
        let _ = mv.index();
        let r = self.board.play(mv);
        match r {
            Ok(()) => {
                proof {
                    assert(q.moves.push(mv).drop_last() =~= q.moves);
                }
                self.redo.clear();
                Ok(())
            },
            Err(e) => Err(e),
        }
    }

    /// Taking a move back keeps it for `redo`, which then restores the
    /// position as it was.
    fn undo(&mut self)
        ensures
            old(self).pos().moves.len() > 0 ==> redone(final(self).pos(), old(self).pos().moves.last())
                == old(self).pos(),
    {
        let n = self.board.moves().len();
        if n == 0 {
            return ;
        }
        let ghost q = self.board@;
        let mv = self.board.moves()[n - 1];
        proof {
            let pre = q.moves.drop_last();
            lemma_replay_on_valid(self.base@, pre);
            crate::board::lemma_play_undo(replay_on(self.base@, pre), mv);
        }
        self.board.undo();
        self.redo.push(mv);
    }

    fn status(&self) -> (s: Status) {
        self.board.status()
    }

    fn to_move(&self) -> (c: Color) {
        self.board.to_move()
    }

    fn stone_at(&self, mv: Move) -> (s: Option<Color>) {
        self.board.stone_at(mv)
    }

    fn moves(&self) -> (ms: &[Move]) {
        self.board.moves()
    }

    fn name(&self) -> (n: &'static str) {
        "fast"
    }

    fn engine_board(&self) -> (b: Option<&Board>) {
        Some(&self.board)
    }

    fn redo(&mut self) {
        match self.redo.pop() {
            Some(mv) => {
                let ghost q = self.board@;
                let _ = mv.index();
                let _ = self.board.play(mv);
                proof {
                    assert(q.moves.push(mv).drop_last() =~= q.moves);
                }
            },
            None => {},
        }
    }

    fn can_redo(&self) -> (b: bool) {
        self.redo.len() > 0
    }
}


/// The position after replaying `mv`, which is dropped if it no longer fits.
pub open spec fn redone(p: Position, mv: Move) -> Position {
    if p.play_error(mv@) is None {
        p.after_play(mv)
    } else {
        p
    }
}

/// Undo followed by redo gives back the position after the move.
pub proof fn lemma_undo_redo(q: Position, mv: Move)
    requires
        q.valid(),
        q.play_error(mv@) is None,
    ensures
        q.after_play(mv).after_undo() == q,
        redone(q.after_play(mv).after_undo(), mv) == q.after_play(mv),
{
    crate::board::lemma_play_undo(q, mv);
}

} // verus!
