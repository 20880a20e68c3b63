//! Puzzle positions and the `vcf-material-v1` item rules: attacker names,
//! coordinate checks, duplicate and overlap checks, the turn-count
//! invariant and the claimed solution line.
//!
//! The file format is JSON; decoding the JSON into `VcfItem`s happens in
//! the front end. Coordinates in the file are `[x, y]` = `[col, row]`.
use vstd::prelude::*;
use crate::board::{Color, Position, Status, cells_of, position_error, status_of};
use crate::moveset::{Move, MoveSet};
use vstd::string::StrSliceExecFns;
use crate::text::{decimal, decimal_string, push_string, text, trim_text, trimmed};

verus! {

/// One puzzle position, independent of any file format.
#[derive(Debug, Clone, PartialEq, Eq)]
pub struct Puzzle {
    /// Display name, e.g. "vcf-material #42".
    pub name: String,
    /// Black stones in the starting position.
    pub black: Vec<Move>,
    /// White stones in the starting position.
    pub white: Vec<Move>,
    /// Side to move (the attacker).
    pub to_move: Color,
    /// Claimed forced-win line, if the format provides one.
    pub solution: Option<Vec<Move>>,
    /// Claimed line depth, if the format provides one.
    pub depth: Option<u32>,
}

impl Puzzle {
    /// The stones and side to move form a position a board can be built on.
    pub open spec fn valid_setup(&self) -> bool {
        position_error(cells_of(self.black@), cells_of(self.white@), self.to_move) is None
    }
}

/// The starting position of a puzzle: its stones, its side to move and an
/// empty history.
pub open spec fn puzzle_setup(p: &Puzzle) -> Position {
    Position {
        black: cells_of(p.black@),
        white: cells_of(p.white@),
        to_move: p.to_move,
        status: status_of(cells_of(p.black@), cells_of(p.white@)),
        moves: Seq::<Move>::empty(),
    }
}

/// One item of a `vcf-material-v1` file as decoded from JSON: index `i`,
/// attacker `a` ("black" or "white"), claimed depth `d`, black and white
/// stones as `[x, y]` and the claimed line as `[x, y, side]` (side 1 is
/// Black, 2 is White).
#[derive(Debug, Clone)]
pub struct VcfItem {
    pub i: u32,
    pub a: String,
    pub d: Option<u32>,
    pub black: Vec<[u8; 2]>,
    pub white: Vec<[u8; 2]>,
    pub line: Vec<[u8; 3]>,
}

/// Everything the item and file rules can reject.
#[derive(Debug, Clone, PartialEq, Eq)]
pub enum PuzzleError {
    /// The sidecar named a parser that is not registered.
    UnknownParser { path: String, identifier: String },
    /// A coordinate is outside the 15x15 board.
    InvalidCoord { item: u32, row: u8, col: u8 },
    /// The same cell appears twice in one color's stone list.
    DuplicateStone { item: u32, row: u8, col: u8 },
    /// A cell appears in both Black's and White's stone lists.
    OverlappingColors { item: u32 },
    /// Stone counts violate the turn invariant for the attacker.
    InvalidCounts { item: u32, black: usize, white: usize, attacker: Color },
    /// The top-level `count` field does not match the number of items.
    CountMismatch { declared: usize, actual: usize },
    /// The attacker field is not "black" or "white".
    InvalidAttacker { item: u32, value: String },
    /// The claimed line does not start with the attacker.
    InvalidSolutionSide { item: u32, expected: Color, found: u8 },
}

/// A `PuzzleError` with its texts as character sequences.
pub enum PuzzleFault {
    UnknownParser { path: Seq<char>, identifier: Seq<char> },
    InvalidCoord { item: u32, row: u8, col: u8 },
    DuplicateStone { item: u32, row: u8, col: u8 },
    OverlappingColors { item: u32 },
    InvalidCounts { item: u32, black: usize, white: usize, attacker: Color },
    CountMismatch { declared: usize, actual: usize },
    InvalidAttacker { item: u32, value: Seq<char> },
    InvalidSolutionSide { item: u32, expected: Color, found: u8 },
}

impl View for PuzzleError {
    type V = PuzzleFault;

    open spec fn view(&self) -> PuzzleFault {
        match self {
            PuzzleError::UnknownParser { path, identifier } => PuzzleFault::UnknownParser {
                path: path@,
                identifier: identifier@,
            },
            PuzzleError::InvalidCoord { item, row, col } => PuzzleFault::InvalidCoord {
                item: *item,
                row: *row,
                col: *col,
            },
            PuzzleError::DuplicateStone { item, row, col } => PuzzleFault::DuplicateStone {
                item: *item,
                row: *row,
                col: *col,
            },
            PuzzleError::OverlappingColors { item } => PuzzleFault::OverlappingColors { item: *item },
            PuzzleError::InvalidCounts { item, black, white, attacker } => PuzzleFault::InvalidCounts {
                item: *item,
                black: *black,
                white: *white,
                attacker: *attacker,
            },
            PuzzleError::CountMismatch { declared, actual } => PuzzleFault::CountMismatch {
                declared: *declared,
                actual: *actual,
            },
            PuzzleError::InvalidAttacker { item, value } => PuzzleFault::InvalidAttacker {
                item: *item,
                value: value@,
            },
            PuzzleError::InvalidSolutionSide { item, expected, found } => PuzzleFault::InvalidSolutionSide {
                item: *item,
                expected: *expected,
                found: *found,
            },
        }
    }
}

/// The attacker a file names: "black" or "white".
pub open spec fn attacker_of(a: Seq<char>) -> Option<Color> {
    if a == "black"@ {
        Some(Color::Black)
    } else if a == "white"@ {
        Some(Color::White)
    } else {
        None
    }
}

/// `[x, y]` lies on the board.
pub open spec fn on_board_xy(x: u8, y: u8) -> bool {
    x < 15 && y < 15
}

/// The first coordinate of a stone list that lies off the board.
pub open spec fn first_off_board(c: Seq<[u8; 2]>) -> Option<int>
    decreases c.len(),
{
    if c.len() == 0 {
        None
    } else {
        match first_off_board(c.drop_last()) {
            Some(k) => Some(k),
            None => if on_board_xy(c.last()[0], c.last()[1]) {
                None
            } else {
                Some(c.len() - 1)
            },
        }
    }
}

/// The first entry of a claimed line that lies off the board.
pub open spec fn first_off_board_line(c: Seq<[u8; 3]>) -> Option<int>
    decreases c.len(),
{
    if c.len() == 0 {
        None
    } else {
        match first_off_board_line(c.drop_last()) {
            Some(k) => Some(k),
            None => if on_board_xy(c.last()[0], c.last()[1]) {
                None
            } else {
                Some(c.len() - 1)
            },
        }
    }
}

/// The row-major cell of an on-board `[x, y]`.
pub open spec fn cell_xy(x: u8, y: u8) -> int {
    y * 15 + x
}

/// The cells of a stone list, in order.
pub open spec fn stone_cells(c: Seq<[u8; 2]>) -> Seq<int> {
    Seq::new(c.len(), |k: int| cell_xy(c[k][0], c[k][1]))
}

/// The cells of a claimed line, in order.
pub open spec fn line_cells(c: Seq<[u8; 3]>) -> Seq<int> {
    Seq::new(c.len(), |k: int| cell_xy(c[k][0], c[k][1]))
}

/// The first entry of `s` that repeats an earlier one.
pub open spec fn first_repeat(s: Seq<int>) -> Option<int>
    decreases s.len(),
{
    if s.len() == 0 {
        None
    } else {
        match first_repeat(s.drop_last()) {
            Some(k) => Some(k),
            None => if s.drop_last().contains(s.last()) {
                Some(s.len() - 1)
            } else {
                None
            },
        }
    }
}

/// The first entry of `w` that repeats a cell of `b` or an earlier entry
/// of `w`.
pub open spec fn first_clash(b: Seq<int>, w: Seq<int>) -> Option<int>
    decreases w.len(),
{
    if w.len() == 0 {
        None
    } else {
        match first_clash(b, w.drop_last()) {
            Some(k) => Some(k),
            None => if b.contains(w.last()) || w.drop_last().contains(w.last()) {
                Some(w.len() - 1)
            } else {
                None
            },
        }
    }
}

/// The turn invariant: the attacker is to move, so Black has as many stones
/// as White when Black attacks and one more when White attacks.
pub open spec fn counts_fit(attacker: Color, black: nat, white: nat) -> bool {
    match attacker {
        Color::Black => black == white,
        Color::White => black == white + 1,
    }
}

/// The side number a claimed line must start with.
pub open spec fn side_number(c: Color) -> u8 {
    match c {
        Color::Black => 1,
        Color::White => 2,
    }
}

/// Why an item is rejected, checked in this order: attacker name, black
/// coordinates, white coordinates, repeated black cells, white cells that
/// clash (a cell of Black's list is an overlap, a repeat of an earlier white
/// cell a duplicate stone), stone counts, the side that starts the line,
/// line coordinates.
#[verifier::opaque]
pub open spec fn item_fault(item: VcfItem) -> Option<PuzzleFault> {
    let b = item.black@;
    let w = item.white@;
    let l = item.line@;
    match attacker_of(item.a@) {
        None => Some(PuzzleFault::InvalidAttacker { item: item.i, value: item.a@ }),
        Some(attacker) => if first_off_board(b) is Some {
            let k = first_off_board(b)->0;
            Some(PuzzleFault::InvalidCoord { item: item.i, row: b[k][1], col: b[k][0] })
        } else if first_off_board(w) is Some {
            let k = first_off_board(w)->0;
            Some(PuzzleFault::InvalidCoord { item: item.i, row: w[k][1], col: w[k][0] })
        } else if first_repeat(stone_cells(b)) is Some {
            let k = first_repeat(stone_cells(b))->0;
            Some(PuzzleFault::DuplicateStone { item: item.i, row: b[k][1], col: b[k][0] })
        } else if first_clash(stone_cells(b), stone_cells(w)) is Some {
            let k = first_clash(stone_cells(b), stone_cells(w))->0;
            if stone_cells(b).contains(stone_cells(w)[k]) {
                Some(PuzzleFault::OverlappingColors { item: item.i })
            } else {
                Some(PuzzleFault::DuplicateStone { item: item.i, row: w[k][1], col: w[k][0] })
            }
        } else if !counts_fit(attacker, b.len(), w.len()) {
            Some(
                PuzzleFault::InvalidCounts {
                    item: item.i,
                    black: b.len() as usize,
                    white: w.len() as usize,
                    attacker: attacker,
                },
            )
        } else if l.len() > 0 && l[0][2] != side_number(attacker) {
            Some(
                PuzzleFault::InvalidSolutionSide {
                    item: item.i,
                    expected: attacker,
                    found: l[0][2],
                },
            )
        } else if first_off_board_line(l) is Some {
            let k = first_off_board_line(l)->0;
            Some(PuzzleFault::InvalidCoord { item: item.i, row: l[k][1], col: l[k][0] })
        } else {
            None
        }
    }
}

/// The moves are exactly the cells `cells`, in order.
pub open spec fn moves_are(ms: Seq<Move>, cells: Seq<int>) -> bool {
    &&& ms.len() == cells.len()
    &&& forall|k: int| 0 <= k < ms.len() ==> #[trigger] ms[k]@ == cells[k]
}

/// `p` is the puzzle an accepted `item` describes.
#[verifier::opaque]
pub open spec fn puzzle_of_item(p: Puzzle, item: VcfItem) -> bool {
    &&& p.name@ == "vcf-material #"@ + decimal(item.i as nat)
    &&& moves_are(p.black@, stone_cells(item.black@))
    &&& moves_are(p.white@, stone_cells(item.white@))
    &&& Some(p.to_move) == attacker_of(item.a@)
    &&& p.depth == item.d
    &&& if item.line@.len() == 0 {
        p.solution is None
    } else {
        p.solution matches Some(s) && moves_are(s@, line_cells(item.line@))
    }
}

/// Turns a list of `[x, y]` coordinates into moves; the first coordinate
/// off the board is an error.
pub fn parse_stone_list(item: u32, coords: &[[u8; 2]]) -> (r: Result<Vec<Move>, PuzzleError>)
    ensures
        match first_off_board(coords@) {
            Some(k) => r matches Err(e) && e@ == (PuzzleFault::InvalidCoord {
                item: item,
                row: coords@[k][1],
                col: coords@[k][0],
            }),
            None => r matches Ok(v) && moves_are(v@, stone_cells(coords@)),
        },
{
    let mut v: Vec<Move> = Vec::new();
    let mut k: usize = 0;
    while k < coords.len()
        invariant
            k <= coords.len(),
            first_off_board(coords@.subrange(0, k as int)) is None,
            moves_are(v@, stone_cells(coords@.subrange(0, k as int))),
        decreases coords.len() - k,
    {
        let x = coords[k][0];
        let y = coords[k][1];
        let ghost pre = coords@.subrange(0, k as int);
        let ghost next = coords@.subrange(0, k + 1);
        proof {
            assert(next.drop_last() =~= pre);
            assert(next.last() == coords@[k as int]);
        }
        match Move::new(y, x) {
            Some(mv) => {
                v.push(mv);
                proof {
                    assert forall|j: int| 0 <= j < v@.len() implies #[trigger] v@[j]@ == stone_cells(next)[j] by {
                        if j < k {
                            assert(stone_cells(pre)[j] == stone_cells(next)[j]);
                        }
                    }
                }
            },
            None => {
                proof {
                    lemma_first_off_board_prefix(coords@, k as int);
                }
                return Err(PuzzleError::InvalidCoord { item, row: y, col: x });
            },
        }
        k = k + 1;
    }
    proof {
        assert(coords@.subrange(0, coords@.len() as int) =~= coords@);
    }
    Ok(v)
}

/// With no off-board coordinate, every coordinate is on the board.
proof fn lemma_all_on_board(c: Seq<[u8; 2]>)
    requires
        first_off_board(c) is None,
    ensures
        forall|k: int| 0 <= k < c.len() ==> on_board_xy(#[trigger] c[k][0], c[k][1]),
    decreases c.len(),
{
    if c.len() > 0 {
        lemma_all_on_board(c.drop_last());
        assert forall|k: int| 0 <= k < c.len() implies on_board_xy(#[trigger] c[k][0], c[k][1]) by {
            if k < c.len() - 1 {
                assert(c.drop_last()[k] == c[k]);
            }
        }
    }
}

/// The row and column of an on-board `[x, y]` cell.
proof fn lemma_cell_xy(x: u8, y: u8)
    requires
        on_board_xy(x, y),
    ensures
        cell_xy(x, y) / 15 == y,
        cell_xy(x, y) % 15 == x,
{
    assert((y * 15 + x) / 15 == y && (y * 15 + x) % 15 == x) by (nonlinear_arith)
        requires
            x < 15,
            y < 15,
    ;
}

/// An off-board entry at `k` after an on-board prefix is the first one.
proof fn lemma_first_off_board_prefix(c: Seq<[u8; 2]>, k: int)
    requires
        0 <= k < c.len(),
        first_off_board(c.subrange(0, k)) is None,
        !on_board_xy(c[k][0], c[k][1]),
    ensures
        first_off_board(c) == Some(k),
    decreases c.len(),
{
    if c.len() == k + 1 {
        assert(c.drop_last() =~= c.subrange(0, k));
    } else {
        assert(c.drop_last().subrange(0, k) =~= c.subrange(0, k));
        lemma_first_off_board_prefix(c.drop_last(), k);
    }
}

/// An off-board line entry at `k` after an on-board prefix is the first one.
proof fn lemma_first_off_board_line_prefix(c: Seq<[u8; 3]>, k: int)
    requires
        0 <= k < c.len(),
        first_off_board_line(c.subrange(0, k)) is None,
        !on_board_xy(c[k][0], c[k][1]),
    ensures
        first_off_board_line(c) == Some(k),
    decreases c.len(),
{
    if c.len() == k + 1 {
        assert(c.drop_last() =~= c.subrange(0, k));
    } else {
        assert(c.drop_last().subrange(0, k) =~= c.subrange(0, k));
        lemma_first_off_board_line_prefix(c.drop_last(), k);
    }
}

/// A repeat at `k` after a repeat-free prefix is the first one.
proof fn lemma_first_repeat_prefix(s: Seq<int>, k: int)
    requires
        0 <= k < s.len(),
        first_repeat(s.subrange(0, k)) is None,
        s.subrange(0, k).contains(s[k]),
    ensures
        first_repeat(s) == Some(k),
    decreases s.len(),
{
    if s.len() == k + 1 {
        assert(s.drop_last() =~= s.subrange(0, k));
    } else {
        assert(s.drop_last().subrange(0, k) =~= s.subrange(0, k));
        lemma_first_repeat_prefix(s.drop_last(), k);
    }
}

/// A clash at `k` after a clash-free prefix is the first one.
proof fn lemma_first_clash_prefix(b: Seq<int>, w: Seq<int>, k: int)
    requires
        0 <= k < w.len(),
        first_clash(b, w.subrange(0, k)) is None,
        b.contains(w[k]) || w.subrange(0, k).contains(w[k]),
    ensures
        first_clash(b, w) == Some(k),
    decreases w.len(),
{
    if w.len() == k + 1 {
        assert(w.drop_last() =~= w.subrange(0, k));
    } else {
        assert(w.drop_last().subrange(0, k) =~= w.subrange(0, k));
        lemma_first_clash_prefix(b, w.drop_last(), k);
    }
}

/// Turns one decoded item into a puzzle, or names the first rule it breaks
/// (see `item_fault`).
pub fn parse_vcf_item(item: VcfItem) -> (r: Result<Puzzle, PuzzleError>)
    ensures
        match item_fault(item) {
            Some(f) => r matches Err(e) && e@ == f,
            None => r matches Ok(p) && puzzle_of_item(p, item),
        },
{
    proof {
        reveal(item_fault);
        reveal(puzzle_of_item);
    }
    let black_name = text("black");
    let white_name = text("white");
    let attacker = if item.a == black_name {
        Color::Black
    } else if item.a == white_name {
        Color::White
    } else {
        return Err(PuzzleError::InvalidAttacker { item: item.i, value: item.a });
    };
    let black = match parse_stone_list(item.i, item.black.as_slice()) {
        Ok(v) => v,
        Err(e) => {
            return Err(e);
        },
    };
    let white = match parse_stone_list(item.i, item.white.as_slice()) {
        Ok(v) => v,
        Err(e) => {
            return Err(e);
        },
    };
    let ghost bcells = stone_cells(item.black@);
    let ghost wcells = stone_cells(item.white@);
    proof {
        lemma_all_on_board(item.black@);
        lemma_all_on_board(item.white@);
    }
    // No cell twice in Black's list.
    let mut seen = MoveSet::empty();
    let mut k: usize = 0;
    while k < black.len()
        invariant
            k <= black.len(),
            moves_are(black@, bcells),
            first_repeat(bcells.subrange(0, k as int)) is None,
            forall|m: int| #[trigger] seen@.contains(m) <==> bcells.subrange(0, k as int).contains(m),
            bcells == stone_cells(item.black@),
            attacker_of(item.a@) == Some(attacker),
            first_off_board(item.black@) is None,
            first_off_board(item.white@) is None,
            forall|i: int| 0 <= i < item.black@.len() ==> on_board_xy(#[trigger] item.black@[i][0], item.black@[i][1]),
        decreases black.len() - k,
    {
        let mv = black[k];
        let ghost pre = bcells.subrange(0, k as int);
        let ghost next = bcells.subrange(0, k + 1);
        proof {
            assert(next.drop_last() =~= pre);
            assert(next.last() == bcells[k as int]);
        }
        if seen.contains(mv) {
            proof {
                reveal(item_fault);
                lemma_first_repeat_prefix(bcells, k as int);
                lemma_cell_xy(item.black@[k as int][0], item.black@[k as int][1]);
            }
            return Err(PuzzleError::DuplicateStone { item: item.i, row: mv.row(), col: mv.col() });
        }
        seen.insert(mv);
        proof {
            assert forall|m: int| #[trigger] seen@.contains(m) <==> next.contains(m) by {
                if next.contains(m) {
                    let j = choose|j: int| 0 <= j < next.len() && next[j] == m;
                    if j < k {
                        assert(pre[j] == m);
                    }
                }
                if pre.contains(m) {
                    let j = choose|j: int| 0 <= j < pre.len() && pre[j] == m;
                    assert(next[j] == m);
                }
                if m == mv@ {
                    assert(next[k as int] == m);
                }
            }
        }
        k = k + 1;
    }
    proof {
        assert(bcells.subrange(0, black.len() as int) =~= bcells);
    }
    // No white stone on a black cell or on an earlier white cell.
    let black_set = seen;
    proof {
        assert forall|m: int| #[trigger] black_set@.contains(m) <==> bcells.contains(m) by {
            assert(bcells.subrange(0, black.len() as int) =~= bcells);
        }
    }
    let mut j: usize = 0;
    while j < white.len()
        invariant
            j <= white.len(),
            moves_are(white@, wcells),
            first_clash(bcells, wcells.subrange(0, j as int)) is None,
            forall|m: int| #[trigger] seen@.contains(m) <==> (bcells.contains(m) || wcells.subrange(0, j as int).contains(m)),
            forall|m: int| #[trigger] black_set@.contains(m) <==> bcells.contains(m),
            forall|i: int| 0 <= i < item.white@.len() ==> on_board_xy(#[trigger] item.white@[i][0], item.white@[i][1]),
            bcells == stone_cells(item.black@),
            wcells == stone_cells(item.white@),
            attacker_of(item.a@) == Some(attacker),
            first_off_board(item.black@) is None,
            first_off_board(item.white@) is None,
            first_repeat(bcells) is None,
        decreases white.len() - j,
    {
        let mv = white[j];
        let ghost pre = wcells.subrange(0, j as int);
        let ghost next = wcells.subrange(0, j + 1);
        proof {
            assert(next.drop_last() =~= pre);
            assert(next.last() == wcells[j as int]);
        }
        if black_set.contains(mv) {
            proof {
                reveal(item_fault);
                lemma_first_clash_prefix(bcells, wcells, j as int);
            }
            return Err(PuzzleError::OverlappingColors { item: item.i });
        }
        if seen.contains(mv) {
            proof {
                reveal(item_fault);
                lemma_first_clash_prefix(bcells, wcells, j as int);
                lemma_cell_xy(item.white@[j as int][0], item.white@[j as int][1]);
            }
            return Err(PuzzleError::DuplicateStone { item: item.i, row: mv.row(), col: mv.col() });
        }
        let ghost before = seen@;
        seen.insert(mv);
        proof {
            assert(!bcells.contains(mv@) && !pre.contains(mv@));
            assert(first_clash(bcells, next) is None);
            assert forall|m: int| #[trigger] seen@.contains(m) <==> (bcells.contains(m) || next.contains(m)) by {
                assert(before.contains(m) <==> (bcells.contains(m) || pre.contains(m)));
                if next.contains(m) {
                    let i = choose|i: int| 0 <= i < next.len() && next[i] == m;
                    if i < j {
                        assert(pre[i] == m);
                    }
                }
                if pre.contains(m) {
                    let i = choose|i: int| 0 <= i < pre.len() && pre[i] == m;
                    assert(next[i] == m);
                }
                if m == mv@ {
                    assert(next[j as int] == m);
                }
            }
        }
        j = j + 1;
    }
    proof {
        assert(wcells.subrange(0, white.len() as int) =~= wcells);
    }
    let counts_ok = match attacker {
        Color::Black => black.len() == white.len(),
        Color::White => white.len() < black.len() && black.len() - white.len() == 1,
    };
    if !counts_ok {
        return Err(
            PuzzleError::InvalidCounts {
                item: item.i,
                black: black.len(),
                white: white.len(),
                attacker,
            },
        );
    }
    let solution = if item.line.len() == 0 {
        None
    } else {
        let first_side = item.line[0][2];
        let expected: u8 = match attacker {
            Color::Black => 1,
            Color::White => 2,
        };
        if first_side != expected {
            return Err(
                PuzzleError::InvalidSolutionSide { item: item.i, expected: attacker, found: first_side },
            );
        }
        proof {
            assert(first_repeat(stone_cells(item.black@)) is None);
            assert(first_clash(stone_cells(item.black@), stone_cells(item.white@)) is None);
        }
        let mut line: Vec<Move> = Vec::new();
        let mut k: usize = 0;
        while k < item.line.len()
            invariant
                k <= item.line.len(),
                first_off_board_line(item.line@.subrange(0, k as int)) is None,
                moves_are(line@, line_cells(item.line@.subrange(0, k as int))),
                item_fault(item) == (if first_off_board_line(item.line@) is Some {
                    let kk = first_off_board_line(item.line@)->0;
                    Some(PuzzleFault::InvalidCoord { item: item.i, row: item.line@[kk][1], col: item.line@[kk][0] })
                } else {
                    None::<PuzzleFault>
                }),
            decreases item.line.len() - k,
        {
            let x = item.line[k][0];
            let y = item.line[k][1];
            let ghost pre = item.line@.subrange(0, k as int);
            let ghost next = item.line@.subrange(0, k + 1);
            proof {
                assert(next.drop_last() =~= pre);
                assert(next.last() == item.line@[k as int]);
            }
            match Move::new(y, x) {
                Some(mv) => {
                    line.push(mv);
                    proof {
                        assert forall|i: int| 0 <= i < line@.len() implies #[trigger] line@[i]@ == line_cells(next)[i] by {
                            if i < k {
                                assert(line_cells(pre)[i] == line_cells(next)[i]);
                            }
                        }
                    }
                },
                None => {
                    proof {
                        lemma_first_off_board_line_prefix(item.line@, k as int);
                    }
                    return Err(PuzzleError::InvalidCoord { item: item.i, row: y, col: x });
                },
            }
            k = k + 1;
        }
        proof {
            assert(item.line@.subrange(0, item.line@.len() as int) =~= item.line@);
        }
        Some(line)
    };
    let mut name = text("vcf-material #");
    let number = decimal_string(item.i as u64);
    push_string(&mut name, &number);
    Ok(Puzzle { name, black, white, to_move: attacker, solution, depth: item.d })
}

/// The first faulty item decides the fault of a file with the right count.
proof fn lemma_first_faulty_item(count: usize, items: Seq<VcfItem>, k: int)
    requires
        count == items.len(),
        0 <= k < items.len(),
        forall|j: int| 0 <= j < k ==> item_fault(#[trigger] items[j]) is None,
        item_fault(items[k]) is Some,
    ensures
        file_fault(count, items) == item_fault(items[k]),
{
    let w = choose|w: int|
        0 <= w < items.len() && item_fault(#[trigger] items[w]) is Some && forall|j: int|
            0 <= j < w ==> item_fault(#[trigger] items[j]) is None;
    assert(w == k) by {
        if w < k {
            assert(item_fault(items[w]) is None);
        }
        if w > k {
            assert(item_fault(items[k]) is None);
        }
    }
}

/// Why a decoded file is rejected: a `count` that differs from the number
/// of items, else the first item that breaks a rule.
pub open spec fn file_fault(count: usize, items: Seq<VcfItem>) -> Option<PuzzleFault> {
    if count != items.len() {
        Some(PuzzleFault::CountMismatch { declared: count, actual: items.len() as usize })
    } else if exists|k: int| 0 <= k < items.len() && item_fault(#[trigger] items[k]) is Some {
        let k = choose|k: int|
            0 <= k < items.len() && item_fault(#[trigger] items[k]) is Some && forall|j: int|
                0 <= j < k ==> item_fault(#[trigger] items[j]) is None;
        item_fault(items[k])
    } else {
        None
    }
}

/// Turns the items of a decoded `vcf-material-v1` file into puzzles, in
/// order (see `file_fault` for what is rejected).
pub fn parse_vcf_material_v1(count: usize, items: Vec<VcfItem>) -> (r: Result<Vec<Puzzle>, PuzzleError>)
    ensures
        match file_fault(count, items@) {
            Some(f) => r matches Err(e) && e@ == f,
            None => r matches Ok(ps) && ps@.len() == items@.len() && forall|k: int|
                0 <= k < items@.len() ==> puzzle_of_item(#[trigger] ps@[k], items@[k]),
        },
{
    if count != items.len() {
        return Err(PuzzleError::CountMismatch { declared: count, actual: items.len() });
    }
    let ghost all = items@;
    let mut rest = items;
    let mut out: Vec<Puzzle> = Vec::new();
    let mut k: usize = 0;
    while rest.len() > 0
        invariant
            k + rest@.len() == all.len(),
            rest@ == all.subrange(k as int, all.len() as int),
            all == items@,
            count == all.len(),
            out@.len() == k,
            forall|j: int| 0 <= j < k ==> item_fault(#[trigger] all[j]) is None,
            forall|j: int| 0 <= j < k ==> puzzle_of_item(#[trigger] out@[j], all[j]),
        decreases rest.len(),
    {
        let item = rest.remove(0);
        proof {
            assert(item == all[k as int]);
            assert(rest@ =~= all.subrange(k + 1, all.len() as int));
        }
        match parse_vcf_item(item) {
            Ok(p) => {
                out.push(p);
            },
            Err(e) => {
                proof {
                    lemma_first_faulty_item(count, all, k as int);
                }
                return Err(e);
            },
        }
        k = k + 1;
    }
    Ok(out)
}


impl Puzzle {
    /// A board can be set up on the puzzle's position.
    pub fn setup_ok(&self) -> (b: bool)
        ensures
            b == self.valid_setup(),
    {
        crate::board::Board::from_position(self.black.as_slice(), self.white.as_slice(), self.to_move).is_ok()
    }
}

/// Every puzzle the item rules accept can be set up on a board: its stones
/// are distinct, the colors apart and the counts fit the side to move.
pub proof fn lemma_accepted_puzzle_valid(p: Puzzle, item: VcfItem)
    requires
        item_fault(item) is None,
        puzzle_of_item(p, item),
    ensures
        p.valid_setup(),
{
    reveal(item_fault);
    reveal(puzzle_of_item);
    let bc = stone_cells(item.black@);
    let wc = stone_cells(item.white@);
    let attacker = attacker_of(item.a@)->0;
    assert(first_repeat(bc) is None);
    assert(first_clash(bc, wc) is None);
    lemma_no_repeat(bc);
    lemma_no_clash(bc, wc);
    let bs = cells_of(p.black@);
    let ws = cells_of(p.white@);
    assert forall|a: int, b: int| 0 <= a < b < p.black@.len() implies #[trigger] p.black@[a]@
        != #[trigger] p.black@[b]@ by {
        assert(p.black@[a]@ == bc[a] && p.black@[b]@ == bc[b]);
    }
    assert forall|a: int, b: int| 0 <= a < b < p.white@.len() implies #[trigger] p.white@[a]@
        != #[trigger] p.white@[b]@ by {
        assert(p.white@[a]@ == wc[a] && p.white@[b]@ == wc[b]);
    }
    crate::board::lemma_cells_of_len(p.black@);
    crate::board::lemma_cells_of_len(p.white@);
    assert(!(exists|m: int| #[trigger] bs.contains(m) && ws.contains(m))) by {
        if exists|m: int| #[trigger] bs.contains(m) && ws.contains(m) {
            let m = choose|m: int| #[trigger] bs.contains(m) && ws.contains(m);
            let i = choose|i: int| 0 <= i < p.black@.len() && #[trigger] p.black@[i]@ == m;
            let j = choose|j: int| 0 <= j < p.white@.len() && #[trigger] p.white@[j]@ == m;
            assert(bc[i] == m && wc[j] == m);
            assert(bc.contains(wc[j]));
        }
    }
}

/// A list without a first repeat has no repeat at all.
proof fn lemma_no_repeat(s: Seq<int>)
    requires
        first_repeat(s) is None,
    ensures
        forall|a: int, b: int| 0 <= a < b < s.len() ==> #[trigger] s[a] != #[trigger] s[b],
    decreases s.len(),
{
    if s.len() > 0 {
        let pre = s.drop_last();
        lemma_no_repeat(pre);
        assert forall|a: int, b: int| 0 <= a < b < s.len() implies #[trigger] s[a] != #[trigger] s[b] by {
            if b < s.len() - 1 {
                assert(pre[a] == s[a] && pre[b] == s[b]);
            } else if s[a] == s[b] {
                assert(pre[a] == s[a]);
                assert(pre.contains(s.last()));
            }
        }
    }
}

/// A white list without a first clash repeats no cell of Black or of
/// itself.
proof fn lemma_no_clash(b: Seq<int>, w: Seq<int>)
    requires
        first_clash(b, w) is None,
    ensures
        forall|j: int| 0 <= j < w.len() ==> !b.contains(#[trigger] w[j]),
        forall|a: int, c: int| 0 <= a < c < w.len() ==> #[trigger] w[a] != #[trigger] w[c],
    decreases w.len(),
{
    if w.len() > 0 {
        let pre = w.drop_last();
        lemma_no_clash(b, pre);
        assert forall|j: int| 0 <= j < w.len() implies !b.contains(#[trigger] w[j]) by {
            if j < w.len() - 1 {
                assert(pre[j] == w[j]);
            }
        }
        assert forall|a: int, c: int| 0 <= a < c < w.len() implies #[trigger] w[a] != #[trigger] w[c] by {
            if c < w.len() - 1 {
                assert(pre[a] == w[a] && pre[c] == w[c]);
            } else if w[a] == w[c] {
                assert(pre[a] == w[a]);
                assert(pre.contains(w.last()));
            }
        }
    }
}

/// Splitting `t` at line feeds: the finished lines and the line still
/// open at the end.
pub open spec fn line_split(t: Seq<char>) -> (Seq<Seq<char>>, Seq<char>)
    decreases t.len(),
{
    if t.len() == 0 {
        (Seq::empty(), Seq::empty())
    } else {
        let (done, cur) = line_split(t.drop_last());
        if t.last() == '\n' {
            (done.push(cur), Seq::empty())
        } else {
            (done, cur.push(t.last()))
        }
    }
}

/// A sidecar line names a parser: not blank, not a `#` comment.
pub open spec fn names_parser(x: Seq<char>) -> bool {
    x.len() > 0 && x[0] != '#'
}

/// The first line, trimmed, that names a parser.
pub open spec fn first_identifier(lines: Seq<Seq<char>>) -> Option<Seq<char>>
    decreases lines.len(),
{
    if lines.len() == 0 {
        None
    } else if names_parser(trimmed(lines[0])) {
        Some(trimmed(lines[0]))
    } else {
        first_identifier(lines.drop_first())
    }
}

/// The parser a sidecar file names: its first non-blank line that is not
/// a comment, trimmed.
pub open spec fn sidecar_spec(raw: Seq<char>) -> Option<Seq<char>> {
    let (done, cur) = line_split(raw);
    first_identifier(done.push(cur))
}

proof fn lemma_first_identifier_push(ls: Seq<Seq<char>>, x: Seq<char>)
    requires
        first_identifier(ls) is None,
    ensures
        first_identifier(ls.push(x)) == if names_parser(trimmed(x)) {
            Some(trimmed(x))
        } else {
            None
        },
    decreases ls.len(),
{
    if ls.len() == 0 {
        let one = ls.push(x);
        assert(one.drop_first() =~= Seq::<Seq<char>>::empty());
    } else {
        assert(ls.push(x).drop_first() =~= ls.drop_first().push(x));
        lemma_first_identifier_push(ls.drop_first(), x);
    }
}

/// The optional text as characters.
pub open spec fn opt_text(o: Option<String>) -> Option<Seq<char>> {
    match o {
        Some(s) => Some(s@),
        None => None,
    }
}

/// The parser a sidecar file names (see `sidecar_spec`).
pub fn sidecar_identifier(raw: &str) -> (r: Option<String>)
    ensures
        opt_text(r) == sidecar_spec(raw@),
{
    let n = raw.unicode_len();
    let mut done: Vec<String> = Vec::new();
    let mut cur = String::new();
    let ghost views_done = Seq::<Seq<char>>::empty();
    let mut i: usize = 0;
    proof {
        assert(raw@.subrange(0, 0) =~= Seq::<char>::empty());
    }
    while i < n
        invariant
            i <= n,
            n == raw@.len(),
            (views_done, cur@) == line_split(raw@.subrange(0, i as int)),
            first_identifier(views_done) is None,
        decreases n - i,
    {
        let c = raw.get_char(i);
        let ghost pre = raw@.subrange(0, i as int);
        let ghost next = raw@.subrange(0, i + 1);
        proof {
            assert(next.drop_last() =~= pre);
            assert(next.last() == c);
        }
        if c == '\n' {
            let line = trim_text(cur.as_str());
            proof {
                lemma_first_identifier_push(views_done, cur@);
            }
            if line.unicode_len() > 0 && line.as_str().get_char(0) != '#' {
                proof {
                    let full = raw@;
                    lemma_identifier_found(full, i as int, views_done, cur@);
                }
                return Some(line);
            }
            proof {
                views_done = views_done.push(cur@);
            }
            cur = String::new();
        } else {
            crate::text::push_char(&mut cur, c);
        }
        i = i + 1;
    }
    proof {
        assert(raw@.subrange(0, n as int) =~= raw@);
        lemma_first_identifier_push(views_done, cur@);
    }
    let line = trim_text(cur.as_str());
    if line.unicode_len() > 0 && line.as_str().get_char(0) != '#' {
        Some(line)
    } else {
        None
    }
}

/// A line that names a parser, ending at a line feed at `i` after lines
/// that do not, is the sidecar's identifier.
proof fn lemma_identifier_found(raw: Seq<char>, i: int, done: Seq<Seq<char>>, cur: Seq<char>)
    requires
        0 <= i < raw.len(),
        raw[i] == '\n',
        (done, cur) == line_split(raw.subrange(0, i)),
        first_identifier(done) is None,
        names_parser(trimmed(cur)),
    ensures
        sidecar_spec(raw) == Some(trimmed(cur)),
{
    lemma_line_split_prefix(raw, i + 1);
    let p = raw.subrange(0, i + 1);
    assert(p.drop_last() =~= raw.subrange(0, i));
    lemma_first_identifier_push(done, cur);
    let (d2, c2) = line_split(raw);
    lemma_first_identifier_extends(done.push(cur), d2.push(c2));
}

/// The finished lines of a prefix are a prefix of the lines of the whole.
proof fn lemma_line_split_prefix(raw: Seq<char>, k: int)
    requires
        0 <= k <= raw.len(),
    ensures
        line_split(raw.subrange(0, k)).0.len() <= line_split(raw).0.len(),
        forall|j: int| 0 <= j < line_split(raw.subrange(0, k)).0.len() ==> #[trigger] line_split(raw).0[j]
            == line_split(raw.subrange(0, k)).0[j],
    decreases raw.len() - k,
{
    if k == raw.len() {
        assert(raw.subrange(0, k) =~= raw);
    } else {
        lemma_line_split_prefix(raw, k + 1);
        let p = raw.subrange(0, k + 1);
        assert(p.drop_last() =~= raw.subrange(0, k));
    }
}

/// A prefix of lines with an identifier decides the identifier of all.
proof fn lemma_first_identifier_extends(a: Seq<Seq<char>>, b: Seq<Seq<char>>)
    requires
        a.len() <= b.len(),
        forall|j: int| 0 <= j < a.len() ==> #[trigger] b[j] == a[j],
        first_identifier(a) is Some,
    ensures
        first_identifier(b) == first_identifier(a),
    decreases a.len(),
{
    if names_parser(trimmed(a[0])) {
        assert(b[0] == a[0]);
    } else {
        assert(b[0] == a[0]);
        assert forall|j: int| 0 <= j < a.drop_first().len() implies #[trigger] b.drop_first()[j]
            == a.drop_first()[j] by {
            assert(b[j + 1] == a[j + 1]);
        }
        lemma_first_identifier_extends(a.drop_first(), b.drop_first());
    }
}

/// Whether a sidecar identifier names a registered parser; the only one
/// is `vcf-material-v1`.
pub open spec fn parser_fault(path: Seq<char>, identifier: Option<Seq<char>>) -> Option<PuzzleFault> {
    match identifier {
        None => Some(PuzzleFault::UnknownParser { path: path, identifier: Seq::empty() }),
        Some(id) => if id == "vcf-material-v1"@ {
            None
        } else {
            Some(PuzzleFault::UnknownParser { path: path, identifier: id })
        },
    }
}

/// Checks that the sidecar at `path` names a registered parser.
pub fn check_parser(path: &str, identifier: Option<String>) -> (r: Result<(), PuzzleError>)
    ensures
        match parser_fault(path@, opt_text(identifier)) {
            Some(f) => r matches Err(e) && e@ == f,
            None => r is Ok,
        },
{
    match identifier {
        None => Err(PuzzleError::UnknownParser { path: text(path), identifier: String::new() }),
        Some(id) => {
            if crate::text::str_eq(id.as_str(), "vcf-material-v1") {
                Ok(())
            } else {
                Err(PuzzleError::UnknownParser { path: text(path), identifier: id })
            }
        },
    }
}

} // verus!
