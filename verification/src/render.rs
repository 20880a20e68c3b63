//! Board rendering: 19 lines of text per frame, plain or with terminal
//! colors, optionally with a proven threat line overlaid as numbers.
//!
//! A frame is a ruler, a border, 15 rows of cells, a border and a ruler.
//! Each row is its right-aligned number, ` |`, 15 cells, `| ` and its
//! left-aligned number. A plain cell is three characters wide, the last
//! move in brackets; with an overlay a cell is four characters wide.
use vstd::prelude::*;
use crossterm::style::Stylize;
use crate::board::{Color, Position, Status};
use crate::game_board::GameBoard;
use crate::input::views;
use crate::moveset::Move;
use crate::opening::OpeningState;
use crate::text::{
    centered,
    color_name,
    color_word,
    decimal,
    left2,
    push_centered,
    push_char,
    push_decimal,
    push_left2,
    push_right2,
    push_str,
    push_string,
    right2,
    text,
};
use crate::tss::Proof;

verus! {

/// `f(0) + f(1) + ... + f(n - 1)`.
pub open spec fn join(f: spec_fn(int) -> Seq<char>, n: int) -> Seq<char>
    decreases n,
{
    if n <= 0 {
        Seq::empty()
    } else {
        join(f, n - 1) + f(n - 1)
    }
}

/// The column numbers, each centered in `w` characters, with a margin of
/// four spaces on each side.
pub open spec fn ruler_text(w: nat) -> Seq<char> {
    "    "@ + join(|c: int| centered(c as nat, w), 15) + "    "@
}

/// The frame's top and bottom border for cells `w` characters wide.
pub open spec fn border_text(w: nat) -> Seq<char> {
    "   +"@ + Seq::new(w * 15, |i: int| '-') + "+   "@
}

/// The glyph of a cell: `.` empty, `x` Black, `o` White.
pub open spec fn glyph_of(g: Option<Color>) -> char {
    match g {
        None => '.',
        Some(Color::Black) => 'x',
        Some(Color::White) => 'o',
    }
}

/// The stone on each of the 225 cells of a position.
pub open spec fn grid_of(p: Position) -> Seq<Option<Color>> {
    Seq::new(
        225,
        |m: int|
            if p.black.contains(m) {
                Some(Color::Black)
            } else if p.white.contains(m) {
                Some(Color::White)
            } else {
                None
            },
    )
}

/// The cell of the last move, if any.
pub open spec fn last_cell(moves: Seq<Move>) -> Option<int> {
    if moves.len() == 0 {
        None
    } else {
        Some(moves.last()@)
    }
}

/// Which side of a proven line played a numbered move.
#[derive(Debug, Clone, Copy, PartialEq, Eq, Structural)]
pub enum Side {
    Attacker,
    Defender,
}

/// The number and side shown on cell `m` for a proven line: the last entry
/// of the line on that cell, numbered from 1; even entries attack.
pub open spec fn overlay_at(line: Seq<Move>, m: int) -> Option<(int, Side)>
    decreases line.len(),
{
    if line.len() == 0 {
        None
    } else if line.last()@ == m {
        Some(
            (
                line.len() as int,
                if (line.len() - 1) % 2 == 0 {
                    Side::Attacker
                } else {
                    Side::Defender
                },
            ),
        )
    } else {
        overlay_at(line.drop_last(), m)
    }
}

/// A plain cell three characters wide.
pub open spec fn plain_cell(g: char, last: bool) -> Seq<char> {
    if last {
        seq!['[', g, ']']
    } else {
        seq![' ', g, ' ']
    }
}

/// A plain cell four characters wide.
pub open spec fn wide_cell(g: char, last: bool) -> Seq<char> {
    if last {
        seq!['[', g, ' ', ']']
    } else {
        seq![' ', g, ' ', ' ']
    }
}

/// A numbered cell of the overlay: attacking moves bare, defending moves
/// in brackets, four characters wide below 10.
pub open spec fn overlay_cell(n: int, side: Side) -> Seq<char> {
    let d = decimal(n as nat);
    match side {
        Side::Attacker => if n < 10 {
            seq![' '] + d + "  "@
        } else {
            seq![' '] + d + seq![' ']
        },
        Side::Defender => if n < 10 {
            seq!['['] + d + " ]"@
        } else {
            seq!['['] + d + seq![']']
        },
    }
}

/// The text of cell `m` in a plain frame, with or without an overlay line.
pub open spec fn cell_text(grid: Seq<Option<Color>>, last: Option<int>, line: Option<Seq<Move>>, m: int) -> Seq<char> {
    match line {
        None => plain_cell(glyph_of(grid[m]), last == Some(m)),
        Some(l) => match overlay_at(l, m) {
            Some((n, side)) => overlay_cell(n, side),
            None => wide_cell(glyph_of(grid[m]), last == Some(m)),
        },
    }
}

/// Row `r` of a plain frame.
pub open spec fn row_text(grid: Seq<Option<Color>>, last: Option<int>, line: Option<Seq<Move>>, r: int) -> Seq<char> {
    right2(r as nat) + " |"@ + join(|c: int| cell_text(grid, last, line, r * 15 + c), 15) + "| "@ + left2(
        r as nat,
    )
}

/// The cell width of a frame.
pub open spec fn width_for(line: Option<Seq<Move>>) -> nat {
    if line is Some {
        4
    } else {
        3
    }
}

/// The 19 lines of a plain frame.
pub open spec fn plain_frame(grid: Seq<Option<Color>>, last: Option<int>, line: Option<Seq<Move>>) -> Seq<Seq<char>> {
    let w = width_for(line);
    seq![ruler_text(w), border_text(w)] + Seq::new(15, |r: int| row_text(grid, last, line, r)) + seq![
        border_text(w),
        ruler_text(w),
    ]
}

/// The texts of a sequence of cells, one after the other.
pub open spec fn concat(cells: Seq<Seq<char>>) -> Seq<char>
    decreases cells.len(),
{
    if cells.len() == 0 {
        Seq::empty()
    } else {
        concat(cells.drop_last()) + cells.last()
    }
}

/// The overlay mark a frame shows on cell `m`, if it shows a line.
pub open spec fn cell_mark(shown: Option<Seq<Move>>, m: int) -> Option<(int, Side)> {
    match shown {
        Some(l) => overlay_at(l, m),
        None => None,
    }
}

/// `cells` are the fifteen colored cells of row `r`: each shows the stone
/// (or the mark of the line) on its cell, bracketed when it is the last move.
pub open spec fn styled_cells(
    cells: Seq<Seq<char>>,
    grid: Seq<Option<Color>>,
    last: Option<int>,
    shown: Option<Seq<Move>>,
    winner: Color,
    r: int,
) -> bool {
    &&& cells.len() == 15
    &&& forall|c: int|
        0 <= c < 15 ==> styled_cell_text(
            #[trigger] cells[c],
            grid[r * 15 + c],
            last == Some(r * 15 + c),
            cell_mark(shown, r * 15 + c),
            shown is Some,
            winner,
        )
}

/// Row `r` of a colored frame: its number, the fifteen colored cells of
/// the row, and its number again.
pub open spec fn styled_row(
    lines: Seq<Seq<char>>,
    grid: Seq<Option<Color>>,
    last: Option<int>,
    shown: Option<Seq<Move>>,
    winner: Color,
    r: int,
) -> bool {
    exists|cells: Seq<Seq<char>>|
        #[trigger] styled_cells(cells, grid, last, shown, winner, r) && lines[2 + r] == right2(r as nat)
            + " |"@ + concat(cells) + "| "@ + left2(r as nat)
}

/// A colored frame of the 225 cells of `grid`: ruler and border lines as in
/// the plain frame, and each row as `styled_row` says; the moves of a shown
/// line are painted in the color of the side that played them, the
/// attacker being `winner`.
pub open spec fn styled_frame(
    lines: Seq<Seq<char>>,
    grid: Seq<Option<Color>>,
    last: Option<int>,
    shown: Option<Seq<Move>>,
    winner: Color,
) -> bool {
    let w = width_for(shown);
    &&& lines.len() == 19
    &&& lines[0] == ruler_text(w)
    &&& lines[1] == border_text(w)
    &&& lines[17] == border_text(w)
    &&& lines[18] == ruler_text(w)
    &&& forall|r: int| 0 <= r < 15 ==> #[trigger] styled_row(lines, grid, last, shown, winner, r)
}

/// The ANSI control sequence `ESC [ code m`.
pub open spec fn csi(code: Seq<char>) -> Seq<char> {
    seq!['\u{1b}', '['] + code + seq!['m']
}

/// The SGR code that sets the foreground to 256-color palette entry `n`.
pub open spec fn fg_code(n: Seq<char>) -> Seq<char> {
    seq!['3', '8', ';', '5', ';'] + n
}

/// What crossterm displays for text `t` in a foreground color with palette
/// entry `n` and no attribute: nothing on a console without ANSI support;
/// else the color code, the text and the foreground reset; or, when
/// `NO_COLOR` is set, the same sequences with their color codes left out.
pub open spec fn painted_color(r: Seq<char>, t: Seq<char>, n: Seq<char>) -> bool {
    ||| r == Seq::<char>::empty()
    ||| r == csi(fg_code(n)) + t + csi(seq!['3', '9'])
    ||| r == csi(Seq::empty()) + t + csi(Seq::empty())
}

/// What crossterm displays for text `t` in a bold foreground color with
/// palette entry `n`: nothing on a console without ANSI support; else the
/// color code, the bold code, the text and a full reset; or, when `NO_COLOR`
/// is set, the same with the color code left out.
pub open spec fn painted_bold_color(r: Seq<char>, t: Seq<char>, n: Seq<char>) -> bool {
    ||| r == Seq::<char>::empty()
    ||| r == csi(fg_code(n)) + csi(seq!['1']) + t + csi(seq!['0'])
    ||| r == csi(Seq::empty()) + csi(seq!['1']) + t + csi(seq!['0'])
}

/// Text painted in the style of the stones: empty cells in dark grey
/// (palette 8), Black in bold cyan (palette 14), White in yellow (palette 11).
pub open spec fn painted_as(r: Seq<char>, t: Seq<char>, style: Option<Color>) -> bool {
    match style {
        None => painted_color(r, t, seq!['8']),
        Some(Color::Black) => painted_bold_color(r, t, seq!['1', '4']),
        Some(Color::White) => painted_color(r, t, seq!['1', '1']),
    }
}

/// crossterm's `Stylize::dark_grey`, displayed with `Display`: the text in
/// dark grey, as `painted_as` says for an empty cell. Which of its outcomes
/// comes back depends on the console and on `NO_COLOR`.
#[verifier::external_body]
fn paint_dark_grey(t: &str) -> (r: String)
    ensures
        painted_as(r@, t@, None),
{
    format!("{}", t.dark_grey())
}

/// crossterm's `Stylize::cyan` then `Stylize::bold`, displayed with
/// `Display`: the text in bold cyan, as `painted_as` says for Black.
#[verifier::external_body]
fn paint_cyan_bold(t: &str) -> (r: String)
    ensures
        painted_as(r@, t@, Some(Color::Black)),
{
    format!("{}", t.cyan().bold())
}

/// crossterm's `Stylize::yellow`, displayed with `Display`: the text in
/// yellow, as `painted_as` says for White.
#[verifier::external_body]
fn paint_yellow(t: &str) -> (r: String)
    ensures
        painted_as(r@, t@, Some(Color::White)),
{
    format!("{}", t.yellow())
}

/// The colored glyph: grey dot, bold cyan `x`, yellow `o`.
fn styled_glyph(g: Option<Color>) -> (s: String)
    ensures
        painted_as(s@, seq![glyph_of(g)], g),
{
    proof {
        reveal_strlit(".");
        reveal_strlit("x");
        reveal_strlit("o");
    }
    match g {
        None => {
            let r = paint_dark_grey(".");
            proof {
                assert("."@ =~= seq![glyph_of(g)]);
            }
            r
        },
        Some(Color::Black) => {
            let r = paint_cyan_bold("x");
            proof {
                assert("x"@ =~= seq![glyph_of(g)]);
            }
            r
        },
        Some(Color::White) => {
            let r = paint_yellow("o");
            proof {
                assert("o"@ =~= seq![glyph_of(g)]);
            }
            r
        },
    }
}

/// The stone on every cell of a board.
fn board_grid<B: GameBoard>(board: &B) -> (g: [Option<Color>; 225])
    requires
        board.inv(),
    ensures
        g@ == grid_of(board.pos()),
{
    let mut g: [Option<Color>; 225] = [None; 225];
    let mut m: usize = 0;
    while m < 225
        invariant
            m <= 225,
            board.inv(),
            g@.len() == 225,
            forall|j: int| 0 <= j < m ==> g@[j] == #[trigger] grid_of(board.pos())[j],
        decreases 225 - m,
    {
        let s = board.stone_at(Move::from_index(m));
        g[m] = s;
        m = m + 1;
    }
    proof {
        assert(g@ =~= grid_of(board.pos()));
    }
    g
}

/// The color of the last placement on cell `m`, if any.
pub open spec fn placed_at(ps: Seq<(Move, Color)>, m: int) -> Option<Color>
    decreases ps.len(),
{
    if ps.len() == 0 {
        None
    } else if ps.last().0@ == m {
        Some(ps.last().1)
    } else {
        placed_at(ps.drop_last(), m)
    }
}

/// The stones of an opening on every cell.
pub open spec fn opening_grid(ps: Seq<(Move, Color)>) -> Seq<Option<Color>> {
    Seq::new(225, |m: int| placed_at(ps, m))
}

/// The cell of the last placement, if any.
pub open spec fn last_placement(ps: Seq<(Move, Color)>) -> Option<int> {
    if ps.len() == 0 {
        None
    } else {
        Some(ps.last().0@)
    }
}

fn placement_grid(ps: &[(Move, Color)]) -> (g: [Option<Color>; 225])
    ensures
        g@ == opening_grid(ps@),
{
    let mut g: [Option<Color>; 225] = [None; 225];
    let mut k: usize = 0;
    while k < ps.len()
        invariant
            k <= ps.len(),
            g@.len() == 225,
            forall|m: int| 0 <= m < 225 ==> g@[m] == #[trigger] placed_at(ps@.subrange(0, k as int), m),
        decreases ps.len() - k,
    {
        let (mv, c) = ps[k];
        let i = mv.index();
        let ghost pre = ps@.subrange(0, k as int);
        let ghost next = ps@.subrange(0, k + 1);
        proof {
            assert(next.drop_last() =~= pre);
            assert(next.last() == ps@[k as int]);
        }
        g[i] = Some(c);
        proof {
            assert forall|m: int| 0 <= m < 225 implies g@[m] == #[trigger] placed_at(next, m) by {
                if m != i {
                    assert(placed_at(next, m) == placed_at(pre, m));
                }
            }
        }
        k = k + 1;
    }
    proof {
        assert(ps@.subrange(0, ps@.len() as int) =~= ps@);
        assert(g@ =~= opening_grid(ps@));
    }
    g
}

/// The overlay of a proven line: number and side per cell.
struct Overlay {
    cells: [Option<(usize, Side)>; 225],
}

/// An overlay entry with its number as an integer.
spec fn overlay_entry(e: Option<(usize, Side)>) -> Option<(int, Side)> {
    match e {
        None => None,
        Some((n, s)) => Some((n as int, s)),
    }
}

impl Overlay {
    spec fn shows(&self, line: Seq<Move>) -> bool {
        &&& self.cells@.len() == 225
        &&& forall|m: int| 0 <= m < 225 ==> overlay_entry(#[trigger] self.cells@[m]) == overlay_at(line, m)
    }

    fn new(line: &[Move]) -> (o: Overlay)
        ensures
            o.shows(line@),
    {
        let mut cells: [Option<(usize, Side)>; 225] = [None; 225];
        let mut i: usize = 0;
        while i < line.len()
            invariant
                i <= line.len(),
                cells@.len() == 225,
                forall|m: int|
                    0 <= m < 225 ==> overlay_entry(#[trigger] cells@[m]) == overlay_at(
                        line@.subrange(0, i as int),
                        m,
                    ),
            decreases line.len() - i,
        {
            let mv = line[i];
            let side = if i % 2 == 0 {
                Side::Attacker
            } else {
                Side::Defender
            };
            let ghost pre = line@.subrange(0, i as int);
            let ghost next = line@.subrange(0, i + 1);
            proof {
                assert(next.drop_last() =~= pre);
                assert(next.last() == mv);
            }
            cells[mv.index()] = Some((i + 1, side));
            proof {
                assert forall|m: int| 0 <= m < 225 implies overlay_entry(#[trigger] cells@[m])
                    == overlay_at(next, m) by {
                    if m != mv@ {
                        assert(overlay_at(next, m) == overlay_at(pre, m));
                    }
                }
            }
            i = i + 1;
        }
        proof {
            assert(line@.subrange(0, line@.len() as int) =~= line@);
        }
        Overlay { cells }
    }

    fn get(&self, mv: Move) -> (e: Option<(usize, Side)>)
        requires
            self.cells@.len() == 225,
        ensures
            e == self.cells@[mv@],
    {
        self.cells[mv.index()]
    }
}

/// Appends the ruler for cells `w` wide.
fn push_ruler(s: &mut String, w: usize)
    requires
        3 <= w <= 4,
    ensures
        final(s)@ == old(s)@ + ruler_text(w as nat),
{
    let ghost start = s@;
    push_str(s, "    ");
    let ghost after_margin = s@;
    let mut c: u64 = 0;
    while c < 15
        invariant
            c <= 15,
            3 <= w <= 4,
            s@ == after_margin + join(|k: int| centered(k as nat, w as nat), c as int),
        decreases 15 - c,
    {
        push_centered(s, c, w);
        proof {
            let f = |k: int| centered(k as nat, w as nat);
            assert(join(f, c + 1) == join(f, c as int) + f(c as int));
            assert(s@ =~= after_margin + join(f, c + 1));
        }
        c = c + 1;
    }
    push_str(s, "    ");
    proof {
        assert(s@ =~= start + ruler_text(w as nat));
    }
}

/// Appends the border for cells `w` wide.
fn push_border(s: &mut String, w: usize)
    requires
        3 <= w <= 4,
    ensures
        final(s)@ == old(s)@ + border_text(w as nat),
{
    let ghost start = s@;
    push_str(s, "   +");
    let ghost after = s@;
    let mut i: usize = 0;
    while i < w * 15
        invariant
            i <= w * 15,
            3 <= w <= 4,
            s@ == after + Seq::new(i as nat, |j: int| '-'),
        decreases w * 15 - i,
    {
        push_char(s, '-');
        proof {
            assert(after + Seq::new((i + 1) as nat, |j: int| '-') =~= (after + Seq::new(
                i as nat,
                |j: int| '-',
            )).push('-'));
        }
        i = i + 1;
    }
    push_str(s, "+   ");
    proof {
        assert(s@ =~= start + border_text(w as nat));
    }
}

/// Appends a plain cell.
fn push_plain_cell(s: &mut String, grid: &[Option<Color>; 225], last: Option<Move>, overlay: Option<&Overlay>, line: Ghost<Option<Seq<Move>>>, m: usize)
    requires
        m < 225,
        overlay is Some <==> line@ is Some,
        overlay matches Some(o) ==> o.shows(line@->0),
    ensures
        final(s)@ == old(s)@ + cell_text(grid@, last_cell_of(last), line@, m as int),
{
    let mv = Move::from_index(m);
    let g = match grid[m] {
        None => '.',
        Some(Color::Black) => 'x',
        Some(Color::White) => 'o',
    };
    let is_last = match last {
        Some(l) => l.same(mv),
        None => false,
    };
    match overlay {
        Some(o) => {
            match o.get(mv) {
                Some((n, side)) => {
                    let ghost start = s@;
                    proof {
                        o.shows_at(line@->0, m as int);
                    }
                    match side {
                        Side::Attacker => {
                            push_char(s, ' ');
                            push_decimal(s, n as u64);
                            if n < 10 {
                                push_str(s, "  ");
                            } else {
                                push_char(s, ' ');
                            }
                        },
                        Side::Defender => {
                            push_char(s, '[');
                            push_decimal(s, n as u64);
                            if n < 10 {
                                push_str(s, " ]");
                            } else {
                                push_char(s, ']');
                            }
                        },
                    }
                    proof {
                        assert(s@ =~= start + overlay_cell(n as int, side));
                    }
                },
                None => {
                    proof {
                        o.shows_at(line@->0, m as int);
                    }
                    if is_last {
                        push_char(s, '[');
                        push_char(s, g);
                        push_char(s, ' ');
                        push_char(s, ']');
                    } else {
                        push_char(s, ' ');
                        push_char(s, g);
                        push_char(s, ' ');
                        push_char(s, ' ');
                    }
                    proof {
                        assert(s@ =~= old(s)@ + wide_cell(g, is_last));
                    }
                },
            }
        },
        None => {
            if is_last {
                push_char(s, '[');
                push_char(s, g);
                push_char(s, ']');
            } else {
                push_char(s, ' ');
                push_char(s, g);
                push_char(s, ' ');
            }
            proof {
                assert(s@ =~= old(s)@ + plain_cell(g, is_last));
            }
        },
    }
}

/// The cell of an optional last move.
pub open spec fn last_cell_of(last: Option<Move>) -> Option<int> {
    match last {
        None => None,
        Some(m) => Some(m@),
    }
}

impl Overlay {
    proof fn shows_at(&self, line: Seq<Move>, m: int)
        requires
            self.shows(line),
            0 <= m < 225,
        ensures
            overlay_entry(self.cells@[m]) == overlay_at(line, m),
    {
    }
}

/// The plain lines of a frame.
fn plain_lines(grid: &[Option<Color>; 225], last: Option<Move>, overlay: Option<&Overlay>, line: Ghost<Option<Seq<Move>>>) -> (lines: Vec<String>)
    requires
        overlay is Some <==> line@ is Some,
        overlay matches Some(o) ==> o.shows(line@->0),
    ensures
        views(lines@) == plain_frame(grid@, last_cell_of(last), line@),
{
    let w: usize = match overlay {
        Some(_) => 4,
        None => 3,
    };
    let mut lines: Vec<String> = Vec::new();
    let mut ruler = String::new();
    push_ruler(&mut ruler, w);
    let mut border = String::new();
    push_border(&mut border, w);
    lines.push(text(ruler.as_str()));
    lines.push(text(border.as_str()));
    let mut r: usize = 0;
    while r < 15
        invariant
            r <= 15,
            w == width_for(line@),
            overlay is Some <==> line@ is Some,
            overlay matches Some(o) ==> o.shows(line@->0),
            lines@.len() == 2 + r,
            lines@[0]@ == ruler_text(w as nat),
            lines@[1]@ == border_text(w as nat),
            forall|k: int| 0 <= k < r ==> #[trigger] lines@[2 + k]@ == row_text(grid@, last_cell_of(last), line@, k),
        decreases 15 - r,
    {
        let mut row = String::new();
        push_right2(&mut row, r as u64);
        push_str(&mut row, " |");
        let ghost head = row@;
        let ghost f = |c: int| cell_text(grid@, last_cell_of(last), line@, r * 15 + c);
        let mut c: usize = 0;
        while c < 15
            invariant
                c <= 15,
                r < 15,
                overlay is Some <==> line@ is Some,
                overlay matches Some(o) ==> o.shows(line@->0),
                f == (|c: int| cell_text(grid@, last_cell_of(last), line@, r * 15 + c)),
                row@ == head + join(f, c as int),
            decreases 15 - c,
        {
            push_plain_cell(&mut row, grid, last, overlay, line, r * 15 + c);
            proof {
                assert(join(f, c + 1) == join(f, c as int) + f(c as int));
                assert(row@ =~= head + join(f, c + 1));
            }
            c = c + 1;
        }
        push_str(&mut row, "| ");
        push_left2(&mut row, r as u64);
        proof {
            assert(row@ =~= row_text(grid@, last_cell_of(last), line@, r as int));
        }
        lines.push(row);
        r = r + 1;
    }
    lines.push(border);
    lines.push(ruler);
    proof {
        let frame = plain_frame(grid@, last_cell_of(last), line@);
        assert forall|k: int| 0 <= k < 19 implies #[trigger] views(lines@)[k] == frame[k] by {
            if 2 <= k < 17 {
                assert(lines@[2 + (k - 2)]@ == row_text(grid@, last_cell_of(last), line@, k - 2));
            }
        }
        assert(views(lines@) =~= frame);
    }
    lines
}

/// The first character of a colored cell: a bracket for the last move and
/// for a defending move of the line, a space otherwise.
pub open spec fn cell_open(is_last: bool, mark: Option<(int, Side)>) -> char {
    match mark {
        Some((_, Side::Attacker)) => ' ',
        Some((_, Side::Defender)) => '[',
        None => if is_last {
            '['
        } else {
            ' '
        },
    }
}

/// The text a colored cell paints: the move number of the line, or the glyph.
pub open spec fn cell_inner(g: Option<Color>, mark: Option<(int, Side)>) -> Seq<char> {
    match mark {
        Some((n, _)) => decimal(n as nat),
        None => seq![glyph_of(g)],
    }
}

/// The characters that close a colored cell, padding it to its width.
pub open spec fn cell_close(is_last: bool, mark: Option<(int, Side)>, wide: bool) -> Seq<char> {
    match mark {
        Some((n, Side::Attacker)) => if n < 10 {
            "  "@
        } else {
            seq![' ']
        },
        Some((n, Side::Defender)) => if n < 10 {
            " ]"@
        } else {
            seq![']']
        },
        None => if is_last {
            if wide {
                " ]"@
            } else {
                seq![']']
            }
        } else {
            if wide {
                "  "@
            } else {
                seq![' ']
            }
        },
    }
}

/// The style a colored cell is painted in: the stone's, or for a move of
/// a shown line the color of the side that played it.
pub open spec fn cell_style(g: Option<Color>, mark: Option<(int, Side)>, winner: Color) -> Option<Color> {
    match mark {
        Some((_, Side::Attacker)) => Some(winner),
        Some((_, Side::Defender)) => Some(winner.opponent()),
        None => g,
    }
}

/// `cell` is a colored cell: its opening character, its text painted in its
/// style (see `painted_as`), and its closing characters.
pub open spec fn styled_cell_text(
    cell: Seq<char>,
    g: Option<Color>,
    is_last: bool,
    mark: Option<(int, Side)>,
    wide: bool,
    winner: Color,
) -> bool {
    exists|x: Seq<char>|
        painted_as(x, cell_inner(g, mark), cell_style(g, mark, winner)) && cell == seq![
            cell_open(is_last, mark),
        ] + x + cell_close(is_last, mark, wide)
}

/// Appends a colored cell, three or four characters wide.
fn push_styled_cell(s: &mut String, g: Option<Color>, is_last: bool, mark: Option<(usize, Side)>, winner: Color, wide: bool)
    ensures
        final(s)@.len() >= old(s)@.len(),
        final(s)@.subrange(0, old(s)@.len() as int) == old(s)@,
        styled_cell_text(
            final(s)@.subrange(old(s)@.len() as int, final(s)@.len() as int),
            g,
            is_last,
            overlay_entry(mark),
            wide,
            winner,
        ),
{
    let ghost start = s@;
    match mark {
        Some((n, side)) => {
            let number = crate::text::decimal_string(n as u64);
            let color = match side {
                Side::Attacker => winner,
                Side::Defender => winner.other(),
            };
            let styled = match color {
                Color::Black => paint_cyan_bold(number.as_str()),
                Color::White => paint_yellow(number.as_str()),
            };
            match side {
                Side::Attacker => {
                    push_char(s, ' ');
                    push_string(s, &styled);
                    if n < 10 {
                        push_str(s, "  ");
                    } else {
                        push_char(s, ' ');
                    }
                },
                Side::Defender => {
                    push_char(s, '[');
                    push_string(s, &styled);
                    if n < 10 {
                        push_str(s, " ]");
                    } else {
                        push_char(s, ']');
                    }
                },
            }
            proof {
                assert(number@ == cell_inner(g, overlay_entry(mark)));
                assert(painted_as(styled@, cell_inner(g, overlay_entry(mark)), cell_style(g, overlay_entry(mark), winner)));
                let cell = seq![cell_open(is_last, overlay_entry(mark))] + styled@ + cell_close(is_last, overlay_entry(mark), wide);
                assert(s@ =~= start + cell);
                assert(s@.subrange(0, start.len() as int) =~= start);
                assert(s@.subrange(start.len() as int, s@.len() as int) =~= cell);
                assert(styled_cell_text(cell, g, is_last, overlay_entry(mark), wide, winner));
            }
        },
        None => {
            let styled = styled_glyph(g);
            if is_last {
                push_char(s, '[');
                push_string(s, &styled);
                if wide {
                    push_str(s, " ]");
                } else {
                    push_char(s, ']');
                }
            } else {
                push_char(s, ' ');
                push_string(s, &styled);
                if wide {
                    push_str(s, "  ");
                } else {
                    push_char(s, ' ');
                }
            }
            proof {
                assert(cell_inner(g, overlay_entry(mark)) == seq![glyph_of(g)]);
                assert(painted_as(styled@, cell_inner(g, overlay_entry(mark)), cell_style(g, overlay_entry(mark), winner)));
                let cell = seq![cell_open(is_last, overlay_entry(mark))] + styled@ + cell_close(is_last, overlay_entry(mark), wide);
                assert(s@ =~= start + cell);
                assert(s@.subrange(0, start.len() as int) =~= start);
                assert(s@.subrange(start.len() as int, s@.len() as int) =~= cell);
                assert(styled_cell_text(cell, g, is_last, overlay_entry(mark), wide, winner));
            }
        },
    }
}

/// The colored lines of a frame.
fn styled_lines(
    grid: &[Option<Color>; 225],
    last: Option<Move>,
    overlay: Option<&Overlay>,
    line: Ghost<Option<Seq<Move>>>,
    winner: Color,
) -> (lines: Vec<String>)
    requires
        overlay is Some <==> line@ is Some,
        overlay matches Some(o) ==> o.shows(line@->0),
    ensures
        styled_frame(views(lines@), grid@, last_cell_of(last), line@, winner),
{
    let w: usize = match overlay {
        Some(_) => 4,
        None => 3,
    };
    let mut lines: Vec<String> = Vec::new();
    let mut ruler = String::new();
    push_ruler(&mut ruler, w);
    let mut border = String::new();
    push_border(&mut border, w);
    lines.push(text(ruler.as_str()));
    lines.push(text(border.as_str()));
    let mut r: usize = 0;
    while r < 15
        invariant
            r <= 15,
            w == width_for(line@),
            overlay is Some <==> line@ is Some,
            overlay matches Some(o) ==> o.shows(line@->0),
            lines@.len() == 2 + r,
            lines@[0]@ == ruler_text(w as nat),
            lines@[1]@ == border_text(w as nat),
            forall|k: int| 0 <= k < r ==> #[trigger] styled_row(views(lines@), grid@, last_cell_of(last), line@, winner, k),
        decreases 15 - r,
    {
        let mut row = String::new();
        push_right2(&mut row, r as u64);
        push_str(&mut row, " |");
        let ghost head = row@;
        let ghost mut cells: Seq<Seq<char>> = Seq::empty();
        let mut c: usize = 0;
        while c < 15
            invariant
                c <= 15,
                r < 15,
                overlay is Some <==> line@ is Some,
                overlay matches Some(o) ==> o.shows(line@->0),
                cells.len() == c,
                row@ == head + concat(cells),
                forall|k: int|
                    0 <= k < c ==> styled_cell_text(
                        #[trigger] cells[k],
                        grid@[r * 15 + k],
                        last_cell_of(last) == Some(r * 15 + k),
                        cell_mark(line@, r * 15 + k),
                        line@ is Some,
                        winner,
                    ),
            decreases 15 - c,
        {
            let m = r * 15 + c;
            let mv = Move::from_index(m);
            let is_last = match last {
                Some(l) => l.same(mv),
                None => false,
            };
            let mark = match overlay {
                Some(o) => o.get(mv),
                None => None,
            };
            proof {
                match overlay {
                    Some(o) => {
                        assert(overlay_entry(o.cells@[m as int]) == overlay_at(line@->0, m as int));
                    },
                    None => {},
                }
                assert(overlay_entry(mark) == cell_mark(line@, m as int));
                assert(is_last == (last_cell_of(last) == Some(m as int)));
            }
            let ghost before = row@;
            push_styled_cell(&mut row, grid[m], is_last, mark, winner, overlay.is_some());
            proof {
                let cell = row@.subrange(before.len() as int, row@.len() as int);
                let next = cells.push(cell);
                assert(next.drop_last() =~= cells);
                assert(row@ =~= before + cell);
                assert(row@ =~= head + concat(next));
                assert forall|k: int|
                    0 <= k < c + 1 implies styled_cell_text(
                    #[trigger] next[k],
                    grid@[r * 15 + k],
                    last_cell_of(last) == Some(r * 15 + k),
                    cell_mark(line@, r * 15 + k),
                    line@ is Some,
                    winner,
                ) by {
                    if k < c {
                        assert(next[k] == cells[k]);
                    }
                }
                cells = next;
            }
            c = c + 1;
        }
        push_str(&mut row, "| ");
        push_left2(&mut row, r as u64);
        let ghost old_lines = lines@;
        lines.push(row);
        proof {
            assert(styled_cells(cells, grid@, last_cell_of(last), line@, winner, r as int));
            assert(views(lines@)[2 + r] =~= right2(r as nat) + " |"@ + concat(cells) + "| "@ + left2(
                r as nat,
            ));
            assert forall|k: int| 0 <= k < r + 1 implies #[trigger] styled_row(
                views(lines@),
                grid@,
                last_cell_of(last),
                line@,
                winner,
                k,
            ) by {
                if k < r {
                    assert(styled_row(views(old_lines), grid@, last_cell_of(last), line@, winner, k));
                    assert(views(lines@)[2 + k] == views(old_lines)[2 + k]);
                    let cs = choose|cs: Seq<Seq<char>>|
                        #[trigger] styled_cells(cs, grid@, last_cell_of(last), line@, winner, k)
                            && views(old_lines)[2 + k] == right2(k as nat) + " |"@ + concat(cs)
                            + "| "@ + left2(k as nat);
                    assert(styled_cells(cs, grid@, last_cell_of(last), line@, winner, k));
                } else {
                    assert(styled_cells(cells, grid@, last_cell_of(last), line@, winner, k));
                }
            }
        }
        r = r + 1;
    }
    let ghost before_tail = lines@;
    lines.push(border);
    lines.push(ruler);
    proof {
        assert forall|k: int| 0 <= k < 15 implies #[trigger] styled_row(
            views(lines@),
            grid@,
            last_cell_of(last),
            line@,
            winner,
            k,
        ) by {
            assert(styled_row(views(before_tail), grid@, last_cell_of(last), line@, winner, k));
            assert(views(lines@)[2 + k] == views(before_tail)[2 + k]);
            let cs = choose|cs: Seq<Seq<char>>|
                #[trigger] styled_cells(cs, grid@, last_cell_of(last), line@, winner, k) && views(
                    before_tail,
                )[2 + k] == right2(k as nat) + " |"@ + concat(cs) + "| "@ + left2(k as nat);
            assert(styled_cells(cs, grid@, last_cell_of(last), line@, winner, k));
        }
    }
    lines
}

/// The last move of a board, if any.
fn last_move<B: GameBoard>(board: &B) -> (l: Option<Move>)
    requires
        board.inv(),
    ensures
        last_cell_of(l) == last_cell(board.pos().moves),
{
    let ms = board.moves();
    if ms.len() == 0 {
        None
    } else {
        Some(ms[ms.len() - 1])
    }
}

/// Plain ASCII frame of a board.
pub fn render_lines<B: GameBoard>(board: &B) -> (lines: Vec<String>)
    requires
        board.inv(),
    ensures
        views(lines@) == plain_frame(grid_of(board.pos()), last_cell(board.pos().moves), None),
{
    let grid = board_grid(board);
    let last = last_move(board);
    plain_lines(&grid, last, None, Ghost(None))
}

/// Colored frame of a board.
pub fn render_styled<B: GameBoard>(board: &B) -> (lines: Vec<String>)
    requires
        board.inv(),
    ensures
        styled_frame(views(lines@), grid_of(board.pos()), last_cell(board.pos().moves), None, Color::Black),
{
    let grid = board_grid(board);
    let last = last_move(board);
    styled_lines(&grid, last, None, Ghost(None), Color::Black)
}

/// The status line below a board.
pub open spec fn status_text(p: Position, name: Seq<char>) -> Seq<char> {
    match p.status {
        Status::Ongoing => "engine: "@ + name + " \u{b7} move "@ + decimal(p.moves.len()) + " \u{b7} "@
            + color_word(p.to_move) + " to move"@,
        Status::Won(c) => color_word(c) + " wins! \u{2014} type 'new' to start over"@,
        Status::Draw => "Draw! \u{2014} type 'new' to start over"@,
    }
}

/// One line of context for below the board.
pub fn status_line<B: GameBoard>(board: &B) -> (s: String)
    requires
        board.inv(),
    ensures
        s@ == status_text(board.pos(), board.engine_name()),
{
    match board.status() {
        Status::Ongoing => {
            let mut s = text("engine: ");
            push_str(&mut s, board.name());
            push_str(&mut s, " \u{b7} move ");
            push_decimal(&mut s, board.moves().len() as u64);
            push_str(&mut s, " \u{b7} ");
            push_str(&mut s, color_name(board.to_move()));
            push_str(&mut s, " to move");
            s
        },
        Status::Won(c) => {
            let mut s = text(color_name(c));
            push_str(&mut s, " wins! \u{2014} type 'new' to start over");
            s
        },
        Status::Draw => text("Draw! \u{2014} type 'new' to start over"),
    }
}

/// Plain frame of a Swap2 opening.
pub fn render_opening_lines(state: &OpeningState) -> (lines: Vec<String>)
    ensures
        views(lines@) == plain_frame(
            opening_grid(state@.placements),
            last_placement(state@.placements),
            None,
        ),
{
    let ps = state.placements();
    let grid = placement_grid(ps);
    let last = if ps.len() == 0 {
        None
    } else {
        Some(ps[ps.len() - 1].0)
    };
    plain_lines(&grid, last, None, Ghost(None))
}

/// Colored frame of a Swap2 opening.
pub fn render_opening_styled(state: &OpeningState) -> (lines: Vec<String>)
    ensures
        styled_frame(
            views(lines@),
            opening_grid(state@.placements),
            last_placement(state@.placements),
            None,
            Color::Black,
        ),
{
    let ps = state.placements();
    let grid = placement_grid(ps);
    let last = if ps.len() == 0 {
        None
    } else {
        Some(ps[ps.len() - 1].0)
    };
    styled_lines(&grid, last, None, Ghost(None), Color::Black)
}

/// Plain frame of a board with a proven line overlaid as numbered cells.
pub fn render_lines_with_overlay<B: GameBoard>(board: &B, proof: &Proof) -> (lines: Vec<String>)
    requires
        board.inv(),
    ensures
        views(lines@) == plain_frame(
            grid_of(board.pos()),
            last_cell(board.pos().moves),
            Some(proof.line@),
        ),
{
    let overlay = Overlay::new(proof.line.as_slice());
    let grid = board_grid(board);
    let last = last_move(board);
    plain_lines(&grid, last, Some(&overlay), Ghost(Some(proof.line@)))
}

/// Colored frame of a board with a proven line overlaid as numbered cells,
/// the winner's moves in the winner's color.
pub fn render_styled_with_overlay<B: GameBoard>(board: &B, proof: &Proof) -> (lines: Vec<String>)
    requires
        board.inv(),
    ensures
        styled_frame(
            views(lines@),
            grid_of(board.pos()),
            last_cell(board.pos().moves),
            Some(proof.line@),
            proof.winner,
        ),
{
    let overlay = Overlay::new(proof.line.as_slice());
    let grid = board_grid(board);
    let last = last_move(board);
    styled_lines(&grid, last, Some(&overlay), Ghost(Some(proof.line@)), proof.winner)
}

/// The verdict shown with a proof overlay.
pub open spec fn verdict_text(winner: Color, plies: nat) -> Seq<char> {
    "certified forced win for "@ + color_word(winner) + " in "@ + decimal(plies) + " ply"@
}

/// Verdict text for a proof overlay.
pub fn overlay_verdict(proof: &Proof) -> (s: String)
    ensures
        s@ == verdict_text(proof.winner, proof.line@.len()),
{
    let mut s = text("certified forced win for ");
    push_str(&mut s, color_name(proof.winner));
    push_str(&mut s, " in ");
    push_decimal(&mut s, proof.line.len() as u64);
    push_str(&mut s, " ply");
    s
}


/// Pieces of width `w` join into `n * w` characters.
proof fn lemma_join_len(f: spec_fn(int) -> Seq<char>, n: int, w: int)
    requires
        0 <= n,
        forall|i: int| 0 <= i < n ==> (#[trigger] f(i)).len() == w,
    ensures
        join(f, n).len() == n * w,
    decreases n,
{
    if n > 0 {
        lemma_join_len(f, n - 1, w);
        assert(join(f, n).len() == join(f, n - 1).len() + f(n - 1).len());
        assert((n - 1) * w + w == n * w) by (nonlinear_arith);
    } else {
        assert(n * w == 0) by (nonlinear_arith)
            requires
                n == 0,
        ;
    }
}

/// A number below 100 centered in 3 or 4 characters takes exactly that.
proof fn lemma_centered_len(c: nat, w: nat)
    requires
        c < 100,
        3 <= w <= 4,
    ensures
        centered(c, w).len() == w,
{
    crate::text::lemma_decimal_len(c);
}

/// A numbered overlay cell below 100 is four characters wide.
proof fn lemma_overlay_cell_len(n: int, side: Side)
    requires
        1 <= n < 100,
    ensures
        overlay_cell(n, side).len() == 4,
{
    reveal_strlit("  ");
    reveal_strlit(" ]");
    crate::text::lemma_decimal_len(n as nat);
}

/// Overlay numbers are between 1 and the length of the line.
proof fn lemma_overlay_bound(line: Seq<Move>, m: int)
    ensures
        overlay_at(line, m) matches Some((n, _)) ==> 1 <= n <= line.len(),
    decreases line.len(),
{
    if line.len() > 0 && line.last()@ != m {
        lemma_overlay_bound(line.drop_last(), m);
    }
}

/// Every line of a plain frame has the same width: 53 characters for the
/// plain board, 68 with an overlay of fewer than 100 moves.
pub proof fn lemma_frame_width(grid: Seq<Option<Color>>, last: Option<int>, line: Option<Seq<Move>>)
    requires
        line matches Some(l) ==> l.len() < 100,
    ensures
        plain_frame(grid, last, line).len() == 19,
        forall|k: int|
            0 <= k < 19 ==> (#[trigger] plain_frame(grid, last, line)[k]).len() == 8 + 15 * width_for(
                line,
            ),
{
    reveal_strlit("    ");
    reveal_strlit("   +");
    reveal_strlit("+   ");
    reveal_strlit(" |");
    reveal_strlit("| ");
    let w = width_for(line);
    let frame = plain_frame(grid, last, line);
    let rf = |c: int| centered(c as nat, w);
    assert forall|i: int| 0 <= i < 15 implies (#[trigger] rf(i)).len() == w by {
        lemma_centered_len(i as nat, w);
    }
    lemma_join_len(rf, 15, w as int);
    assert(ruler_text(w).len() == 8 + 15 * w);
    assert(border_text(w).len() == 8 + 15 * w);
    assert forall|r: int| 0 <= r < 15 implies (#[trigger] row_text(grid, last, line, r)).len() == 8
        + 15 * w by {
        let cf = |c: int| cell_text(grid, last, line, r * 15 + c);
        assert forall|c: int| 0 <= c < 15 implies (#[trigger] cf(c)).len() == w by {
            match line {
                None => {},
                Some(l) => {
                    lemma_overlay_bound(l, r * 15 + c);
                    match overlay_at(l, r * 15 + c) {
                        Some((n, side)) => lemma_overlay_cell_len(n, side),
                        None => {},
                    }
                },
            }
        }
        lemma_join_len(cf, 15, w as int);
        crate::text::lemma_decimal_len(r as nat);
    }
    assert forall|k: int| 0 <= k < 19 implies (#[trigger] frame[k]).len() == 8 + 15 * w by {
        if 2 <= k < 17 {
            assert(frame[k] == row_text(grid, last, line, k - 2));
        }
    }
}

} // verus!
