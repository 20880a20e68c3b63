//! Command parsing: one line of user input to a `Command`, or the message
//! to show instead.
use vstd::prelude::*;
use vstd::string::StrSliceExecFns;
use crate::moveset::Move;
use crate::text::{
    decimal,
    lowercase_text,
    lowercased,
    push_char,
    push_decimal,
    push_str,
    str_eq,
    text,
    trim_text,
    trimmed,
};

verus! {

/// One user action.
#[derive(Debug, Clone, Copy, PartialEq, Eq, Structural)]
pub enum Command {
    Play(Move),
    Undo,
    Redo,
    New,
    Quit,
    Help,
    /// Swap2: take Black.
    TakeBlack,
    /// Swap2: take White.
    TakeWhite,
    /// Swap2: place two more stones instead of choosing a color.
    AddStones,
    /// Confirm a full placement phase and move to the choice prompt.
    Done,
    /// Run the threat-space search demo overlay.
    Tss,
    /// Puzzle mode: step forward through the claimed solution line.
    SolutionStep,
    /// Puzzle mode: next sample.
    NextPuzzle,
    /// Puzzle mode: previous sample.
    PrevPuzzle,
}

/// The usage hint shown for input that is neither a keyword nor a move.
pub open spec fn usage_text() -> Seq<char> {
    "usage: <row> <col> (0-14) \u{b7} 'h' help \u{b7} 'q' quit"@
}

/// The message for a move off the board.
pub open spec fn off_board_text(row: u8, col: u8) -> Seq<char> {
    "("@ + decimal(row as nat) + ", "@ + decimal(col as nat) + ") is off the board \u{2014} coordinates are 0-14"@
}

/// The command a keyword names.
pub open spec fn keyword_command(t: Seq<char>) -> Option<Command> {
    if t == "q"@ || t == "quit"@ || t == "exit"@ {
        Some(Command::Quit)
    } else if t == "u"@ || t == "undo"@ {
        Some(Command::Undo)
    } else if t == "r"@ || t == "redo"@ {
        Some(Command::Redo)
    } else if t == "s"@ || t == "step"@ {
        Some(Command::SolutionStep)
    } else if t == "new"@ {
        Some(Command::New)
    } else if t == "h"@ || t == "help"@ || t == "?"@ {
        Some(Command::Help)
    } else if t == "b"@ {
        Some(Command::TakeBlack)
    } else if t == "w"@ {
        Some(Command::TakeWhite)
    } else if t == "a"@ {
        Some(Command::AddStones)
    } else if t == "d"@ {
        Some(Command::Done)
    } else if t == "t"@ {
        Some(Command::Tss)
    } else if t == "n"@ {
        Some(Command::NextPuzzle)
    } else if t == "p"@ {
        Some(Command::PrevPuzzle)
    } else {
        None
    }
}

/// The words that name each command, as the help texts advertise them
/// ('s' solution step, 'u' undo, 'r' redo, 'n' next, 'p' previous, 't' TSS
/// demo, 'new', 'q' quit, 'd' done, 'b' take Black, 'w' take White, 'a' add
/// two stones, 'h' help), with their long forms.
pub open spec fn keywords_of(c: Command) -> Set<Seq<char>> {
    match c {
        Command::Quit => set!["q"@, "quit"@, "exit"@],
        Command::Undo => set!["u"@, "undo"@],
        Command::Redo => set!["r"@, "redo"@],
        Command::SolutionStep => set!["s"@, "step"@],
        Command::New => set!["new"@],
        Command::Help => set!["h"@, "help"@, "?"@],
        Command::TakeBlack => set!["b"@],
        Command::TakeWhite => set!["w"@],
        Command::AddStones => set!["a"@],
        Command::Done => set!["d"@],
        Command::Tss => set!["t"@],
        Command::NextPuzzle => set!["n"@],
        Command::PrevPuzzle => set!["p"@],
        Command::Play(_) => Set::empty(),
    }
}

/// Each word a command is named by reads as that command, and no other
/// word reads as a command without coordinates: a line that is a keyword
/// parses to the command the help texts give it.
pub proof fn lemma_keywords(c: Command, t: Seq<char>)
    ensures
        keywords_of(c).contains(t) ==> command_of(t) == Ok::<Command, Seq<char>>(c),
        keyword_command(t) == Some(c) <==> keywords_of(c).contains(t),
{
    reveal_strlit("q");
    reveal_strlit("quit");
    reveal_strlit("exit");
    reveal_strlit("u");
    reveal_strlit("undo");
    reveal_strlit("r");
    reveal_strlit("redo");
    reveal_strlit("s");
    reveal_strlit("step");
    reveal_strlit("new");
    reveal_strlit("h");
    reveal_strlit("help");
    reveal_strlit("?");
    reveal_strlit("b");
    reveal_strlit("w");
    reveal_strlit("a");
    reveal_strlit("d");
    reveal_strlit("t");
    reveal_strlit("n");
    reveal_strlit("p");
    assert("q"@ =~= seq!['q']);
    assert("quit"@ =~= seq!['q', 'u', 'i', 't']);
    assert("exit"@ =~= seq!['e', 'x', 'i', 't']);
    assert("u"@ =~= seq!['u']);
    assert("undo"@ =~= seq!['u', 'n', 'd', 'o']);
    assert("r"@ =~= seq!['r']);
    assert("redo"@ =~= seq!['r', 'e', 'd', 'o']);
    assert("s"@ =~= seq!['s']);
    assert("step"@ =~= seq!['s', 't', 'e', 'p']);
    assert("new"@ =~= seq!['n', 'e', 'w']);
    assert("h"@ =~= seq!['h']);
    assert("help"@ =~= seq!['h', 'e', 'l', 'p']);
    assert("?"@ =~= seq!['?']);
    assert("b"@ =~= seq!['b']);
    assert("w"@ =~= seq!['w']);
    assert("a"@ =~= seq!['a']);
    assert("d"@ =~= seq!['d']);
    assert("t"@ =~= seq!['t']);
    assert("n"@ =~= seq!['n']);
    assert("p"@ =~= seq!['p']);
    assert forall|x: char, y: char| x != y implies #[trigger] seq![x] != #[trigger] seq![y] by {
        assert(seq![x][0] != seq![y][0]);
    }
    assert(keyword_command("q"@) == Some(Command::Quit));
    assert(keyword_command("quit"@) == Some(Command::Quit));
    assert(keyword_command("exit"@) == Some(Command::Quit));
    assert(keyword_command("u"@) == Some(Command::Undo));
    assert(keyword_command("undo"@) == Some(Command::Undo));
    assert(keyword_command("r"@) == Some(Command::Redo));
    assert(keyword_command("redo"@) == Some(Command::Redo));
    assert(keyword_command("s"@) == Some(Command::SolutionStep));
    assert(keyword_command("step"@) == Some(Command::SolutionStep));
    assert(keyword_command("new"@) == Some(Command::New));
    assert(keyword_command("h"@) == Some(Command::Help));
    assert(keyword_command("help"@) == Some(Command::Help));
    assert(keyword_command("?"@) == Some(Command::Help));
    assert(keyword_command("b"@) == Some(Command::TakeBlack));
    assert(keyword_command("w"@) == Some(Command::TakeWhite));
    assert(keyword_command("a"@) == Some(Command::AddStones));
    assert(keyword_command("d"@) == Some(Command::Done));
    assert(keyword_command("t"@) == Some(Command::Tss));
    assert(keyword_command("n"@) == Some(Command::NextPuzzle));
    assert(keyword_command("p"@) == Some(Command::PrevPuzzle));
}

/// The separators between coordinates.
pub open spec fn is_sep(c: char) -> bool {
    c == ',' || c == ' '
}

/// Splitting `t` at separators: the finished fields and the field still
/// open at the end.
pub open spec fn split_state(t: Seq<char>) -> (Seq<Seq<char>>, Seq<char>)
    decreases t.len(),
{
    if t.len() == 0 {
        (Seq::empty(), Seq::empty())
    } else {
        let (done, cur) = split_state(t.drop_last());
        if is_sep(t.last()) {
            (
                if cur.len() > 0 {
                    done.push(cur)
                } else {
                    done
                },
                Seq::empty(),
            )
        } else {
            (done, cur.push(t.last()))
        }
    }
}

/// The non-empty fields of `t` between separators.
pub open spec fn fields(t: Seq<char>) -> Seq<Seq<char>> {
    let (done, cur) = split_state(t);
    if cur.len() > 0 {
        done.push(cur)
    } else {
        done
    }
}

/// The value of a decimal digit character.
pub open spec fn digit_of(c: char) -> Option<int> {
    if c == '0' {
        Some(0)
    } else if c == '1' {
        Some(1)
    } else if c == '2' {
        Some(2)
    } else if c == '3' {
        Some(3)
    } else if c == '4' {
        Some(4)
    } else if c == '5' {
        Some(5)
    } else if c == '6' {
        Some(6)
    } else if c == '7' {
        Some(7)
    } else if c == '8' {
        Some(8)
    } else if c == '9' {
        Some(9)
    } else {
        None
    }
}

/// Every character of `d` is a decimal digit.
pub open spec fn all_digits(d: Seq<char>) -> bool {
    forall|i: int| 0 <= i < d.len() ==> (#[trigger] digit_of(d[i])) is Some
}

/// The number a string of decimal digits spells.
pub open spec fn digits_value(d: Seq<char>) -> int
    decreases d.len(),
{
    if d.len() == 0 {
        0
    } else {
        digits_value(d.drop_last()) * 10 + digit_of(d.last())->0
    }
}

/// A number in decimal, as `str::parse` reads unsigned integers: an
/// optional `+`, then at least one digit, the value at most `max`.
pub open spec fn bounded_value(s: Seq<char>, max: int) -> Option<int> {
    let d = if s.len() > 0 && s[0] == '+' {
        s.subrange(1, s.len() as int)
    } else {
        s
    };
    if d.len() > 0 && all_digits(d) && digits_value(d) <= max {
        Some(digits_value(d))
    } else {
        None
    }
}

/// A `u8` in decimal.
pub open spec fn u8_of(s: Seq<char>) -> Option<u8> {
    match bounded_value(s, 255) {
        Some(v) => Some(v as u8),
        None => None,
    }
}

/// A `usize` in decimal.
pub open spec fn usize_of(s: Seq<char>) -> Option<usize> {
    match bounded_value(s, usize::MAX as int) {
        Some(v) => Some(v as usize),
        None => None,
    }
}

/// The views of a list of strings.
pub open spec fn views(v: Seq<String>) -> Seq<Seq<char>> {
    Seq::new(v.len(), |k: int| v[k]@)
}

fn digit_value(c: char) -> (d: Option<u32>)
    ensures
        match digit_of(c) {
            Some(x) => d == Some(x as u32),
            None => d is None,
        },
{
    if c == '0' {
        Some(0)
    } else if c == '1' {
        Some(1)
    } else if c == '2' {
        Some(2)
    } else if c == '3' {
        Some(3)
    } else if c == '4' {
        Some(4)
    } else if c == '5' {
        Some(5)
    } else if c == '6' {
        Some(6)
    } else if c == '7' {
        Some(7)
    } else if c == '8' {
        Some(8)
    } else if c == '9' {
        Some(9)
    } else {
        None
    }
}

proof fn lemma_digits_value_nonneg(d: Seq<char>)
    requires
        all_digits(d),
    ensures
        digits_value(d) >= 0,
    decreases d.len(),
{
    if d.len() > 0 {
        assert(all_digits(d.drop_last())) by {
            assert forall|i: int| 0 <= i < d.drop_last().len() implies (#[trigger] digit_of(
                d.drop_last()[i],
            )) is Some by {
                assert(d.drop_last()[i] == d[i]);
            }
        }
        lemma_digits_value_nonneg(d.drop_last());
        assert(digit_of(d[d.len() - 1]) is Some);
    }
}

/// Reads a number written in decimal, at most `max` (see `bounded_value`).
pub fn parse_bounded(s: &str, max: u64) -> (r: Option<u64>)
    ensures
        match bounded_value(s@, max as int) {
            Some(v) => 0 <= v <= max && r == Some(v as u64),
            None => r is None,
        },
{
    let n = s.unicode_len();
    let start: usize = if n > 0 && s.get_char(0) == '+' {
        1
    } else {
        0
    };
    let ghost d = if s@.len() > 0 && s@[0] == '+' {
        s@.subrange(1, s@.len() as int)
    } else {
        s@
    };
    proof {
        assert(d =~= s@.subrange(start as int, n as int));
    }
    if start == n {
        return None;
    }
    let mut value: u128 = 0;
    let mut big = false;
    let mut i = start;
    while i < n
        invariant
            start <= i <= n,
            n == s@.len(),
            d == s@.subrange(start as int, n as int),
            d == (if s@.len() > 0 && s@[0] == '+' {
                s@.subrange(1, s@.len() as int)
            } else {
                s@
            }),
            all_digits(s@.subrange(start as int, i as int)),
            !big ==> value == digits_value(s@.subrange(start as int, i as int)) && value <= max,
            big ==> digits_value(s@.subrange(start as int, i as int)) > max,
        decreases n - i,
    {
        let ghost pre = s@.subrange(start as int, i as int);
        let ghost next = s@.subrange(start as int, i + 1);
        let c = s.get_char(i);
        proof {
            assert(next.drop_last() =~= pre);
            assert(next.last() == c);
            assert forall|j: int| 0 <= j < pre.len() implies pre[j] == next[j] by {}
        }
        match digit_value(c) {
            None => {
                proof {
                    assert(d[i - start] == c);
                    assert(digit_of(d[i - start]) is None);
                    assert(!all_digits(d));
                }
                return None;
            },
            Some(x) => {
                proof {
                    assert(all_digits(next)) by {
                        assert forall|j: int| 0 <= j < next.len() implies (#[trigger] digit_of(
                            next[j],
                        )) is Some by {
                            if j < pre.len() {
                                assert(next[j] == pre[j]);
                            }
                        }
                    }
                    lemma_digits_value_nonneg(pre);
                }
                if !big {
                    value = value * 10 + x as u128;
                    if value > max as u128 {
                        big = true;
                    }
                }
            },
        }
        i = i + 1;
    }
    proof {
        assert(s@.subrange(start as int, n as int) =~= d);
        if all_digits(d) {
            lemma_digits_value_nonneg(d);
        }
    }
    if big {
        None
    } else {
        Some(value as u64)
    }
}

/// Reads a `u8` written in decimal (see `u8_of`).
pub fn parse_u8(s: &str) -> (r: Option<u8>)
    ensures
        r == u8_of(s@),
{
    match parse_bounded(s, 255) {
        Some(v) => Some(v as u8),
        None => None,
    }
}

/// Reads a `usize` written in decimal (see `usize_of`).
pub fn parse_usize(s: &str) -> (r: Option<usize>)
    ensures
        r == usize_of(s@),
{
    match parse_bounded(s, usize::MAX as u64) {
        Some(v) => Some(v as usize),
        None => None,
    }
}



/// The usage hint.
fn usage() -> (s: String)
    ensures
        s@ == usage_text(),
{
    text("usage: <row> <col> (0-14) \u{b7} 'h' help \u{b7} 'q' quit")
}

/// The keyword command `t` names, if any.
fn keyword(t: &str) -> (c: Option<Command>)
    ensures
        c == keyword_command(t@),
{
    if str_eq(t, "q") || str_eq(t, "quit") || str_eq(t, "exit") {
        Some(Command::Quit)
    } else if str_eq(t, "u") || str_eq(t, "undo") {
        Some(Command::Undo)
    } else if str_eq(t, "r") || str_eq(t, "redo") {
        Some(Command::Redo)
    } else if str_eq(t, "s") || str_eq(t, "step") {
        Some(Command::SolutionStep)
    } else if str_eq(t, "new") {
        Some(Command::New)
    } else if str_eq(t, "h") || str_eq(t, "help") || str_eq(t, "?") {
        Some(Command::Help)
    } else if str_eq(t, "b") {
        Some(Command::TakeBlack)
    } else if str_eq(t, "w") {
        Some(Command::TakeWhite)
    } else if str_eq(t, "a") {
        Some(Command::AddStones)
    } else if str_eq(t, "d") {
        Some(Command::Done)
    } else if str_eq(t, "t") {
        Some(Command::Tss)
    } else if str_eq(t, "n") {
        Some(Command::NextPuzzle)
    } else if str_eq(t, "p") {
        Some(Command::PrevPuzzle)
    } else {
        None
    }
}

/// The non-empty fields of `t` between commas and spaces.
pub fn split_fields(t: &str) -> (v: Vec<String>)
    ensures
        views(v@) == fields(t@),
{
    let n = t.unicode_len();
    let mut done: Vec<String> = Vec::new();
    let mut cur = String::new();
    let mut i: usize = 0;
    proof {
        assert(t@.subrange(0, 0) =~= Seq::<char>::empty());
        assert(views(done@) =~= Seq::<Seq<char>>::empty());
    }
    while i < n
        invariant
            i <= n,
            n == t@.len(),
            (views(done@), cur@) == split_state(t@.subrange(0, i as int)),
        decreases n - i,
    {
        let c = t.get_char(i);
        let ghost pre = t@.subrange(0, i as int);
        let ghost next = t@.subrange(0, i + 1);
        proof {
            assert(next.drop_last() =~= pre);
            assert(next.last() == c);
        }
        let ghost old_done = done@;
        let ghost old_cur = cur@;
        if c == ',' || c == ' ' {
            if cur.unicode_len() > 0 {
                done.push(cur);
                proof {
                    assert(views(done@) =~= views(old_done).push(old_cur));
                }
            }
            cur = String::new();
        } else {
            push_char(&mut cur, c);
        }
        i = i + 1;
    }
    proof {
        assert(t@.subrange(0, n as int) =~= t@);
    }
    if cur.unicode_len() > 0 {
        let ghost old_done = done@;
        let ghost old_cur = cur@;
        done.push(cur);
        proof {
            assert(views(done@) =~= views(old_done).push(old_cur));
        }
    }
    done
}

/// The outcome of parsing a trimmed, lowercased line.
pub open spec fn command_of(t: Seq<char>) -> Result<Command, Seq<char>> {
    match keyword_command(t) {
        Some(c) => Ok(c),
        None => {
            let f = fields(t);
            if f.len() != 2 || u8_of(f[0]) is None || u8_of(f[1]) is None {
                Err(usage_text())
            } else {
                let row = u8_of(f[0])->0;
                let col = u8_of(f[1])->0;
                if row < 15 && col < 15 {
                    Ok(Command::Play(Move::at(row as int, col as int)))
                } else {
                    Err(off_board_text(row, col))
                }
            }
        },
    }
}

/// The result matches `command_of`, the error message compared as text.
pub open spec fn parsed_as(r: Result<Command, String>, o: Result<Command, Seq<char>>) -> bool {
    match o {
        Ok(c) => r == Ok::<Command, String>(c),
        Err(m) => r matches Err(e) && e@ == m,
    }
}

/// Parses a line that is already trimmed and lowercased: a keyword, or a
/// row and a column separated by commas or spaces.
pub fn parse_command(t: &str) -> (r: Result<Command, String>)
    ensures
        parsed_as(r, command_of(t@)),
{
    match keyword(t) {
        Some(c) => {
            return Ok(c);
        },
        None => {},
    }
    let parts = split_fields(t);
    if parts.len() != 2 {
        return Err(usage());
    }
    proof {
        assert(views(parts@)[0] == parts@[0]@);
        assert(views(parts@)[1] == parts@[1]@);
    }
    let row = match parse_u8(parts[0].as_str()) {
        Some(v) => v,
        None => {
            return Err(usage());
        },
    };
    let col = match parse_u8(parts[1].as_str()) {
        Some(v) => v,
        None => {
            return Err(usage());
        },
    };
    match Move::new(row, col) {
        Some(mv) => {
            proof {
                Move::lemma_at(mv, row as int, col as int);
            }
            Ok(Command::Play(mv))
        },
        None => {
            let mut msg = text("(");
            push_decimal(&mut msg, row as u64);
            push_str(&mut msg, ", ");
            push_decimal(&mut msg, col as u64);
            push_str(&mut msg, ") is off the board \u{2014} coordinates are 0-14");
            Err(msg)
        },
    }
}

/// Parses one line of user input: it is trimmed and lowercased, then read
/// as a keyword or a move (see `command_of`). Never panics; typos become
/// messages.
pub fn parse(input: &str) -> (r: Result<Command, String>)
    ensures
        parsed_as(r, command_of(lowercased(trimmed(input@)))),
{
    let trimmed_text = trim_text(input);
    let lower = lowercase_text(trimmed_text.as_str());
    parse_command(lower.as_str())
}

} // verus!
