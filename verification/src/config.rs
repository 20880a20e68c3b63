//! Command-line options of the game: engine, plain output, the Swap2
//! opening and puzzle mode.
use vstd::prelude::*;
use crate::game_board::EngineKind;
use crate::input::{parse_usize, usize_of};
use crate::text::{decimal, push_decimal, push_str, push_string, str_eq, text};

verus! {

/// The usage text.
pub open spec fn usage_text() -> Seq<char> {
    "usage: gomoku [--engine naive|fast] [--plain] [--no-swap2] [--puzzle <path> [--index N]]\n\nSwap2 opening is only available with the fast engine; use --no-swap2 to start from an empty board with any engine. Puzzle mode skips the opening entirely."@
}

/// The usage text.
pub fn usage() -> (s: &'static str)
    ensures
        s@ == usage_text(),
{
    "usage: gomoku [--engine naive|fast] [--plain] [--no-swap2] [--puzzle <path> [--index N]]\n\nSwap2 opening is only available with the fast engine; use --no-swap2 to start from an empty board with any engine. Puzzle mode skips the opening entirely."
}

/// What the command line asks for.
#[derive(Debug)]
pub enum Config {
    /// Play a game.
    Play { kind: EngineKind, plain: bool, swap2: bool },
    /// Browse the puzzles of a file.
    Puzzle { path: String, index: usize, plain: bool },
    /// Print the usage text.
    Help,
}

/// A `Config` with its path as characters.
pub enum ConfigView {
    Play { kind: EngineKind, plain: bool, swap2: bool },
    Puzzle { path: Seq<char>, index: usize, plain: bool },
    Help,
}

impl View for Config {
    type V = ConfigView;

    open spec fn view(&self) -> ConfigView {
        match self {
            Config::Play { kind, plain, swap2 } => ConfigView::Play {
                kind: *kind,
                plain: *plain,
                swap2: *swap2,
            },
            Config::Puzzle { path, index, plain } => ConfigView::Puzzle {
                path: path@,
                index: *index,
                plain: *plain,
            },
            Config::Help => ConfigView::Help,
        }
    }
}

/// The options read so far.
pub struct ArgState {
    pub kind: EngineKind,
    pub plain: bool,
    pub swap2: bool,
    pub path: Option<Seq<char>>,
    pub index: Option<usize>,
}

/// The defaults: fast engine, colored output, Swap2, no puzzle.
pub open spec fn default_args() -> ArgState {
    ArgState { kind: EngineKind::Fast, plain: false, swap2: true, path: None, index: None }
}

/// The configuration the options read ask for: a puzzle file if one was
/// named (index 0 unless given), else a game.
pub open spec fn finish_args(st: ArgState) -> ConfigView {
    match st.path {
        Some(p) => ConfigView::Puzzle {
            path: p,
            index: match st.index {
                Some(i) => i,
                None => 0,
            },
            plain: st.plain,
        },
        None => ConfigView::Play { kind: st.kind, plain: st.plain, swap2: st.swap2 },
    }
}

/// Reading the arguments from `i` on, with the options read so far.
pub open spec fn args_result(args: Seq<Seq<char>>, i: int, st: ArgState) -> Result<ConfigView, Seq<char>>
    decreases args.len() - i,
{
    if i < 0 || i >= args.len() {
        Ok(finish_args(st))
    } else {
        let a = args[i];
        if a == "--engine"@ {
            if i + 1 >= args.len() {
                Err("--engine needs a value: naive|fast"@)
            } else {
                let v = args[i + 1];
                if v == "naive"@ {
                    args_result(args, i + 2, ArgState { kind: EngineKind::Naive, ..st })
                } else if v == "fast"@ {
                    args_result(args, i + 2, ArgState { kind: EngineKind::Fast, ..st })
                } else {
                    Err("unknown engine '"@ + v + "'"@)
                }
            }
        } else if a == "--plain"@ {
            args_result(args, i + 1, ArgState { plain: true, ..st })
        } else if a == "--no-swap2"@ {
            args_result(args, i + 1, ArgState { swap2: false, ..st })
        } else if a == "--puzzle"@ {
            if i + 1 >= args.len() {
                Err("--puzzle needs a file path"@)
            } else {
                args_result(args, i + 2, ArgState { path: Some(args[i + 1]), ..st })
            }
        } else if a == "--index"@ {
            if i + 1 >= args.len() {
                Err("--index needs a value"@)
            } else {
                match usize_of(args[i + 1]) {
                    None => Err("--index must be a non-negative integer"@),
                    Some(n) => args_result(args, i + 2, ArgState { index: Some(n), ..st }),
                }
            }
        } else if a == "-h"@ || a == "--help"@ {
            Ok(ConfigView::Help)
        } else {
            Err("unknown argument '"@ + a + "'"@)
        }
    }
}

/// The configuration with plain output asked for.
pub open spec fn with_plain(c: ConfigView) -> ConfigView {
    match c {
        ConfigView::Play { kind, plain: _, swap2 } => ConfigView::Play { kind, plain: true, swap2 },
        ConfigView::Puzzle { path, index, plain: _ } => ConfigView::Puzzle { path, index, plain: true },
        ConfigView::Help => ConfigView::Help,
    }
}

/// Whether a configuration asks for plain output (help asks for nothing).
pub open spec fn plain_of(c: ConfigView) -> bool {
    match c {
        ConfigView::Play { plain, .. } => plain,
        ConfigView::Puzzle { plain, .. } => plain,
        ConfigView::Help => false,
    }
}

/// Reading the arguments with plain output already asked for gives the
/// configuration read without it, with plain output.
proof fn lemma_plain_state(args: Seq<Seq<char>>, i: int, st: ArgState)
    ensures
        args_result(args, i, ArgState { plain: true, ..st }) == match args_result(args, i, st) {
            Ok(c) => Ok::<ConfigView, Seq<char>>(with_plain(c)),
            Err(e) => Err(e),
        },
    decreases args.len() - i,
{
    if 0 <= i < args.len() {
        let a = args[i];
        let sp = ArgState { plain: true, ..st };
        if a == "--engine"@ {
            if i + 1 < args.len() {
                lemma_plain_state(args, i + 2, ArgState { kind: EngineKind::Naive, ..st });
                lemma_plain_state(args, i + 2, ArgState { kind: EngineKind::Fast, ..st });
                assert(ArgState { kind: EngineKind::Naive, ..sp } == ArgState { plain: true, ..ArgState { kind: EngineKind::Naive, ..st } });
                assert(ArgState { kind: EngineKind::Fast, ..sp } == ArgState { plain: true, ..ArgState { kind: EngineKind::Fast, ..st } });
            }
        } else if a == "--plain"@ {
            lemma_plain_state(args, i + 1, sp);
            assert(ArgState { plain: true, ..sp } == sp);
        } else if a == "--no-swap2"@ {
            lemma_plain_state(args, i + 1, ArgState { swap2: false, ..st });
            assert(ArgState { swap2: false, ..sp } == ArgState { plain: true, ..ArgState { swap2: false, ..st } });
        } else if a == "--puzzle"@ {
            if i + 1 < args.len() {
                lemma_plain_state(args, i + 2, ArgState { path: Some(args[i + 1]), ..st });
                assert(ArgState { path: Some(args[i + 1]), ..sp } == ArgState { plain: true, ..ArgState { path: Some(args[i + 1]), ..st } });
            }
        } else if a == "--index"@ {
            if i + 1 < args.len() {
                match usize_of(args[i + 1]) {
                    None => {},
                    Some(n) => {
                        lemma_plain_state(args, i + 2, ArgState { index: Some(n), ..st });
                        assert(ArgState { index: Some(n), ..sp } == ArgState { plain: true, ..ArgState { index: Some(n), ..st } });
                    },
                }
            }
        }
    }
}

/// Without `--plain` read from `i` on, plain output stays as it was.
proof fn lemma_no_plain(args: Seq<Seq<char>>, i: int, st: ArgState)
    requires
        forall|k: int| i <= k < args.len() ==> args[k] != "--plain"@,
    ensures
        args_result(args, i, st) matches Ok(c) ==> (c is Help || plain_of(c) == st.plain),
    decreases args.len() - i,
{
    if 0 <= i < args.len() {
        let a = args[i];
        if a == "--engine"@ {
            if i + 1 < args.len() {
                lemma_no_plain(args, i + 2, ArgState { kind: EngineKind::Naive, ..st });
                lemma_no_plain(args, i + 2, ArgState { kind: EngineKind::Fast, ..st });
            }
        } else if a == "--no-swap2"@ {
            lemma_no_plain(args, i + 1, ArgState { swap2: false, ..st });
        } else if a == "--puzzle"@ {
            if i + 1 < args.len() {
                lemma_no_plain(args, i + 2, ArgState { path: Some(args[i + 1]), ..st });
            }
        } else if a == "--index"@ {
            if i + 1 < args.len() {
                match usize_of(args[i + 1]) {
                    None => {},
                    Some(n) => {
                        lemma_no_plain(args, i + 2, ArgState { index: Some(n), ..st });
                    },
                }
            }
        }
    }
}

/// `--plain` asks for plain output: putting it in front of any argument
/// list gives the configuration of that list with plain output (or the
/// same error, or help), and a list in which `--plain` never occurs gives a
/// configuration with colored output.
pub proof fn lemma_plain_flag(args: Seq<Seq<char>>)
    ensures
        args_result(seq!["--plain"@] + args, 0, default_args()) == match args_result(
            args,
            0,
            default_args(),
        ) {
            Ok(c) => Ok::<ConfigView, Seq<char>>(with_plain(c)),
            Err(e) => Err(e),
        },
        (forall|k: int| 0 <= k < args.len() ==> args[k] != "--plain"@) ==> (args_result(
            args,
            0,
            default_args(),
        ) matches Ok(c) ==> !plain_of(c)),
{
    let all = seq!["--plain"@] + args;
    reveal_strlit("--plain");
    reveal_strlit("--engine");
    assert(all[0] == "--plain"@);
    assert("--plain"@ != "--engine"@) by {
        assert("--plain"@[2] != "--engine"@[2]);
    }
    lemma_shift(seq!["--plain"@], args, 0, ArgState { plain: true, ..default_args() });
    lemma_plain_state(args, 0, default_args());
    if forall|k: int| 0 <= k < args.len() ==> args[k] != "--plain"@ {
        lemma_no_plain(args, 0, default_args());
    }
}

/// The configuration without the Swap2 opening; puzzles and help have none
/// to leave out.
pub open spec fn without_swap2(c: ConfigView) -> ConfigView {
    match c {
        ConfigView::Play { kind, plain, swap2: _ } => ConfigView::Play { kind, plain, swap2: false },
        _ => c,
    }
}

/// Reading the arguments with the opening already turned off gives the
/// configuration read without it, without the opening.
proof fn lemma_no_swap2_state(args: Seq<Seq<char>>, i: int, st: ArgState)
    ensures
        args_result(args, i, ArgState { swap2: false, ..st }) == match args_result(args, i, st) {
            Ok(c) => Ok::<ConfigView, Seq<char>>(without_swap2(c)),
            Err(e) => Err(e),
        },
    decreases args.len() - i,
{
    if 0 <= i < args.len() {
        let a = args[i];
        let sn = ArgState { swap2: false, ..st };
        if a == "--engine"@ {
            if i + 1 < args.len() {
                lemma_no_swap2_state(args, i + 2, ArgState { kind: EngineKind::Naive, ..st });
                lemma_no_swap2_state(args, i + 2, ArgState { kind: EngineKind::Fast, ..st });
                assert(ArgState { kind: EngineKind::Naive, ..sn } == ArgState { swap2: false, ..ArgState { kind: EngineKind::Naive, ..st } });
                assert(ArgState { kind: EngineKind::Fast, ..sn } == ArgState { swap2: false, ..ArgState { kind: EngineKind::Fast, ..st } });
            }
        } else if a == "--plain"@ {
            lemma_no_swap2_state(args, i + 1, ArgState { plain: true, ..st });
            assert(ArgState { plain: true, ..sn } == ArgState { swap2: false, ..ArgState { plain: true, ..st } });
        } else if a == "--no-swap2"@ {
            lemma_no_swap2_state(args, i + 1, sn);
            assert(ArgState { swap2: false, ..sn } == sn);
        } else if a == "--puzzle"@ {
            if i + 1 < args.len() {
                lemma_no_swap2_state(args, i + 2, ArgState { path: Some(args[i + 1]), ..st });
                assert(ArgState { path: Some(args[i + 1]), ..sn } == ArgState { swap2: false, ..ArgState { path: Some(args[i + 1]), ..st } });
            }
        } else if a == "--index"@ {
            if i + 1 < args.len() {
                match usize_of(args[i + 1]) {
                    None => {},
                    Some(n) => {
                        lemma_no_swap2_state(args, i + 2, ArgState { index: Some(n), ..st });
                        assert(ArgState { index: Some(n), ..sn } == ArgState { swap2: false, ..ArgState { index: Some(n), ..st } });
                    },
                }
            }
        }
    }
}

/// `--no-swap2` turns the opening off: putting it in front of any argument
/// list gives the configuration of that list without the opening (or the
/// same error, or help).
pub proof fn lemma_no_swap2_flag(args: Seq<Seq<char>>)
    ensures
        args_result(seq!["--no-swap2"@] + args, 0, default_args()) == match args_result(
            args,
            0,
            default_args(),
        ) {
            Ok(c) => Ok::<ConfigView, Seq<char>>(without_swap2(c)),
            Err(e) => Err(e),
        },
{
    let all = seq!["--no-swap2"@] + args;
    reveal_strlit("--no-swap2");
    reveal_strlit("--plain");
    reveal_strlit("--engine");
    assert(all[0] == "--no-swap2"@);
    assert("--no-swap2"@ != "--engine"@) by {
        assert("--no-swap2"@[2] != "--engine"@[2]);
    }
    assert("--no-swap2"@ != "--plain"@) by {
        assert("--no-swap2"@[2] != "--plain"@[2]);
    }
    lemma_shift(seq!["--no-swap2"@], args, 0, ArgState { swap2: false, ..default_args() });
    lemma_no_swap2_state(args, 0, default_args());
}

/// Reading after a prefix is reading the rest on its own.
proof fn lemma_shift(pre: Seq<Seq<char>>, args: Seq<Seq<char>>, i: int, st: ArgState)
    requires
        0 <= i,
    ensures
        args_result(pre + args, pre.len() + i, st) == args_result(args, i, st),
    decreases args.len() - i,
{
    let all = pre + args;
    let n = pre.len() as int;
    if i < args.len() {
        assert(all[n + i] == args[i]);
        if i + 1 < args.len() {
            assert(all[n + i + 1] == args[i + 1]);
        }
        lemma_shift(pre, args, i + 1, ArgState { plain: true, ..st });
        lemma_shift(pre, args, i + 1, ArgState { swap2: false, ..st });
        if i + 1 < args.len() {
            lemma_shift(pre, args, i + 2, ArgState { kind: EngineKind::Naive, ..st });
            lemma_shift(pre, args, i + 2, ArgState { kind: EngineKind::Fast, ..st });
            lemma_shift(pre, args, i + 2, ArgState { path: Some(args[i + 1]), ..st });
            match usize_of(args[i + 1]) {
                None => {},
                Some(k) => {
                    lemma_shift(pre, args, i + 2, ArgState { index: Some(k), ..st });
                },
            }
        }
    }
}

/// The view of an optional path.
pub open spec fn path_view(o: &Option<String>) -> Option<Seq<char>> {
    match o {
        Some(p) => Some(p@),
        None => None,
    }
}

/// The views of the arguments.
pub open spec fn arg_views(args: Seq<String>) -> Seq<Seq<char>> {
    Seq::new(args.len(), |k: int| args[k]@)
}

/// `"{before}{t}'"` as a new string.
fn quoted(before: &str, t: &String) -> (s: String)
    ensures
        s@ == before@ + t@ + "'"@,
{
    let mut s = text(before);
    push_string(&mut s, t);
    push_str(&mut s, "'");
    s
}

/// Reads the command-line arguments (without the program name).
pub fn parse_args(args: &[String]) -> (r: Result<Config, String>)
    ensures
        match args_result(arg_views(args@), 0, default_args()) {
            Ok(c) => r matches Ok(x) && x@ == c,
            Err(m) => r matches Err(e) && e@ == m,
        },
{
    let mut kind = EngineKind::Fast;
    let mut plain = false;
    let mut swap2 = true;
    let mut path: Option<String> = None;
    let mut index: Option<usize> = None;
    let ghost all = arg_views(args@);
    let mut i: usize = 0;
    while i < args.len()
        invariant
            i <= args.len(),
            all == arg_views(args@),
            args_result(all, 0, default_args()) == args_result(
                all,
                i as int,
                ArgState {
                    kind,
                    plain,
                    swap2,
                    path: path_view(&path),
                    index,
                },
            ),
        decreases args.len() - i,
    {
        let ghost st = ArgState {
            kind,
            plain,
            swap2,
            path: path_view(&path),
            index,
        };
        let a = args[i].as_str();
        proof {
            assert(all[i as int] == a@);
        }
        if str_eq(a, "--engine") {
            if i + 1 >= args.len() {
                return Err(text("--engine needs a value: naive|fast"));
            }
            let v = &args[i + 1];
            proof {
                assert(all[i + 1] == v@);
            }
            if str_eq(v.as_str(), "naive") {
                kind = EngineKind::Naive;
            } else if str_eq(v.as_str(), "fast") {
                kind = EngineKind::Fast;
            } else {
                return Err(quoted("unknown engine '", v));
            }
            i = i + 2;
        } else if str_eq(a, "--plain") {
            plain = true;
            i = i + 1;
        } else if str_eq(a, "--no-swap2") {
            swap2 = false;
            i = i + 1;
        } else if str_eq(a, "--puzzle") {
            if i + 1 >= args.len() {
                return Err(text("--puzzle needs a file path"));
            }
            proof {
                assert(all[i + 1] == args@[i + 1]@);
            }
            path = Some(text(args[i + 1].as_str()));
            i = i + 2;
        } else if str_eq(a, "--index") {
            if i + 1 >= args.len() {
                return Err(text("--index needs a value"));
            }
            proof {
                assert(all[i + 1] == args@[i + 1]@);
            }
            match parse_usize(args[i + 1].as_str()) {
                Some(n) => {
                    index = Some(n);
                },
                None => {
                    return Err(text("--index must be a non-negative integer"));
                },
            }
            i = i + 2;
        } else if str_eq(a, "-h") || str_eq(a, "--help") {
            return Ok(Config::Help);
        } else {
            return Err(quoted("unknown argument '", &args[i]));
        }
    }
    match path {
        Some(p) => {
            let idx = match index {
                Some(n) => n,
                None => 0,
            };
            Ok(Config::Puzzle { path: p, index: idx, plain })
        },
        None => Ok(Config::Play { kind, plain, swap2 }),
    }
}

/// The Swap2 opening needs the bitboard engine.
pub fn swap2_needs_fast_engine(kind: EngineKind, swap2: bool) -> (b: bool)
    ensures
        b == (swap2 && kind == EngineKind::Naive),
{
    swap2 && kind == EngineKind::Naive
}

/// Why a puzzle file cannot be browsed from `index`: it is empty, or the
/// index is past its end.
pub open spec fn puzzle_index_error(count: usize, index: usize) -> Option<Seq<char>> {
    if count == 0 {
        Some("puzzle file contains no puzzles"@)
    } else if index >= count {
        Some("--index "@ + decimal(index as nat) + " is out of range (0.."@ + decimal(count as nat) + ")"@)
    } else {
        None
    }
}

/// Checks that a file of `count` puzzles can be browsed from `index`.
pub fn check_puzzle_index(count: usize, index: usize) -> (r: Result<(), String>)
    ensures
        match puzzle_index_error(count, index) {
            Some(m) => r matches Err(e) && e@ == m,
            None => r is Ok,
        },
{
    if count == 0 {
        return Err(text("puzzle file contains no puzzles"));
    }
    if index >= count {
        let mut s = text("--index ");
        push_decimal(&mut s, index as u64);
        push_str(&mut s, " is out of range (0..");
        push_decimal(&mut s, count as u64);
        push_str(&mut s, ")");
        return Err(s);
    }
    Ok(())
}

} // verus!
