//! The front end's game session: the state it is in (Swap2 opening, normal
//! play, puzzle browsing), how each command changes it, and the messages
//! and status lines it shows. The terminal loops that read commands and
//! draw frames live outside the library.
use vstd::prelude::*;
use vstd::arithmetic::div_mod::lemma_fundamental_div_mod_converse;
use crate::board::{Board, Color, PlayError, Position, Status, play_error_text};
use crate::game_board::{AnyBoard, EngineKind, FastBoard, GameBoard, PuzzleBoard, board_for, redone};
use crate::input::Command;
use crate::moveset::Move;
use crate::opening::{
    Holders,
    OpeningPhase,
    OpeningState,
    OpeningView,
    Party,
    finished,
    holders_for,
    placed,
    party_label,
};
use crate::puzzle::{Puzzle, puzzle_setup};
use crate::reference::start_position;
use crate::input::views;
use crate::render::{
    grid_of,
    last_cell,
    last_placement,
    opening_grid,
    plain_frame,
    styled_frame,
    overlay_verdict,
    render_lines,
    render_lines_with_overlay,
    render_opening_lines,
    render_opening_styled,
    render_styled,
    render_styled_with_overlay,
    status_line,
    status_text,
    verdict_text,
};
use crate::text::{color_name, color_word, decimal, push_decimal, push_str, push_string, text};
use crate::tss::{Proof, SearchBudget, forced_win_line, line_cells, line_wins, prove_forced_win, verify_line};

verus! {

pub open spec fn help_normal_text() -> Seq<char> {
    "enter <row> <col> to play \u{b7} 'u' undo \u{b7} 't' TSS demo (toggle) \u{b7} 'new' restart \u{b7} 'q' quit"@
}

pub open spec fn help_opening_text() -> Seq<char> {
    "<row> <col> to place \u{b7} 'd' done \u{b7} 'b' take Black \u{b7} 'w' take White \u{b7} 'a' add 2 stones \u{b7} 'u' undo \u{b7} 'q' quit"@
}

pub open spec fn help_puzzle_text() -> Seq<char> {
    "enter <row> <col> to play \u{b7} 's' solution step \u{b7} 'u' undo \u{b7} 'r' redo \u{b7} 'n' next \u{b7} 'p' previous \u{b7} 't' TSS demo \u{b7} 'new' reset puzzle \u{b7} 'q' quit"@
}

pub open spec fn puzzle_only_text() -> Seq<char> {
    "that command is only available in puzzle mode"@
}

pub open spec fn opening_only_text() -> Seq<char> {
    "that command is only available during the Swap2 opening"@
}

/// "undid the last move — {c} to move"
pub open spec fn undid_text(c: Color) -> Seq<char> {
    "undid the last move \u{2014} "@ + color_word(c) + " to move"@
}

/// "redid move — {c} to move"
pub open spec fn redid_text(c: Color) -> Seq<char> {
    "redid move \u{2014} "@ + color_word(c) + " to move"@
}

/// A puzzle browsing session: the puzzles, the one on the board, and the
/// board with its history since that puzzle's position.
pub struct PuzzleState {
    puzzles: Vec<Puzzle>,
    index: usize,
    board: PuzzleBoard,
}

impl PuzzleState {
    /// The index is in range, the board is consistent, and every puzzle
    /// can be set up.
    pub closed spec fn ok(&self) -> bool {
        &&& self.index < self.puzzles@.len()
        &&& self.board.inv()
        &&& forall|k: int| 0 <= k < self.puzzles@.len() ==> (#[trigger] self.puzzles@[k]).valid_setup()
    }

    pub closed spec fn puzzles_spec(&self) -> Seq<Puzzle> {
        self.puzzles@
    }

    pub closed spec fn index_spec(&self) -> int {
        self.index as int
    }

    pub closed spec fn board_spec(&self) -> PuzzleBoard {
        self.board
    }

    /// The puzzle on the board.
    pub fn index(&self) -> (i: usize)
        ensures
            i == self.index_spec(),
    {
        self.index
    }

    /// The board.
    pub fn board(&self) -> (b: &PuzzleBoard)
        ensures
            *b == self.board_spec(),
    {
        &self.board
    }

    /// The puzzles of the session.
    pub fn puzzles(&self) -> (ps: &[Puzzle])
        ensures
            ps@ == self.puzzles_spec(),
    {
        self.puzzles.as_slice()
    }
}

/// Top-level application state.
pub enum AppState {
    /// The Swap2 opening is in progress.
    Opening(OpeningState),
    /// Normal alternating play, with the hotseat holders after Swap2.
    Normal(AnyBoard, Option<Holders>),
    /// Puzzle examination mode.
    Puzzle(PuzzleState),
}

/// The engine name of a kind.
pub open spec fn kind_name(kind: EngineKind) -> Seq<char> {
    match kind {
        EngineKind::Naive => "naive"@,
        EngineKind::Fast => "fast"@,
    }
}

/// `s` is a new game: the empty Swap2 opening, or an empty board of the
/// chosen engine.
pub open spec fn fresh_game(s: AppState, kind: EngineKind, swap2: bool) -> bool {
    if swap2 {
        s matches AppState::Opening(o) && o@ == (OpeningView {
            placements: Seq::empty(),
            phase: OpeningPhase::Placing3,
        })
    } else {
        s matches AppState::Normal(b, None) && b.pos() == start_position() && b.fast() == (kind
            == EngineKind::Fast) && b.engine_name() == kind_name(kind) && b.redo_moves()
            == Seq::<Move>::empty()
    }
}

/// `s` is the puzzle session on puzzle `index`, at its root position.
pub open spec fn fresh_puzzle(s: AppState, puzzles: Seq<Puzzle>, index: int) -> bool {
    s matches AppState::Puzzle(p) && p.puzzles_spec() == puzzles && p.index_spec() == index
        && p.board_spec().pos() == puzzle_setup(&puzzles[index]) && p.board_spec().redo_moves()
        == Seq::<Move>::empty()
}

impl AppState {
    /// The state is consistent.
    pub open spec fn ok(&self) -> bool {
        match self {
            AppState::Opening(_) => true,
            AppState::Normal(b, _) => b.inv(),
            AppState::Puzzle(p) => p.ok(),
        }
    }

    /// A new game: the Swap2 opening, or an empty board of `kind`.
    pub fn new(kind: EngineKind, swap2: bool) -> (s: AppState)
        ensures
            s.ok(),
            fresh_game(s, kind, swap2),
    {
        if swap2 {
            AppState::Opening(OpeningState::new())
        } else {
            AppState::Normal(board_for(kind), None)
        }
    }

    /// A puzzle session on puzzle `index`.
    pub fn new_puzzle(puzzles: Vec<Puzzle>, index: usize) -> (s: AppState)
        requires
            index < puzzles@.len(),
            forall|k: int| 0 <= k < puzzles@.len() ==> (#[trigger] puzzles@[k]).valid_setup(),
        ensures
            s.ok(),
            fresh_puzzle(s, puzzles@, index as int),
    {
        let board = PuzzleBoard::new(&puzzles[index]);
        AppState::Puzzle(PuzzleState { puzzles, index, board })
    }
}

/// The help text of the state's mode.
pub open spec fn help_text(s: AppState) -> Seq<char> {
    match s {
        AppState::Opening(_) => help_opening_text(),
        AppState::Normal(_, _) => help_normal_text(),
        AppState::Puzzle(_) => help_puzzle_text(),
    }
}

fn help_for(state: &AppState) -> (s: &'static str)
    ensures
        s@ == help_text(*state),
{
    match state {
        AppState::Opening(_) => "<row> <col> to place \u{b7} 'd' done \u{b7} 'b' take Black \u{b7} 'w' take White \u{b7} 'a' add 2 stones \u{b7} 'u' undo \u{b7} 'q' quit",
        AppState::Normal(_, _) => "enter <row> <col> to play \u{b7} 'u' undo \u{b7} 't' TSS demo (toggle) \u{b7} 'new' restart \u{b7} 'q' quit",
        AppState::Puzzle(_) => "enter <row> <col> to play \u{b7} 's' solution step \u{b7} 'u' undo \u{b7} 'r' redo \u{b7} 'n' next \u{b7} 'p' previous \u{b7} 't' TSS demo \u{b7} 'new' reset puzzle \u{b7} 'q' quit",
    }
}

/// The message shown when a state starts.
pub open spec fn start_text(s: AppState) -> Seq<char> {
    match s {
        AppState::Opening(_) => "Swap2 opening \u{2014} Player A places two Black and one White stone"@,
        AppState::Normal(_, _) => "new game \u{2014} Black to move"@,
        AppState::Puzzle(_) => "puzzle mode \u{2014} 'n'/'p' browse \u{b7} 'u'/'r' history \u{b7} 'h' help"@,
    }
}

/// The message shown when a state starts.
pub fn start_message(state: &AppState) -> (s: String)
    ensures
        s@ == start_text(*state),
{
    match state {
        AppState::Opening(_) => text("Swap2 opening \u{2014} Player A places two Black and one White stone"),
        AppState::Normal(_, _) => text("new game \u{2014} Black to move"),
        AppState::Puzzle(_) => text("puzzle mode \u{2014} 'n'/'p' browse \u{b7} 'u'/'r' history \u{b7} 'h' help"),
    }
}

// ------------------------------------------------------------------ messages

/// The prompt of an opening phase.
pub open spec fn prompt_text(v: OpeningView) -> Seq<char> {
    let party = party_label(v.active_party());
    match v.phase {
        OpeningPhase::Placing3 => if v.placements.len() == 3 {
            party + ": 3 stones placed \u{2014} [d] done \u{b7} [u] undo"@
        } else {
            let color = v.current_color()->0;
            party + ": place "@ + color_word(color) + " ("@ + decimal(v.remaining(color) as nat)
                + " remain) \u{2014} enter row col \u{b7} [u] undo"@
        },
        OpeningPhase::FirstChoice => party
            + ": [b] take Black \u{b7} [w] take White \u{b7} [a] add two stones \u{b7} [u] undo"@,
        OpeningPhase::Placing2 => if v.placements.len() == 5 {
            party + ": 5 stones placed \u{2014} [d] done \u{b7} [u] undo"@
        } else {
            let color = v.current_color()->0;
            party + ": place "@ + color_word(color) + " ("@ + decimal(v.remaining(color) as nat)
                + " remain) \u{2014} enter row col \u{b7} [u] undo"@
        },
        OpeningPhase::FinalChoice => party + ": [b] take Black \u{b7} [w] take White \u{b7} [u] undo"@,
    }
}

/// "{party}: place {color} ({remaining} remain) — enter row col · [u] undo"
fn place_prompt(opening: &OpeningState) -> (s: String)
    requires
        opening@.phase == OpeningPhase::Placing3 || opening@.phase == OpeningPhase::Placing2,
    ensures
        s@ == party_label(opening@.active_party()) + ": place "@ + color_word(
            opening@.current_color()->0,
        ) + " ("@ + decimal(opening@.remaining(opening@.current_color()->0) as nat)
            + " remain) \u{2014} enter row col \u{b7} [u] undo"@,
{
    let color = match opening.current_color() {
        Some(c) => c,
        None => Color::Black,
    };
    let remaining = opening.remaining(color);
    let mut s = text(opening.active_party().label());
    push_str(&mut s, ": place ");
    push_str(&mut s, color_name(color));
    push_str(&mut s, " (");
    push_decimal(&mut s, remaining as u64);
    push_str(&mut s, " remain) \u{2014} enter row col \u{b7} [u] undo");
    s
}

/// The prompt of the current opening phase.
pub fn opening_prompt_message(opening: &OpeningState) -> (s: String)
    ensures
        s@ == prompt_text(opening@),
{
    let party = opening.active_party().label();
    match opening.phase() {
        OpeningPhase::Placing3 => {
            if opening.placements().len() == 3 {
                let mut s = text(party);
                push_str(&mut s, ": 3 stones placed \u{2014} [d] done \u{b7} [u] undo");
                s
            } else {
                place_prompt(opening)
            }
        },
        OpeningPhase::FirstChoice => {
            let mut s = text(party);
            push_str(&mut s, ": [b] take Black \u{b7} [w] take White \u{b7} [a] add two stones \u{b7} [u] undo");
            s
        },
        OpeningPhase::Placing2 => {
            if opening.placements().len() == 5 {
                let mut s = text(party);
                push_str(&mut s, ": 5 stones placed \u{2014} [d] done \u{b7} [u] undo");
                s
            } else {
                place_prompt(opening)
            }
        },
        OpeningPhase::FinalChoice => {
            let mut s = text(party);
            push_str(&mut s, ": [b] take Black \u{b7} [w] take White \u{b7} [u] undo");
            s
        },
    }
}

/// The message after a stone of the opening was placed on `mv`: while the
/// phase needs stones, who placed, where, and how many of the next color
/// remain (named by the next color); otherwise the phase prompt.
pub open spec fn progress_text(v: OpeningView, mv: Move) -> Seq<char> {
    if v.can_place() {
        let color = v.current_color()->0;
        party_label(v.active_party()) + " placed "@ + color_word(color) + " at ("@ + decimal(
            (mv@ / 15) as nat,
        ) + ", "@ + decimal((mv@ % 15) as nat) + ") \u{2014} "@ + decimal(
            v.remaining(color) as nat,
        ) + " more "@ + color_word(color) + " to place"@
    } else {
        prompt_text(v)
    }
}

fn opening_progress_message(opening: &OpeningState, mv: Move) -> (s: String)
    ensures
        s@ == progress_text(opening@, mv),
{
    if opening.can_place() {
        let color = match opening.current_color() {
            Some(c) => c,
            None => Color::Black,
        };
        let remaining = opening.remaining(color);
        let mut s = text(opening.active_party().label());
        push_str(&mut s, " placed ");
        push_str(&mut s, color_name(color));
        push_str(&mut s, " at (");
        push_decimal(&mut s, mv.row() as u64);
        push_str(&mut s, ", ");
        push_decimal(&mut s, mv.col() as u64);
        push_str(&mut s, ") \u{2014} ");
        push_decimal(&mut s, remaining as u64);
        push_str(&mut s, " more ");
        push_str(&mut s, color_name(color));
        push_str(&mut s, " to place");
        s
    } else {
        opening_prompt_message(opening)
    }
}

// ------------------------------------------------------------------ opening

/// What a command during the opening leads to: the opening goes on with a
/// message, or it is over and normal play starts.
pub enum OpeningResult {
    Message(String),
    Finish(AnyBoard, Holders, String),
}

/// "Swap2 done — Black: {b} · White: {w} · White moves first"
pub open spec fn swap2_done_text(b: Party, w: Party) -> Seq<char> {
    "Swap2 done \u{2014} Black: "@ + party_label(b) + " \u{b7} White: "@ + party_label(w)
        + " \u{b7} White moves first"@
}

/// What a command does to the opening `v0`; `v1` is the opening after it
/// when it goes on.
pub open spec fn opening_step(cmd: Command, v0: OpeningView, v1: OpeningView, r: OpeningResult) -> bool {
    match cmd {
        Command::Play(mv) => r matches OpeningResult::Message(m) && if !v0.can_place() {
            v1 == v0
                && m@ == "all stones for this phase are placed \u{2014} type 'd' to continue or 'u' to undo"@
        } else if v0.taken(mv@) {
            v1 == v0 && m@ == "cell is already occupied"@
        } else {
            v1 == placed(v0, mv) && m@ == progress_text(v1, mv)
        },
        Command::Undo => r matches OpeningResult::Message(m) && if v0.placements.len() == 0
            && v0.phase == OpeningPhase::Placing3 {
            v1 == v0 && m@ == "nothing to undo"@
        } else {
            v1 == v0.after_undo() && m@ == "undid \u{2014} "@ + prompt_text(v1)
        },
        Command::Done => r matches OpeningResult::Message(m) && if v0.phase_full() {
            v1 == finished(v0) && m@ == prompt_text(v1)
        } else {
            v1 == v0 && m@ == "no stones left to place in this phase \u{2014} type a move or 'u'"@
        },
        Command::TakeBlack | Command::TakeWhite => {
            let c = if cmd == Command::TakeBlack {
                Color::Black
            } else {
                Color::White
            };
            match holders_for(v0.phase, c) {
                None => r matches OpeningResult::Message(m) && v1 == v0 && m@
                    == "choose a color at the Swap2 prompt: 'b' or 'w'"@,
                Some((b, w)) => r matches OpeningResult::Finish(board, h, m) && board.inv()
                    && board.fast() && board.engine_name() == "fast"@ && board.pos() == v0.position()
                    && h.black_spec() == b && h.white_spec() == w && m@ == swap2_done_text(b, w),
            }
        },
        Command::AddStones => r matches OpeningResult::Message(m) && if v0.phase
            == OpeningPhase::FirstChoice {
            v1 == (OpeningView { phase: OpeningPhase::Placing2, ..v0 }) && m@ == party_label(
                Party::B,
            ) + " adds two more stones \u{2014} place one Black, then one White"@
        } else {
            v1 == v0 && m@ == "'a' is only available when choosing after the first three stones"@
        },
        Command::Tss => r matches OpeningResult::Message(m) && v1 == v0 && m@
            == "TSS demo is only available during normal play"@,
        Command::Redo | Command::SolutionStep | Command::NextPuzzle | Command::PrevPuzzle => r matches OpeningResult::Message(
            m,
        ) && v1 == v0 && m@ == puzzle_only_text(),
        Command::New | Command::Help | Command::Quit => false,
    }
}

/// One command during the Swap2 opening.
pub fn dispatch_opening(opening: &mut OpeningState, cmd: Command) -> (r: Option<OpeningResult>)
    requires
        cmd != Command::New && cmd != Command::Help && cmd != Command::Quit,
    ensures
        r matches Some(res) && opening_step(cmd, old(opening)@, final(opening)@, res),
{
    match cmd {
        Command::Play(mv) => {
            if !opening.can_place() {
                return Some(
                    OpeningResult::Message(
                        text(
                            "all stones for this phase are placed \u{2014} type 'd' to continue or 'u' to undo",
                        ),
                    ),
                );
            }
            match opening.place(mv) {
                Ok(()) => Some(OpeningResult::Message(opening_progress_message(opening, mv))),
                Err(e) => Some(OpeningResult::Message(e)),
            }
        },
        Command::Undo => {
            if opening.is_at_start() {
                Some(OpeningResult::Message(text("nothing to undo")))
            } else {
                opening.undo();
                let mut m = text("undid \u{2014} ");
                let prompt = opening_prompt_message(opening);
                push_string(&mut m, &prompt);
                Some(OpeningResult::Message(m))
            }
        },
        Command::Done => match opening.finish() {
            Ok(()) => Some(OpeningResult::Message(opening_prompt_message(opening))),
            Err(e) => Some(OpeningResult::Message(e)),
        },
        Command::TakeBlack => finish_opening(opening, Color::Black),
        Command::TakeWhite => finish_opening(opening, Color::White),
        Command::AddStones => {
            if opening.phase() == OpeningPhase::FirstChoice {
                let copy = opening.duplicate();
                match copy.add_two_more() {
                    Some(next) => {
                        *opening = next;
                    },
                    None => {},
                }
                let mut m = text(Party::B.label());
                push_str(&mut m, " adds two more stones \u{2014} place one Black, then one White");
                Some(OpeningResult::Message(m))
            } else {
                Some(
                    OpeningResult::Message(
                        text("'a' is only available when choosing after the first three stones"),
                    ),
                )
            }
        },
        Command::Tss => Some(
            OpeningResult::Message(text("TSS demo is only available during normal play")),
        ),
        _ => Some(OpeningResult::Message(text("that command is only available in puzzle mode"))),
    }
}

/// Finish the opening with a color choice, if the phase offers one.
fn finish_opening(opening: &OpeningState, choice: Color) -> (r: Option<OpeningResult>)
    ensures
        match holders_for(opening@.phase, choice) {
            None => r matches Some(OpeningResult::Message(m)) && m@
                == "choose a color at the Swap2 prompt: 'b' or 'w'"@,
            Some((b, w)) => r matches Some(OpeningResult::Finish(board, h, m)) && board.inv()
                && board.fast() && board.engine_name() == "fast"@ && board.pos() == opening@.position()
                && h.black_spec() == b && h.white_spec() == w && m@ == swap2_done_text(b, w),
        },
{
    let outcome = match opening.duplicate().choose_color(choice) {
        Some(o) => o,
        None => {
            return Some(OpeningResult::Message(text("choose a color at the Swap2 prompt: 'b' or 'w'")));
        },
    };
    let holders = Holders::new(outcome.black_holder, outcome.white_holder);
    let mut m = text("Swap2 done \u{2014} Black: ");
    push_str(&mut m, holders.black().label());
    push_str(&mut m, " \u{b7} White: ");
    push_str(&mut m, holders.white().label());
    push_str(&mut m, " \u{b7} White moves first");
    Some(OpeningResult::Finish(AnyBoard::Fast(FastBoard::new(outcome.board)), holders, m))
}

// ------------------------------------------------------------------ TSS demo

/// "certified forced win for {holder} ({winner}) in {n} ply"
pub open spec fn held_verdict_text(holder: Party, winner: Color, plies: nat) -> Seq<char> {
    "certified forced win for "@ + party_label(holder) + " ("@ + color_word(winner) + ") in "@
        + decimal(plies) + " ply"@
}

/// The verdict for a proof, naming the holder of the winning color when
/// the opening assigned one.
pub open spec fn verdict_for(holders: Option<Holders>, proof: Proof) -> Seq<char> {
    match holders {
        Some(h) => held_verdict_text(
            if proof.winner == Color::Black {
                h.black_spec()
            } else {
                h.white_spec()
            },
            proof.winner,
            proof.line@.len(),
        ),
        None => verdict_text(proof.winner, proof.line@.len()),
    }
}

/// The budget of the threat-space demo: 100 000 nodes and 9 plies.
pub open spec fn demo_budget() -> SearchBudget {
    SearchBudget { max_nodes: 100_000, max_depth: 9 }
}

/// What the threat-space demo does: it hides an overlay that is shown;
/// else, on the bitboard engine, it shows the line that `prove_forced_win`
/// finds for the side to move within the demo budget, or says none was
/// proven.
pub open spec fn tss_step(p: Position, fast: bool, holders: Option<Holders>, before: Option<Proof>, after: Option<Proof>, m: Seq<char>) -> bool {
    if before is Some {
        after is None && m == "TSS overlay hidden"@
    } else if !fast {
        after is None && m == "TSS demo requires the fast engine"@
    } else {
        match forced_win_line(p, p.to_move, demo_budget()) {
            None => after is None && m == "no forced win proven within budget"@,
            Some(l) => after matches Some(proof) && proof.winner == p.to_move && line_cells(proof.line@)
                == l && line_wins(p, proof.winner, proof.line@) && m == verdict_for(holders, proof),
        }
    }
}

/// Toggle the threat-space search overlay.
pub fn run_tss<B: GameBoard>(board: &B, holders: Option<Holders>, overlay: &mut Option<Proof>) -> (r: Option<String>)
    requires
        board.inv(),
    ensures
        r matches Some(m) && tss_step(board.pos(), board.fast(), holders, *old(overlay), *final(overlay), m@),
{
    if overlay.is_some() {
        *overlay = None;
        return Some(text("TSS overlay hidden"));
    }
    let fast = match board.engine_board() {
        Some(b) => b,
        None => {
            return Some(text("TSS demo requires the fast engine"));
        },
    };
    let budget = SearchBudget { max_nodes: 100_000, max_depth: 9 };
    let side = board.to_move();
    let proof = match prove_forced_win(fast, side, budget) {
        Some(p) => p,
        None => {
            return Some(text("no forced win proven within budget"));
        },
    };
    if !verify_line(fast, &proof) {
        return Some(text("internal error: unverifiable proof"));
    }
    let verdict = match holders {
        Some(h) => {
            let holder = match proof.winner {
                Color::Black => h.black(),
                Color::White => h.white(),
            };
            let mut s = text("certified forced win for ");
            push_str(&mut s, holder.label());
            push_str(&mut s, " (");
            push_str(&mut s, color_name(proof.winner));
            push_str(&mut s, ") in ");
            push_decimal(&mut s, proof.line.len() as u64);
            push_str(&mut s, " ply");
            s
        },
        None => overlay_verdict(&proof),
    };
    *overlay = Some(proof);
    Some(verdict)
}

// ------------------------------------------------------------------ normal play

/// What a command does during normal play, from position `p0` with redo
/// stack `r0` and overlay `o0` to `p1`, `r1`, `o1`, with message `m`; `keeps`
/// says whether the board files an undone move on its redo stack.
pub open spec fn normal_step(
    cmd: Command,
    fast: bool,
    keeps: bool,
    holders: Option<Holders>,
    p0: Position,
    r0: Seq<Move>,
    o0: Option<Proof>,
    p1: Position,
    r1: Seq<Move>,
    o1: Option<Proof>,
    m: Seq<char>,
) -> bool {
    match cmd {
        Command::Play(mv) => o1 == o0 && match p0.play_error(mv@) {
            Some(e) => p1 == p0 && r1 == r0 && m == play_error_text(e),
            None => p1 == p0.after_play(mv) && r1 == Seq::<Move>::empty() && m == Seq::<char>::empty(),
        },
        Command::Undo => o1 == o0 && if p0.moves.len() == 0 {
            p1 == p0 && r1 == r0 && m == "nothing to undo"@
        } else {
            p1 == p0.after_undo() && r1 == (if keeps {
                r0.push(p0.moves.last())
            } else {
                r0
            }) && m == undid_text(p1.to_move)
        },
        Command::Redo => o1 == o0 && if r0.len() > 0 {
            r1 == r0.drop_last() && p1 == redone(p0, r0.last()) && m == redid_text(p1.to_move)
        } else {
            p1 == p0 && r1 == r0 && m == "nothing to redo"@
        },
        Command::Tss => p1 == p0 && r1 == r0 && tss_step(p0, fast, holders, o0, o1, m),
        Command::SolutionStep | Command::NextPuzzle | Command::PrevPuzzle => p1 == p0 && r1 == r0
            && o1 == o0 && m == puzzle_only_text(),
        Command::Done | Command::TakeBlack | Command::TakeWhite | Command::AddStones => p1 == p0
            && r1 == r0 && o1 == o0 && m == opening_only_text(),
        Command::New | Command::Help | Command::Quit => false,
    }
}

/// "undid the last move — {c} to move"
fn undid_message(c: Color) -> (s: String)
    ensures
        s@ == undid_text(c),
{
    let mut s = text("undid the last move \u{2014} ");
    push_str(&mut s, color_name(c));
    push_str(&mut s, " to move");
    s
}

/// "redid move — {c} to move"
fn redid_message(c: Color) -> (s: String)
    ensures
        s@ == redid_text(c),
{
    let mut s = text("redid move \u{2014} ");
    push_str(&mut s, color_name(c));
    push_str(&mut s, " to move");
    s
}

/// One command during normal play.
pub fn dispatch_normal<B: GameBoard>(board: &mut B, holders: Option<Holders>, cmd: Command, overlay: &mut Option<Proof>) -> (r: Option<String>)
    requires
        old(board).inv(),
        cmd != Command::New && cmd != Command::Help && cmd != Command::Quit,
    ensures
        final(board).inv(),
        final(board).fast() == old(board).fast(),
        final(board).undo_floored() == old(board).undo_floored(),
        final(board).engine_name() == old(board).engine_name(),
        r matches Some(m) && normal_step(
            cmd,
            old(board).fast(),
            old(board).keeps_redo(),
            holders,
            old(board).pos(),
            old(board).redo_moves(),
            *old(overlay),
            final(board).pos(),
            final(board).redo_moves(),
            *final(overlay),
            m@,
        ),
{
    match cmd {
        Command::Play(mv) => match board.play(mv) {
            Ok(()) => Some(String::new()),
            Err(e) => Some(e.message()),
        },
        Command::Undo => {
            if board.moves().len() == 0 {
                Some(text("nothing to undo"))
            } else {
                board.undo();
                Some(undid_message(board.to_move()))
            }
        },
        Command::Redo => {
            if board.can_redo() {
                board.redo();
                Some(redid_message(board.to_move()))
            } else {
                Some(text("nothing to redo"))
            }
        },
        Command::Tss => run_tss(&*board, holders, overlay),
        Command::SolutionStep | Command::NextPuzzle | Command::PrevPuzzle => Some(
            text("that command is only available in puzzle mode"),
        ),
        _ => Some(text("that command is only available during the Swap2 opening")),
    }
}


// ------------------------------------------------------------------ puzzles

/// The claimed line of a puzzle, if it has one.
pub open spec fn claimed_line(p: Puzzle) -> Option<Seq<Move>> {
    match p.solution {
        Some(v) => Some(v@),
        None => None,
    }
}

/// The history differs from the claimed line somewhere along it.
pub open spec fn diverged(history: Seq<Move>, line: Seq<Move>) -> bool {
    exists|i: int| 0 <= i < history.len() && #[trigger] history[i]@ != line[i]@
}

/// "puzzle {i + 1}/{n}"
pub open spec fn puzzle_count_text(i: int, n: int) -> Seq<char> {
    "puzzle "@ + decimal((i + 1) as nat) + "/"@ + decimal(n as nat)
}

/// What stepping through the claimed line does: refuse without a line, at
/// its end or off it; otherwise play its next move.
pub open spec fn solution_step(line: Option<Seq<Move>>, p0: Position, r0: Seq<Move>, p1: Position, r1: Seq<Move>, m: Seq<char>) -> bool {
    match line {
        None => p1 == p0 && r1 == r0 && m == "this puzzle has no claimed solution"@,
        Some(l) => if p0.moves.len() >= l.len() {
            p1 == p0 && r1 == r0 && m == "end of the claimed line"@
        } else if diverged(p0.moves, l) {
            p1 == p0 && r1 == r0 && m == "history diverged from the claimed line \u{2014} 'new' to reset"@
        } else {
            let next = l[p0.moves.len() as int];
            let step = p0.moves.len() + 1;
            match p0.play_error(next@) {
                None => p1 == p0.after_play(next) && r1 == Seq::<Move>::empty() && m == "claimed line "@
                    + decimal(step) + "/"@ + decimal(l.len()),
                Some(e) => p1 == p0 && r1 == r0 && m == "claimed line broke at step "@ + decimal(step)
                    + ": "@ + play_error_text(e),
            }
        },
    }
}

/// What a command does while browsing puzzles: on puzzle `i0` of `ps`,
/// from position `p0` with redo stack `r0` and overlay `o0`, to puzzle
/// `i1`, `p1`, `r1`, `o1`, with message `m`.
pub open spec fn puzzle_step(
    cmd: Command,
    ps: Seq<Puzzle>,
    i0: int,
    p0: Position,
    r0: Seq<Move>,
    o0: Option<Proof>,
    i1: int,
    p1: Position,
    r1: Seq<Move>,
    o1: Option<Proof>,
    m: Seq<char>,
) -> bool {
    let n = ps.len() as int;
    match cmd {
        Command::SolutionStep => i1 == i0 && o1 == o0 && solution_step(claimed_line(ps[i0]), p0, r0, p1, r1, m),
        Command::Undo => i1 == i0 && o1 == o0 && if p0.moves.len() == 0 {
            p1 == p0 && r1 == r0 && m == "already at the puzzle root"@
        } else {
            p1 == p0.after_undo() && r1 == r0.push(p0.moves.last()) && m == undid_text(p1.to_move)
        },
        Command::NextPuzzle => i1 == (i0 + 1) % n && p1 == puzzle_setup(&ps[i1]) && r1 == Seq::<
            Move,
        >::empty() && o1 is None && m == puzzle_count_text(i1, n),
        Command::PrevPuzzle => i1 == (i0 + n - 1) % n && p1 == puzzle_setup(&ps[i1]) && r1 == Seq::<
            Move,
        >::empty() && o1 is None && m == puzzle_count_text(i1, n),
        Command::Tss => i1 == i0 && p1 == p0 && r1 == r0 && tss_step(p0, true, None, o0, o1, m),
        _ => i1 == i0 && normal_step(cmd, true, true, None, p0, r0, o0, p1, r1, o1, m),
    }
}

/// "puzzle {i + 1}/{n}"
fn puzzle_count_message(i: usize, n: usize) -> (s: String)
    requires
        i < n,
    ensures
        s@ == puzzle_count_text(i as int, n as int),
{
    let mut s = text("puzzle ");
    push_decimal(&mut s, (i + 1) as u64);
    push_str(&mut s, "/");
    push_decimal(&mut s, n as u64);
    s
}

/// Play the next move of the claimed line.
fn step_solution(puzzle: &mut PuzzleState) -> (r: Option<String>)
    requires
        old(puzzle).ok(),
    ensures
        final(puzzle).ok(),
        final(puzzle).puzzles_spec() == old(puzzle).puzzles_spec(),
        final(puzzle).index_spec() == old(puzzle).index_spec(),
        r matches Some(m) && solution_step(
            claimed_line(old(puzzle).puzzles_spec()[old(puzzle).index_spec()]),
            old(puzzle).board_spec().pos(),
            old(puzzle).board_spec().redo_moves(),
            final(puzzle).board_spec().pos(),
            final(puzzle).board_spec().redo_moves(),
            m@,
        ),
{
    let n = puzzle.board.moves().len();
    let (len, next, off_line) = match &puzzle.puzzles[puzzle.index].solution {
        None => {
            return Some(text("this puzzle has no claimed solution"));
        },
        Some(line) => {
            if n >= line.len() {
                return Some(text("end of the claimed line"));
            }
            let history = puzzle.board.moves();
            let mut off = false;
            let mut i: usize = 0;
            while i < n
                invariant
                    i <= n,
                    n == history@.len(),
                    n < line@.len(),
                    off == exists|j: int| 0 <= j < i && #[trigger] history@[j]@ != line@[j]@,
                decreases n - i,
            {
                if !history[i].same(line[i]) {
                    off = true;
                }
                i = i + 1;
            }
            (line.len(), line[n], off)
        },
    };
    if off_line {
        return Some(text("history diverged from the claimed line \u{2014} 'new' to reset"));
    }
    match puzzle.board.play(next) {
        Ok(()) => {
            let mut s = text("claimed line ");
            push_decimal(&mut s, (n + 1) as u64);
            push_str(&mut s, "/");
            push_decimal(&mut s, len as u64);
            Some(s)
        },
        Err(e) => {
            let mut s = text("claimed line broke at step ");
            push_decimal(&mut s, (n + 1) as u64);
            push_str(&mut s, ": ");
            let msg = e.message();
            push_string(&mut s, &msg);
            Some(s)
        },
    }
}

/// One command while browsing puzzles.
pub fn dispatch_puzzle(puzzle: &mut PuzzleState, cmd: Command, overlay: &mut Option<Proof>) -> (r: Option<String>)
    requires
        old(puzzle).ok(),
        cmd != Command::New && cmd != Command::Help && cmd != Command::Quit,
    ensures
        final(puzzle).ok(),
        final(puzzle).puzzles_spec() == old(puzzle).puzzles_spec(),
        r matches Some(m) && puzzle_step(
            cmd,
            old(puzzle).puzzles_spec(),
            old(puzzle).index_spec(),
            old(puzzle).board_spec().pos(),
            old(puzzle).board_spec().redo_moves(),
            *old(overlay),
            final(puzzle).index_spec(),
            final(puzzle).board_spec().pos(),
            final(puzzle).board_spec().redo_moves(),
            *final(overlay),
            m@,
        ),
{
    match cmd {
        Command::SolutionStep => step_solution(puzzle),
        Command::Undo => {
            if puzzle.board.moves().len() == 0 {
                Some(text("already at the puzzle root"))
            } else {
                puzzle.board.undo();
                Some(undid_message(puzzle.board.to_move()))
            }
        },
        Command::NextPuzzle => {
            let n = puzzle.puzzles.len();
            let i = (puzzle.index + 1) % n;
            let board = PuzzleBoard::new(&puzzle.puzzles[i]);
            puzzle.index = i;
            puzzle.board = board;
            *overlay = None;
            Some(puzzle_count_message(i, n))
        },
        Command::PrevPuzzle => {
            let n = puzzle.puzzles.len();
            let i = if puzzle.index == 0 {
                n - 1
            } else {
                puzzle.index - 1
            };
            proof {
                let x = puzzle.index + n - 1;
                if puzzle.index == 0 {
                    lemma_fundamental_div_mod_converse(x, n as int, 0, i as int);
                } else {
                    lemma_fundamental_div_mod_converse(x, n as int, 1, i as int);
                }
            }
            let board = PuzzleBoard::new(&puzzle.puzzles[i]);
            puzzle.index = i;
            puzzle.board = board;
            *overlay = None;
            Some(puzzle_count_message(i, n))
        },
        Command::Tss => run_tss(&puzzle.board, None, overlay),
        _ => dispatch_normal(&mut puzzle.board, None, cmd, overlay),
    }
}

// ------------------------------------------------------------------ status lines

/// The status line of normal play.
pub open spec fn normal_status_text(p: Position, name: Seq<char>, holders: Option<Holders>) -> Seq<char> {
    match p.status {
        Status::Ongoing => {
            let base = match holders {
                Some(h) => "Black: "@ + party_label(h.black_spec()) + " \u{b7} White: "@ + party_label(
                    h.white_spec(),
                ) + " \u{b7} move "@ + decimal(p.moves.len()),
                None => "engine: "@ + name + " \u{b7} move "@ + decimal(p.moves.len()),
            };
            base + " \u{b7} "@ + color_word(p.to_move) + " to move"@
        },
        _ => status_text(p, name),
    }
}

/// The status line of normal play.
pub fn status_line_for<B: GameBoard>(board: &B, holders: Option<Holders>) -> (s: String)
    requires
        board.inv(),
    ensures
        s@ == normal_status_text(board.pos(), board.engine_name(), holders),
{
    match board.status() {
        Status::Ongoing => {
            let mut s = match holders {
                Some(h) => {
                    let mut b = text("Black: ");
                    push_str(&mut b, h.black().label());
                    push_str(&mut b, " \u{b7} White: ");
                    push_str(&mut b, h.white().label());
                    push_str(&mut b, " \u{b7} move ");
                    push_decimal(&mut b, board.moves().len() as u64);
                    b
                },
                None => {
                    let mut b = text("engine: ");
                    push_str(&mut b, board.name());
                    push_str(&mut b, " \u{b7} move ");
                    push_decimal(&mut b, board.moves().len() as u64);
                    b
                },
            };
            push_str(&mut s, " \u{b7} ");
            push_str(&mut s, color_name(board.to_move()));
            push_str(&mut s, " to move");
            s
        },
        _ => status_line(board),
    }
}

/// The status line of puzzle browsing.
pub open spec fn puzzle_status_text(ps: Seq<Puzzle>, i: int, p: Position) -> Seq<char> {
    let z = ps[i];
    let solution_tag = if z.solution is Some {
        " \u{b7} solution"@
    } else {
        Seq::<char>::empty()
    };
    let depth_tag = match z.depth {
        Some(d) => " \u{b7} depth "@ + decimal(d as nat),
        None => Seq::<char>::empty(),
    };
    match p.status {
        Status::Ongoing => z.name@ + " \u{b7} "@ + decimal((i + 1) as nat) + "/"@ + decimal(ps.len())
            + " \u{b7} "@ + color_word(p.to_move) + " to move"@ + solution_tag + depth_tag,
        _ => status_text(p, "fast"@),
    }
}

/// The status line of puzzle browsing.
pub fn puzzle_status_line(puzzle: &PuzzleState) -> (s: String)
    requires
        puzzle.ok(),
    ensures
        s@ == puzzle_status_text(puzzle.puzzles_spec(), puzzle.index_spec(), puzzle.board_spec().pos()),
{
    let count = puzzle.puzzles.len();
    let p = &puzzle.puzzles[puzzle.index];
    match puzzle.board.status() {
        Status::Ongoing => {
            let mut s = String::new();
            push_string(&mut s, &p.name);
            push_str(&mut s, " \u{b7} ");
            push_decimal(&mut s, (puzzle.index + 1) as u64);
            push_str(&mut s, "/");
            push_decimal(&mut s, count as u64);
            push_str(&mut s, " \u{b7} ");
            push_str(&mut s, color_name(puzzle.board.to_move()));
            push_str(&mut s, " to move");
            if p.solution.is_some() {
                push_str(&mut s, " \u{b7} solution");
            }
            match p.depth {
                Some(d) => {
                    push_str(&mut s, " \u{b7} depth ");
                    push_decimal(&mut s, d as u64);
                },
                None => {},
            }
            proof {
                assert(Seq::<char>::empty() + p.name@ =~= p.name@);
                let z = p;
                if z.solution is Some {
                } else {
                    assert(s@ =~= s@ + Seq::<char>::empty());
                }
            }
            s
        },
        _ => status_line(&puzzle.board),
    }
}

/// The status line of a state.
pub open spec fn state_status_text(s: AppState) -> Seq<char> {
    match s {
        AppState::Opening(o) => prompt_text(o@),
        AppState::Normal(b, h) => normal_status_text(b.pos(), b.engine_name(), h),
        AppState::Puzzle(p) => puzzle_status_text(p.puzzles_spec(), p.index_spec(), p.board_spec().pos()),
    }
}

/// The status line below the board.
pub fn status_for(state: &AppState) -> (s: String)
    requires
        state.ok(),
    ensures
        s@ == state_status_text(*state),
{
    match state {
        AppState::Opening(opening) => opening_prompt_message(opening),
        AppState::Normal(board, holders) => status_line_for(board, *holders),
        AppState::Puzzle(puzzle) => puzzle_status_line(puzzle),
    }
}

// ------------------------------------------------------------------ frames

/// The winner of an optional proof; Black when there is none, which then
/// paints no cell.
pub open spec fn overlay_winner(o: Option<Proof>) -> Color {
    match o {
        Some(p) => p.winner,
        None => Color::Black,
    }
}

/// The line of an optional proof.
pub open spec fn overlay_line(o: Option<Proof>) -> Option<Seq<Move>> {
    match o {
        Some(p) => Some(p.line@),
        None => None,
    }
}

/// The plain frame of a state: the opening's stones, or the board with
/// the proof overlay if there is one.
pub open spec fn state_frame(s: AppState, overlay: Option<Proof>) -> Seq<Seq<char>> {
    match s {
        AppState::Opening(o) => plain_frame(opening_grid(o@.placements), last_placement(o@.placements), None),
        AppState::Normal(b, _) => plain_frame(grid_of(b.pos()), last_cell(b.pos().moves), overlay_line(overlay)),
        AppState::Puzzle(p) => plain_frame(
            grid_of(p.board_spec().pos()),
            last_cell(p.board_spec().pos().moves),
            overlay_line(overlay),
        ),
    }
}

/// `lines` are the colored frame of a state: the opening's stones, or the
/// board with the proof overlay if there is one.
pub open spec fn state_styled_frame(lines: Seq<Seq<char>>, s: AppState, overlay: Option<Proof>) -> bool {
    match s {
        AppState::Opening(o) => styled_frame(
            lines,
            opening_grid(o@.placements),
            last_placement(o@.placements),
            None,
            Color::Black,
        ),
        AppState::Normal(b, _) => styled_frame(
            lines,
            grid_of(b.pos()),
            last_cell(b.pos().moves),
            overlay_line(overlay),
            overlay_winner(overlay),
        ),
        AppState::Puzzle(p) => styled_frame(
            lines,
            grid_of(p.board_spec().pos()),
            last_cell(p.board_spec().pos().moves),
            overlay_line(overlay),
            overlay_winner(overlay),
        ),
    }
}

fn render_board<B: GameBoard>(board: &B, overlay: Option<&Proof>, styled: bool) -> (lines: Vec<String>)
    requires
        board.inv(),
    ensures
        !styled ==> views(lines@) == plain_frame(grid_of(board.pos()), last_cell(board.pos().moves), match overlay {
            Some(p) => Some(p.line@),
            None => None,
        }),
        styled ==> styled_frame(views(lines@), grid_of(board.pos()), last_cell(board.pos().moves), match overlay {
            Some(p) => Some(p.line@),
            None => None,
        }, match overlay {
            Some(p) => p.winner,
            None => Color::Black,
        }),
{
    match overlay {
        Some(proof) => {
            if styled {
                render_styled_with_overlay(board, proof)
            } else {
                render_lines_with_overlay(board, proof)
            }
        },
        None => {
            if styled {
                render_styled(board)
            } else {
                render_lines(board)
            }
        },
    }
}

/// The frame of a state, plain or colored.
pub fn render_state(state: &AppState, overlay: Option<&Proof>, styled: bool) -> (lines: Vec<String>)
    requires
        state.ok(),
    ensures
        !styled ==> views(lines@) == state_frame(*state, match overlay {
            Some(p) => Some(*p),
            None => None,
        }),
        styled ==> state_styled_frame(views(lines@), *state, match overlay {
            Some(p) => Some(*p),
            None => None,
        }),
{
    match state {
        AppState::Opening(opening) => {
            if styled {
                render_opening_styled(opening)
            } else {
                render_opening_lines(opening)
            }
        },
        AppState::Normal(board, _) => render_board(board, overlay, styled),
        AppState::Puzzle(puzzle) => render_board(&puzzle.board, overlay, styled),
    }
}

// ------------------------------------------------------------------ dispatch

/// The opening went on to `s1` or ended in normal play, as
/// `opening_step` allows, with message `m`.
pub open spec fn opening_dispatched(cmd: Command, v0: OpeningView, s1: AppState, m: Seq<char>) -> bool {
    exists|v1: OpeningView, res: OpeningResult|
        #![trigger opening_step(cmd, v0, v1, res)]
        opening_step(cmd, v0, v1, res) && match res {
            OpeningResult::Message(mm) => mm@ == m && (s1 matches AppState::Opening(o) && o@ == v1),
            OpeningResult::Finish(b, h, mm) => mm@ == m && s1 == AppState::Normal(b, Some(h)),
        }
}

/// What one command does to the session: quit, help and a new game in
/// every mode; any other command clears the overlay unless it is the
/// threat-space demo, then acts as the mode's step says.
pub open spec fn dispatch_step(
    kind: EngineKind,
    swap2: bool,
    cmd: Command,
    s0: AppState,
    o0: Option<Proof>,
    s1: AppState,
    o1: Option<Proof>,
    r: Option<String>,
) -> bool {
    match cmd {
        Command::Quit => r is None && s1 == s0 && o1 == o0,
        Command::Help => r matches Some(m) && m@ == help_text(s0) && s1 == s0 && o1 == o0,
        Command::New => o1 is None && (r matches Some(m) && m@ == start_text(s1)) && match s0 {
            AppState::Puzzle(p) => fresh_puzzle(s1, p.puzzles_spec(), p.index_spec()),
            _ => fresh_game(s1, kind, swap2),
        },
        _ => {
            let oc = if cmd == Command::Tss {
                o0
            } else {
                None
            };
            r matches Some(m) && match s0 {
                AppState::Opening(o) => o1 == oc && opening_dispatched(cmd, o@, s1, m@),
                AppState::Normal(b0, h0) => s1 matches AppState::Normal(b1, h1) && h1 == h0
                    && b1.fast() == b0.fast() && b1.engine_name() == b0.engine_name() && normal_step(
                    cmd,
                    b0.fast(),
                    b0.keeps_redo(),
                    h0,
                    b0.pos(),
                    b0.redo_moves(),
                    oc,
                    b1.pos(),
                    b1.redo_moves(),
                    o1,
                    m@,
                ),
                AppState::Puzzle(p0) => s1 matches AppState::Puzzle(p1) && p1.puzzles_spec()
                    == p0.puzzles_spec() && puzzle_step(
                    cmd,
                    p0.puzzles_spec(),
                    p0.index_spec(),
                    p0.board_spec().pos(),
                    p0.board_spec().redo_moves(),
                    oc,
                    p1.index_spec(),
                    p1.board_spec().pos(),
                    p1.board_spec().redo_moves(),
                    o1,
                    m@,
                ),
            }
        },
    }
}

/// One player action applied to the session. Returns the message to show
/// next, or `None` to quit.
pub fn dispatch(state: &mut AppState, kind: EngineKind, swap2: bool, cmd: Command, overlay: &mut Option<Proof>) -> (r: Option<String>)
    requires
        old(state).ok(),
    ensures
        final(state).ok(),
        dispatch_step(kind, swap2, cmd, *old(state), *old(overlay), *final(state), *final(overlay), r),
{
    match cmd {
        Command::Quit => {
            return None;
        },
        Command::Help => {
            return Some(text(help_for(state)));
        },
        Command::New => {
            *overlay = None;
            let mut taken = AppState::Opening(OpeningState::new());
            std::mem::swap(&mut taken, state);
            match taken {
                AppState::Puzzle(puzzle) => {
                    let PuzzleState { puzzles, index, board: _ } = puzzle;
                    *state = AppState::new_puzzle(puzzles, index);
                },
                _ => {
                    *state = AppState::new(kind, swap2);
                },
            }
            return Some(start_message(state));
        },
        _ => {},
    }
    if cmd != Command::Tss {
        *overlay = None;
    }
    let mut taken = AppState::Opening(OpeningState::new());
    std::mem::swap(&mut taken, state);
    match taken {
        AppState::Opening(mut opening) => {
            let ghost v0 = opening@;
            let res = dispatch_opening(&mut opening, cmd);
            match res {
                Some(OpeningResult::Message(m)) => {
                    let ghost v1 = opening@;
                    *state = AppState::Opening(opening);
                    proof {
                        let r = OpeningResult::Message(m);
                        assert(opening_step(cmd, v0, v1, r));
                    }
                    Some(m)
                },
                Some(OpeningResult::Finish(board, holders, m)) => {
                    let ghost v1 = opening@;
                    proof {
                        let r = OpeningResult::Finish(board, holders, m);
                        assert(opening_step(cmd, v0, v1, r));
                    }
                    *state = AppState::Normal(board, Some(holders));
                    Some(m)
                },
                None => {
                    *state = AppState::Opening(opening);
                    None
                },
            }
        },
        AppState::Normal(mut board, holders) => {
            let m = dispatch_normal(&mut board, holders, cmd, overlay);
            *state = AppState::Normal(board, holders);
            m
        },
        AppState::Puzzle(mut puzzle) => {
            let m = dispatch_puzzle(&mut puzzle, cmd, overlay);
            *state = AppState::Puzzle(puzzle);
            m
        },
    }
}

} // verus!
