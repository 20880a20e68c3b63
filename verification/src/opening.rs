//! The Swap2 opening as the front end runs it: a log of placements and a
//! phase, so that any step can be undone.
//!
//! Player A places Black, Black, White; Player B then takes a color or adds
//! Black, White; in the latter case Player A takes a color. White moves
//! first after the opening.
use vstd::prelude::*;
use crate::board::{Board, Color, Position, Status, cells_of, status_of};
use crate::moveset::Move;
use crate::text::text;

verus! {

/// The two hotseat parties. Player A starts the opening.
#[derive(Debug, Clone, Copy, PartialEq, Eq, Structural)]
pub enum Party {
    /// The party that places the first three stones.
    A,
    /// The party that responds with a choice or two more stones.
    B,
}

impl Party {
    /// Human-readable label.
    pub fn label(self) -> (s: &'static str)
        ensures
            s@ == party_label(self),
    {
        match self {
            Party::A => "Player A",
            Party::B => "Player B",
        }
    }
}

/// The label of a party.
pub open spec fn party_label(p: Party) -> Seq<char> {
    match p {
        Party::A => "Player A"@,
        Party::B => "Player B"@,
    }
}

/// A phase of the Swap2 opening.
#[derive(Debug, Clone, Copy, PartialEq, Eq, Structural)]
pub enum OpeningPhase {
    /// Player A is placing two Black and one White stone.
    Placing3,
    /// Player B chooses: take Black, take White, or place two more.
    FirstChoice,
    /// Player B is placing one Black and one White stone.
    Placing2,
    /// Player A picks a color after the extra stones were placed.
    FinalChoice,
}

/// Who holds each absolute color after the opening.
#[derive(Debug, Clone, Copy, PartialEq, Eq, Structural)]
pub struct Holders {
    black: Party,
    white: Party,
}

/// The holders a choice in `phase` gives: in the first choice Player B
/// chooses, in the final choice Player A; a choice in a placement phase
/// gives none.
pub open spec fn holders_for(phase: OpeningPhase, choice: Color) -> Option<(Party, Party)> {
    match (phase, choice) {
        (OpeningPhase::FirstChoice, Color::Black) => Some((Party::B, Party::A)),
        (OpeningPhase::FirstChoice, Color::White) => Some((Party::A, Party::B)),
        (OpeningPhase::FinalChoice, Color::Black) => Some((Party::A, Party::B)),
        (OpeningPhase::FinalChoice, Color::White) => Some((Party::B, Party::A)),
        _ => None,
    }
}

impl Holders {
    pub closed spec fn black_spec(self) -> Party {
        self.black
    }

    pub closed spec fn white_spec(self) -> Party {
        self.white
    }

    /// Direct constructor.
    pub fn new(black: Party, white: Party) -> (h: Holders)
        ensures
            h.black_spec() == black,
            h.white_spec() == white,
    {
        Holders { black, white }
    }

    /// The holder map for a Swap2 choice (see `holders_for`).
    pub fn from_choice(phase: OpeningPhase, choice: Color) -> (h: Option<Holders>)
        ensures
            match holders_for(phase, choice) {
                Some((b, w)) => h matches Some(x) && x.black_spec() == b && x.white_spec() == w,
                None => h is None,
            },
    {
        match (phase, choice) {
            (OpeningPhase::FirstChoice, Color::Black) => Some(Holders { black: Party::B, white: Party::A }),
            (OpeningPhase::FirstChoice, Color::White) => Some(Holders { black: Party::A, white: Party::B }),
            (OpeningPhase::FinalChoice, Color::Black) => Some(Holders { black: Party::A, white: Party::B }),
            (OpeningPhase::FinalChoice, Color::White) => Some(Holders { black: Party::B, white: Party::A }),
            _ => None,
        }
    }

    /// The party holding Black.
    pub fn black(self) -> (p: Party)
        ensures
            p == self.black_spec(),
    {
        self.black
    }

    /// The party holding White.
    pub fn white(self) -> (p: Party)
        ensures
            p == self.white_spec(),
    {
        self.white
    }
}

/// The result of finishing the opening with a color choice.
#[derive(Debug)]
pub struct OpeningOutcome {
    /// The board to play the rest of the game on.
    pub board: Board,
    /// Who holds Black.
    pub black_holder: Party,
    /// Who holds White.
    pub white_holder: Party,
}

/// The color of the `k`-th stone of the opening: Black, Black, White, then
/// Black, White.
pub open spec fn stone_order(k: int) -> Color {
    if k == 2 || k == 4 {
        Color::White
    } else {
        Color::Black
    }
}

/// The number of Black stones among the first `n` of the opening.
pub open spec fn blacks_in(n: int) -> int {
    if n <= 2 {
        n
    } else if n <= 4 {
        n - 1
    } else {
        3
    }
}

/// The abstract opening: the stones placed, in order, and the phase.
pub struct OpeningView {
    pub placements: Seq<(Move, Color)>,
    pub phase: OpeningPhase,
}

impl OpeningView {
    /// The color to place next, if the phase is a placement phase.
    pub open spec fn current_color(self) -> Option<Color> {
        let black = blacks_in(self.placements.len() as int);
        match self.phase {
            OpeningPhase::Placing3 => Some(
                if black < 2 {
                    Color::Black
                } else {
                    Color::White
                },
            ),
            OpeningPhase::Placing2 => Some(
                if black < 3 {
                    Color::Black
                } else {
                    Color::White
                },
            ),
            _ => None,
        }
    }

    /// The placement phase has all its stones.
    pub open spec fn phase_full(self) -> bool {
        match self.phase {
            OpeningPhase::Placing3 => self.placements.len() == 3,
            OpeningPhase::Placing2 => self.placements.len() == 5,
            _ => false,
        }
    }

    /// A stone may be placed: a placement phase that is not full.
    pub open spec fn can_place(self) -> bool {
        (self.phase == OpeningPhase::Placing3 || self.phase == OpeningPhase::Placing2)
            && !self.phase_full()
    }

    /// The party to act.
    pub open spec fn active_party(self) -> Party {
        match self.phase {
            OpeningPhase::Placing3 | OpeningPhase::FinalChoice => Party::A,
            OpeningPhase::FirstChoice | OpeningPhase::Placing2 => Party::B,
        }
    }

    /// Stones of `color` still to place in the current placement phase.
    pub open spec fn remaining(self, color: Color) -> int {
        let n = self.placements.len() as int;
        let black = blacks_in(n);
        let white = n - black;
        if self.current_color() != Some(color) {
            0
        } else {
            match (self.phase, color) {
                (OpeningPhase::Placing3, Color::Black) => 2 - black,
                (OpeningPhase::Placing3, Color::White) => 1 - white,
                (OpeningPhase::Placing2, Color::Black) => 3 - black,
                (OpeningPhase::Placing2, Color::White) => 2 - white,
                _ => 0,
            }
        }
    }

    /// A stone of the opening sits on `m`.
    pub open spec fn taken(self, m: int) -> bool {
        exists|k: int| 0 <= k < self.placements.len() && #[trigger] self.placements[k].0@ == m
    }

    /// The phase after a placement brought the stones to `n`.
    pub open spec fn advanced(phase: OpeningPhase, n: nat) -> OpeningPhase {
        match phase {
            OpeningPhase::Placing3 => if n == 3 {
                OpeningPhase::FirstChoice
            } else {
                OpeningPhase::Placing3
            },
            OpeningPhase::Placing2 => if n == 5 {
                OpeningPhase::FinalChoice
            } else {
                OpeningPhase::Placing2
            },
            _ => phase,
        }
    }

    /// The opening after `undo`.
    pub open spec fn after_undo(self) -> OpeningView {
        match self.phase {
            OpeningPhase::FirstChoice => OpeningView { phase: OpeningPhase::Placing3, ..self },
            OpeningPhase::FinalChoice => OpeningView { phase: OpeningPhase::Placing2, ..self },
            OpeningPhase::Placing2 => if self.placements.len() > 3 {
                OpeningView { placements: self.placements.drop_last(), ..self }
            } else {
                OpeningView { phase: OpeningPhase::FirstChoice, ..self }
            },
            OpeningPhase::Placing3 => if self.placements.len() > 0 {
                OpeningView { placements: self.placements.drop_last(), ..self }
            } else {
                self
            },
        }
    }

    /// The cells of the stones of one color.
    pub open spec fn cells(self, color: Color) -> Set<int> {
        Set::new(
            |m: int|
                exists|k: int|
                    0 <= k < self.placements.len() && #[trigger] self.placements[k].0@ == m
                        && self.placements[k].1 == color,
        )
    }

    /// The position the opening hands over: its stones, White to move, an
    /// empty history.
    pub open spec fn position(self) -> Position {
        Position {
            black: self.cells(Color::Black),
            white: self.cells(Color::White),
            to_move: Color::White,
            status: status_of(self.cells(Color::Black), self.cells(Color::White)),
            moves: Seq::<Move>::empty(),
        }
    }
}

/// The mutable Swap2 opening state kept by the front end.
#[derive(Debug)]
pub struct OpeningState {
    placements: Vec<(Move, Color)>,
    phase: OpeningPhase,
}

impl View for OpeningState {
    type V = OpeningView;

    closed spec fn view(&self) -> OpeningView {
        OpeningView { placements: self.placements@, phase: self.phase }
    }
}

/// The consistency of an opening: at most five distinct stones in the fixed
/// color order, as many as the phase allows.
pub open spec fn opening_ok(v: OpeningView) -> bool {
    let n = v.placements.len();
    &&& n <= 5
    &&& forall|k: int| 0 <= k < n ==> #[trigger] v.placements[k].1 == stone_order(k)
    &&& forall|a: int, b: int|
        0 <= a < b < n ==> #[trigger] v.placements[a].0@ != #[trigger] v.placements[b].0@
    &&& match v.phase {
        OpeningPhase::Placing3 => n <= 3,
        OpeningPhase::FirstChoice => n == 3,
        OpeningPhase::Placing2 => 3 <= n <= 5,
        OpeningPhase::FinalChoice => n == 5,
    }
}

impl OpeningState {
    #[verifier::type_invariant]
    spec fn inv(self) -> bool {
        opening_ok(self@)
    }

    /// A fresh Swap2 opening.
    pub fn new() -> (s: OpeningState)
        ensures
            s@.placements == Seq::<(Move, Color)>::empty(),
            s@.phase == OpeningPhase::Placing3,
    {
        let s = OpeningState { placements: Vec::new(), phase: OpeningPhase::Placing3 };
        proof {
            assert(s@.placements =~= Seq::<(Move, Color)>::empty());
        }
        s
    }

    /// Current phase.
    pub fn phase(&self) -> (p: OpeningPhase)
        ensures
            p == self@.phase,
    {
        self.phase
    }

    /// All stones placed so far, in order.
    pub fn placements(&self) -> (ps: &[(Move, Color)])
        ensures
            ps@ == self@.placements,
    {
        self.placements.as_slice()
    }

    /// The party whose turn it is to act in the current phase.
    pub fn active_party(&self) -> (p: Party)
        ensures
            p == self@.active_party(),
    {
        match self.phase {
            OpeningPhase::Placing3 | OpeningPhase::FinalChoice => Party::A,
            OpeningPhase::FirstChoice | OpeningPhase::Placing2 => Party::B,
        }
    }

    fn black_count(&self) -> (n: u8)
        ensures
            n == blacks_in(self@.placements.len() as int),
    {
        proof {
            use_type_invariant(self);
        }
        let mut n: u8 = 0;
        let mut k: usize = 0;
        while k < self.placements.len()
            invariant
                k <= self.placements.len(),
                opening_ok(self@),
                n == blacks_in(k as int),
            decreases self.placements.len() - k,
        {
            if self.placements[k].1 == Color::Black {
                n = n + 1;
            }
            k = k + 1;
        }
        n
    }

    fn white_count(&self) -> (n: u8)
        ensures
            n == self@.placements.len() - blacks_in(self@.placements.len() as int),
    {
        proof {
            use_type_invariant(self);
        }
        let mut n: u8 = 0;
        let mut k: usize = 0;
        while k < self.placements.len()
            invariant
                k <= self.placements.len(),
                opening_ok(self@),
                n == k - blacks_in(k as int),
            decreases self.placements.len() - k,
        {
            if self.placements[k].1 == Color::White {
                n = n + 1;
            }
            k = k + 1;
        }
        n
    }

    /// The color that must be placed next, if any.
    pub fn current_color(&self) -> (c: Option<Color>)
        ensures
            c == self@.current_color(),
    {
        let black = self.black_count();
        match self.phase {
            OpeningPhase::Placing3 => {
                if black < 2 {
                    Some(Color::Black)
                } else {
                    Some(Color::White)
                }
            },
            OpeningPhase::Placing2 => {
                if black < 3 {
                    Some(Color::Black)
                } else {
                    Some(Color::White)
                }
            },
            _ => None,
        }
    }

    /// How many stones of `color` still need to be placed in the active
    /// placement phase; `0` in choice phases.
    pub fn remaining(&self, color: Color) -> (n: u8)
        ensures
            n == self@.remaining(color),
    {
        proof {
            use_type_invariant(self);
        }
        let current = self.current_color();
        if current != Some(color) {
            return 0;
        }
        match (self.phase, color) {
            (OpeningPhase::Placing3, Color::Black) => 2 - self.black_count(),
            (OpeningPhase::Placing3, Color::White) => 1 - self.white_count(),
            (OpeningPhase::Placing2, Color::Black) => 3 - self.black_count(),
            (OpeningPhase::Placing2, Color::White) => 2 - self.white_count(),
            _ => 0,
        }
    }

    /// True in a placement phase that still needs stones.
    pub fn can_place(&self) -> (b: bool)
        ensures
            b == self@.can_place(),
    {
        (self.phase == OpeningPhase::Placing3 || self.phase == OpeningPhase::Placing2)
            && !self.phase_full()
    }

    /// True if the current phase has exactly the stones it needs.
    fn phase_full(&self) -> (b: bool)
        ensures
            b == self@.phase_full(),
    {
        match self.phase {
            OpeningPhase::Placing3 => self.placements.len() == 3,
            OpeningPhase::Placing2 => self.placements.len() == 5,
            _ => false,
        }
    }

    fn copy_placements(&self) -> (v: Vec<(Move, Color)>)
        ensures
            v@ == self@.placements,
    {
        let mut v: Vec<(Move, Color)> = Vec::new();
        let mut k: usize = 0;
        while k < self.placements.len()
            invariant
                k <= self.placements.len(),
                v@ == self.placements@.subrange(0, k as int),
            decreases self.placements.len() - k,
        {
            v.push(self.placements[k]);
            k = k + 1;
        }
        proof {
            assert(v@ =~= self.placements@);
        }
        v
    }

    /// A copy of the opening.
    pub fn duplicate(&self) -> (s: OpeningState)
        ensures
            s@ == self@,
    {
        proof {
            use_type_invariant(self);
        }
        OpeningState { placements: self.copy_placements(), phase: self.phase }
    }

    /// A stone of the opening sits on `mv`.
    fn taken(&self, mv: Move) -> (b: bool)
        ensures
            b == self@.taken(mv@),
    {
        let mut k: usize = 0;
        while k < self.placements.len()
            invariant
                k <= self.placements.len(),
                forall|j: int| 0 <= j < k ==> self.placements@[j].0@ != mv@,
            decreases self.placements.len() - k,
        {
            if self.placements[k].0.same(mv) {
                proof {
                    assert(self@.placements[k as int].0@ == mv@);
                }
                return true;
            }
            k = k + 1;
        }
        false
    }

    /// Place the color the current phase requires on `mv`, advancing to
    /// the choice when the phase is complete. A choice phase, or a full
    /// placement phase (whose next step is `finish`), has no stone to place:
    /// the call is refused with "no more stones to place in this phase" and
    /// the opening stays as it was. A full phase is refused rather than
    /// given a stone past its count, so that the opening never holds more
    /// stones than its phase allows and the board built from it is always
    /// a valid position.
    pub fn place(&mut self, mv: Move) -> (r: Result<(), String>)
        ensures
            match (if old(self)@.phase_full() {
                None
            } else {
                old(self)@.current_color()
            }) {
                None => r matches Err(e) && e@ == "no more stones to place in this phase"@
                    && final(self)@ == old(self)@,
                Some(c) => if old(self)@.taken(mv@) {
                    r matches Err(e) && e@ == "cell is already occupied"@ && final(self)@ == old(
                        self,
                    )@
                } else {
                    r is Ok && final(self)@ == (OpeningView {
                        placements: old(self)@.placements.push((mv, c)),
                        phase: OpeningView::advanced(
                            old(self)@.phase,
                            old(self)@.placements.len() + 1,
                        ),
                    })
                },
            },
    {
        proof {
            use_type_invariant(&*self);
        }
        if self.phase_full() {
            return Err(text("no more stones to place in this phase"));
        }
        let color = match self.current_color() {
            Some(c) => c,
            None => {
                return Err(text("no more stones to place in this phase"));
            },
        };
        if self.taken(mv) {
            return Err(text("cell is already occupied"));
        }
        let mut placements = self.copy_placements();
        placements.push((mv, color));
        let n = placements.len();
        let phase = match self.phase {
            OpeningPhase::Placing3 => if n == 3 {
                OpeningPhase::FirstChoice
            } else {
                OpeningPhase::Placing3
            },
            OpeningPhase::Placing2 => if n == 5 {
                OpeningPhase::FinalChoice
            } else {
                OpeningPhase::Placing2
            },
            other => other,
        };
        proof {
            let old_p = self.placements@;
            assert forall|a: int, b: int|
                0 <= a < b < placements@.len() implies #[trigger] placements@[a].0@
                != #[trigger] placements@[b].0@ by {
                if b == old_p.len() {
                    assert(placements@[a] == old_p[a]);
                }
            }
            assert forall|k: int| 0 <= k < placements@.len() implies #[trigger] placements@[k].1
                == stone_order(k) by {
                if k == old_p.len() {
                    assert(blacks_in(k) < 2 <==> k < 2);
                }
            }
        }
        *self = OpeningState { placements, phase };
        Ok(())
    }

    /// Confirm a full placement phase and move to the choice prompt.
    pub fn finish(&mut self) -> (r: Result<(), String>)
        ensures
            if old(self)@.phase_full() {
                r is Ok && final(self)@ == (OpeningView {
                    phase: if old(self)@.phase == OpeningPhase::Placing3 {
                        OpeningPhase::FirstChoice
                    } else {
                        OpeningPhase::FinalChoice
                    },
                    ..old(self)@
                })
            } else {
                r matches Err(e) && e@ == "no stones left to place in this phase \u{2014} type a move or 'u'"@
                    && final(self)@ == old(self)@
            },
    {
        proof {
            use_type_invariant(&*self);
        }
        match self.phase {
            OpeningPhase::Placing3 => {
                if self.placements.len() == 3 {
                    self.phase = OpeningPhase::FirstChoice;
                    return Ok(());
                }
            },
            OpeningPhase::Placing2 => {
                if self.placements.len() == 5 {
                    self.phase = OpeningPhase::FinalChoice;
                    return Ok(());
                }
            },
            _ => {},
        }
        Err(text("no stones left to place in this phase \u{2014} type a move or 'u'"))
    }

    /// Undo the last action: a placement removes the last stone, a choice
    /// prompt returns to the full placement phase before it.
    pub fn undo(&mut self)
        ensures
            final(self)@ == old(self)@.after_undo(),
    {
        proof {
            use_type_invariant(&*self);
        }
        match self.phase {
            OpeningPhase::FirstChoice => self.phase = OpeningPhase::Placing3,
            OpeningPhase::FinalChoice => self.phase = OpeningPhase::Placing2,
            OpeningPhase::Placing2 => {
                if self.placements.len() > 3 {
                    let mut placements = self.copy_placements();
                    let _ = placements.pop();
                    *self = OpeningState { placements, phase: OpeningPhase::Placing2 };
                } else {
                    self.phase = OpeningPhase::FirstChoice;
                }
            },
            OpeningPhase::Placing3 => {
                let mut placements = self.copy_placements();
                let _ = placements.pop();
                *self = OpeningState { placements, phase: OpeningPhase::Placing3 };
            },
        }
    }

    /// True if there is nothing to undo.
    pub fn is_at_start(&self) -> (b: bool)
        ensures
            b == (self@.placements.len() == 0 && self@.phase == OpeningPhase::Placing3),
    {
        self.placements.len() == 0 && self.phase == OpeningPhase::Placing3
    }

    /// The stones of one color, in order.
    fn stones_of(&self, color: Color) -> (v: Vec<Move>)
        ensures
            cells_of(v@) == self@.cells(color),
    {
        let mut v: Vec<Move> = Vec::new();
        let mut k: usize = 0;
        while k < self.placements.len()
            invariant
                k <= self.placements.len(),
                forall|m: int| #[trigger] cells_of(v@).contains(m) <==> exists|j: int|
                    0 <= j < k && #[trigger] self.placements@[j].0@ == m && self.placements@[j].1
                        == color,
            decreases self.placements.len() - k,
        {
            let (mv, c) = self.placements[k];
            let ghost old_v = v@;
            if c == color {
                v.push(mv);
            }
            proof {
                assert forall|m: int| #[trigger] cells_of(v@).contains(m) <==> exists|j: int|
                    0 <= j < k + 1 && #[trigger] self.placements@[j].0@ == m && self.placements@[j].1
                        == color by {
                    if cells_of(v@).contains(m) {
                        let i = choose|i: int| 0 <= i < v@.len() && #[trigger] v@[i]@ == m;
                        if i < old_v.len() {
                            assert(old_v[i]@ == m);
                            assert(cells_of(old_v).contains(m));
                        } else {
                            assert(self.placements@[k as int].0@ == m);
                        }
                    }
                    if exists|j: int|
                        0 <= j < k + 1 && #[trigger] self.placements@[j].0@ == m && self.placements@[j].1
                            == color {
                        let j = choose|j: int|
                            0 <= j < k + 1 && #[trigger] self.placements@[j].0@ == m
                                && self.placements@[j].1 == color;
                        if j < k {
                            assert(cells_of(old_v).contains(m));
                            let i = choose|i: int| 0 <= i < old_v.len() && #[trigger] old_v[i]@ == m;
                            assert(v@[i]@ == m);
                        } else {
                            assert(v@[v@.len() - 1]@ == m);
                        }
                    }
                }
            }
            k = k + 1;
        }
        proof {
            assert(cells_of(v@) =~= self@.cells(color));
        }
        v
    }

    /// The board the opening hands over; only at a choice, where the counts
    /// are two Black and one White, or three and two.
    fn build_board(&self) -> (b: Board)
        requires
            self@.phase == OpeningPhase::FirstChoice || self@.phase == OpeningPhase::FinalChoice,
        ensures
            b.wf(),
            b@ == self@.position(),
    {
        proof {
            use_type_invariant(self);
        }
        let black = self.stones_of(Color::Black);
        let white = self.stones_of(Color::White);
        proof {
            self.lemma_color_counts();
        }
        match Board::from_position(black.as_slice(), white.as_slice(), Color::White) {
            Ok(b) => b,
            Err(_) => {
                proof {
                    assert(false);
                }
                Board::new()
            },
        }
    }

    /// At a choice the stones split into two Black and one White, or three
    /// and two, on distinct cells.
    proof fn lemma_color_counts(&self)
        requires
            opening_ok(self@),
            self@.phase == OpeningPhase::FirstChoice || self@.phase == OpeningPhase::FinalChoice,
        ensures
            self@.cells(Color::Black).finite(),
            self@.cells(Color::White).finite(),
            self@.cells(Color::Black).len() == self@.cells(Color::White).len() + 1,
            !(exists|m: int| #[trigger] self@.cells(Color::Black).contains(m) && self@.cells(
                Color::White,
            ).contains(m)),
    {
        let p = self@.placements;
        let bs = self@.cells(Color::Black);
        let ws = self@.cells(Color::White);
        assert(!(exists|m: int| #[trigger] bs.contains(m) && ws.contains(m))) by {
            if exists|m: int| #[trigger] bs.contains(m) && ws.contains(m) {
                let m = choose|m: int| #[trigger] bs.contains(m) && ws.contains(m);
                let a = choose|a: int| 0 <= a < p.len() && #[trigger] p[a].0@ == m && p[a].1 == Color::Black;
                let b = choose|b: int| 0 <= b < p.len() && #[trigger] p[b].0@ == m && p[b].1 == Color::White;
                if a < b {
                    assert(p[a].0@ != p[b].0@);
                } else {
                    assert(p[b].0@ != p[a].0@);
                }
            }
        }
        let c0 = p[0].0@;
        let c1 = p[1].0@;
        let c2 = p[2].0@;
        assert(p[0].0@ != p[1].0@);
        assert(p[0].0@ != p[2].0@);
        assert(p[1].0@ != p[2].0@);
        if p.len() == 3 {
            assert(bs =~= set![c0, c1]);
            assert(ws =~= set![c2]);
        } else {
            let c3 = p[3].0@;
            let c4 = p[4].0@;
            assert(p[0].0@ != p[3].0@);
            assert(p[1].0@ != p[3].0@);
            assert(p[0].0@ != p[4].0@);
            assert(p[1].0@ != p[4].0@);
            assert(p[2].0@ != p[4].0@);
            assert(p[3].0@ != p[4].0@);
            assert(p[2].0@ != p[3].0@);
            assert(bs =~= set![c0, c1, c3]);
            assert(ws =~= set![c2, c4]);
        }
    }

    /// Choose a color and finish the opening; `None` outside a choice phase.
    pub fn choose_color(self, color: Color) -> (o: Option<OpeningOutcome>)
        ensures
            match holders_for(self@.phase, color) {
                None => o is None,
                Some((b, w)) => o matches Some(out) && out.black_holder == b && out.white_holder == w
                    && out.board.wf() && out.board@ == self@.position(),
            },
    {
        let holders = match Holders::from_choice(self.phase, color) {
            Some(h) => h,
            None => {
                return None;
            },
        };
        let board = self.build_board();
        Some(OpeningOutcome { board, black_holder: holders.black(), white_holder: holders.white() })
    }

    /// Switch from the first choice to placing two more stones; `None`
    /// outside the first choice.
    pub fn add_two_more(self) -> (s: Option<OpeningState>)
        ensures
            if self@.phase == OpeningPhase::FirstChoice {
                s matches Some(n) && n@ == (OpeningView { phase: OpeningPhase::Placing2, ..self@ })
            } else {
                s is None
            },
    {
        proof {
            use_type_invariant(&self);
        }
        if self.phase != OpeningPhase::FirstChoice {
            return None;
        }
        let OpeningState { placements, phase: _ } = self;
        Some(OpeningState { placements, phase: OpeningPhase::Placing2 })
    }
}

impl Clone for OpeningState {
    fn clone(&self) -> (s: OpeningState)
        ensures
            s@ == self@,
    {
        self.duplicate()
    }
}

impl Default for OpeningState {
    fn default() -> (s: OpeningState)
        ensures
            s@.placements == Seq::<(Move, Color)>::empty(),
            s@.phase == OpeningPhase::Placing3,
    {
        OpeningState::new()
    }
}

/// The opening after a stone of the current color was placed on `mv`.
pub open spec fn placed(v: OpeningView, mv: Move) -> OpeningView {
    OpeningView {
        placements: v.placements.push((mv, v.current_color()->0)),
        phase: OpeningView::advanced(v.phase, v.placements.len() + 1),
    }
}

/// The opening after `finish` on a full placement phase.
pub open spec fn finished(v: OpeningView) -> OpeningView {
    OpeningView {
        phase: if v.phase == OpeningPhase::Placing3 {
            OpeningPhase::FirstChoice
        } else {
            OpeningPhase::FinalChoice
        },
        ..v
    }
}

/// Placing a stone and taking it back restores the opening; when the
/// stone completed its phase, the first undo returns to the full phase
/// and the second takes the stone back.
pub proof fn lemma_place_undo(v: OpeningView, mv: Move)
    requires
        opening_ok(v),
        v.can_place(),
    ensures
        placed(v, mv).phase == v.phase ==> placed(v, mv).after_undo() == v,
        placed(v, mv).phase != v.phase ==> placed(v, mv).after_undo().after_undo() == v,
{
    let w = placed(v, mv);
    assert(w.placements.drop_last() =~= v.placements);
}

/// From a choice prompt, undo returns to the full placement phase, and
/// `finish` from there returns to the same prompt.
pub proof fn lemma_undo_finish(v: OpeningView)
    requires
        opening_ok(v),
        v.phase == OpeningPhase::FirstChoice || v.phase == OpeningPhase::FinalChoice,
    ensures
        v.after_undo().phase_full(),
        finished(v.after_undo()) == v,
{
}

} // verus!
