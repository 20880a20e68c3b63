//! The integer-only pieces of the search tree's interface: node ids, node
//! states, evaluation requests, selection results, and what expanding a
//! leaf must do. The statistics, priors and scoring, which are floating
//! point, live in the program around the library.
use vstd::prelude::*;
use crate::board::{Board, Position, Status};
use crate::encode::{Planes, encode, me_plane, you_plane};
use crate::moveset::Move;

verus! {

/// Node identifier: an index into the tree's arena of nodes.
pub type NodeId = u32;

/// Lifecycle state of a node.
#[derive(Debug, Clone, Copy, PartialEq, Eq, Structural)]
pub enum NodeState {
    /// Fresh node, never evaluated, no edges.
    Unexpanded,
    /// Evaluated and outgoing edges created.
    Expanded,
    /// Game over.
    Terminal,
}

/// An evaluation request: the board as planes and its legal moves.
#[derive(Debug, Clone, PartialEq)]
pub struct EvalRequest {
    /// The board in its 17x17 representation.
    pub planes: Planes,
    /// All legal moves.
    pub legal: Vec<Move>,
}

/// The result of a selection walk.
#[derive(Clone, Debug, PartialEq, Eq)]
pub struct Selection {
    /// The leaf node reached, either unexpanded or terminal.
    pub leaf: NodeId,
    /// The root board with the selected path played on it.
    pub board: Board,
    /// The path taken: `(node_id, edge_index)` for each level descended.
    pub path: Vec<(NodeId, usize)>,
}

/// `legal` lists the empty cells of `p` in row-major order, each once.
pub open spec fn lists_empties(legal: Seq<Move>, p: Position) -> bool {
    &&& forall|k: int| 0 <= k < legal.len() ==> !p.occupied(#[trigger] legal[k]@)
    &&& forall|m: int|
        0 <= m < 225 && !p.occupied(m) ==> exists|k: int| 0 <= k < legal.len() && #[trigger] legal[k]@ == m
    &&& forall|a: int, b: int| 0 <= a < b < legal.len() ==> legal[a]@ < legal[b]@
}

/// What expanding a leaf comes to, before any network work.
pub enum ExpansionStep {
    /// The game at the leaf is over: the leaf becomes terminal, worth
    /// `value` to the side to move (-1 when the game is won, the side to
    /// move having lost; 0 for a draw).
    Terminal { value: i8 },
    /// The leaf is already expanded: nothing to add, worth 0.
    AlreadyExpanded,
    /// The leaf must be evaluated with this request and its edges added.
    Evaluate(EvalRequest),
}

/// The first step of expanding a leaf whose position is `board` and whose
/// node is in `state`: the engine answers for finished games, so the
/// network is asked only about ongoing positions that have no edges yet,
/// with the position's planes and its empty cells.
pub fn expansion_step(board: &Board, state: NodeState) -> (s: ExpansionStep)
    requires
        board.wf(),
    ensures
        match board@.status {
            Status::Won(_) => s matches ExpansionStep::Terminal { value } && value == -1,
            Status::Draw => s matches ExpansionStep::Terminal { value } && value == 0,
            Status::Ongoing => if state == NodeState::Expanded {
                s is AlreadyExpanded
            } else {
                s matches ExpansionStep::Evaluate(req) && req.planes.me@ == me_plane(board@)
                    && req.planes.you@ == you_plane(board@) && lists_empties(req.legal@, board@)
            },
        },
{
    match board.status() {
        Status::Won(_) => ExpansionStep::Terminal { value: -1 },
        Status::Draw => ExpansionStep::Terminal { value: 0 },
        Status::Ongoing => {
            if state == NodeState::Expanded {
                ExpansionStep::AlreadyExpanded
            } else {
                let legal = board.empty_moves();
                let planes = encode(board);
                ExpansionStep::Evaluate(EvalRequest { planes, legal })
            }
        },
    }
}

} // verus!
