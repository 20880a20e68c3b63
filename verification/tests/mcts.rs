use gomoku::board::Board;
use gomoku::encode::encode;
use gomoku::mcts::{expansion_step, ExpansionStep, NodeState};
use gomoku::moveset::Move;

#[test]
fn won_leaf_is_terminal_and_lost_for_the_side_to_move() {
    let mut b = Board::new();
    for c in 0..4u8 {
        b.play(Move::new(0, c).unwrap()).unwrap();
        b.play(Move::new(1, c).unwrap()).unwrap();
    }
    b.play(Move::new(0, 4).unwrap()).unwrap();
    assert!(matches!(expansion_step(&b, NodeState::Unexpanded), ExpansionStep::Terminal { value: -1 }));
}

#[test]
fn expanded_leaf_needs_no_evaluation() {
    let b = Board::new();
    assert!(matches!(expansion_step(&b, NodeState::Expanded), ExpansionStep::AlreadyExpanded));
}

#[test]
fn ongoing_leaf_asks_for_its_planes_and_empty_cells() {
    let mut b = Board::new();
    b.play(Move::new(7, 7).unwrap()).unwrap();
    match expansion_step(&b, NodeState::Unexpanded) {
        ExpansionStep::Evaluate(req) => {
            assert_eq!(req.legal.len(), 224);
            assert!(!req.legal.contains(&Move::new(7, 7).unwrap()));
            assert_eq!(req.legal[0], Move::new(0, 0).unwrap());
            assert_eq!(req.planes, encode(&b));
        }
        _ => panic!("an ongoing, unexpanded leaf must be evaluated"),
    }
}
