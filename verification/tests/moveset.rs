use gomoku::moveset::{Move, MoveSet};

#[test]
fn new_rejects_off_board_cells() {
    assert_eq!(Move::new(0, 15), None);
    assert_eq!(Move::new(15, 0), None);
    assert_eq!(Move::new(7, 3).map(|m| m.index()), Some(108));
}

#[test]
fn index_row_col_are_consistent() {
    let mv = Move::new(7, 3).unwrap();
    assert_eq!(mv.index(), 7 * 15 + 3); // 108
    assert_eq!(mv.row(), 7);
    assert_eq!(mv.col(), 3);
}

#[test]
fn moveset_roundtrip_across_word_boundaries() {
    let mut set = MoveSet::empty();
    assert!(set.is_empty());
    assert_eq!(set.len(), 0);

    // indices 0, 63, 64, 108, 224 — one per interesting seam
    let moves = [
        Move::new(0, 0).unwrap(),   //   0
        Move::new(4, 3).unwrap(),   //  63
        Move::new(4, 4).unwrap(),   //  64
        Move::new(7, 3).unwrap(),   // 108
        Move::new(14, 14).unwrap(), // 224
    ];
    for &mv in &moves {
        set.insert(mv);
    }
    assert!(!set.is_empty());
    assert_eq!(set.len(), 5);
    for &mv in &moves {
        assert!(set.contains(mv), "{mv:?} must be in the set");
    }
    assert!(!set.contains(Move::new(7, 7).unwrap()));

    let mut collected: Vec<usize> = set.iter().into_iter().map(|m| m.index()).collect();
    collected.sort_unstable();
    assert_eq!(collected, vec![0, 63, 64, 108, 224]);
}

#[test]
fn insert_is_idempotent() {
    let mut set = MoveSet::empty();
    let mv = Move::new(7, 7).unwrap();
    set.insert(mv);
    set.insert(mv);
    assert_eq!(set.len(), 1);
}

