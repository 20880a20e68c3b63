use gomoku::board::Color;
use gomoku::moveset::Move;
use gomoku::puzzle::{
    check_parser, parse_stone_list, parse_vcf_item, parse_vcf_material_v1, sidecar_identifier,
    PuzzleError, VcfItem,
};

fn item(i: u32, a: &str, d: Option<u32>, b: &[[u8; 2]], w: &[[u8; 2]], l: &[[u8; 3]]) -> VcfItem {
    VcfItem {
        i,
        a: a.to_string(),
        d,
        black: b.to_vec(),
        white: w.to_vec(),
        line: l.to_vec(),
    }
}

fn fixture() -> Vec<VcfItem> {
    vec![
        item(
            0,
            "black",
            Some(6),
            &[[3, 7], [4, 2], [4, 3], [4, 6], [5, 2], [5, 4], [5, 5], [5, 7], [6, 5], [7, 2], [7, 7], [8, 3], [8, 4], [8, 6]],
            &[[3, 1], [3, 2], [3, 5], [4, 4], [5, 3], [6, 3], [6, 4], [6, 6], [7, 3], [7, 4], [7, 5], [8, 2], [8, 7], [9, 4]],
            &[[2, 8, 1], [1, 9, 2], [4, 7, 1]],
        ),
        item(
            2,
            "white",
            Some(5),
            &[[2, 4], [2, 7], [3, 3], [3, 12], [4, 2]],
            &[[2, 5], [3, 4], [4, 3], [4, 5]],
            &[[2, 3, 2], [3, 3, 1], [4, 4, 2]],
        ),
    ]
}

#[test]
fn loads_two_puzzles_and_maps_coordinates() {
    let puzzles = parse_vcf_material_v1(2, fixture()).unwrap();
    assert_eq!(puzzles.len(), 2);

    let p0 = &puzzles[0];
    assert_eq!(p0.name, "vcf-material #0");
    assert_eq!(p0.to_move, Color::Black);
    assert_eq!(p0.depth, Some(6));
    assert_eq!(p0.black.len(), 14);
    assert_eq!(p0.white.len(), 14);
    assert_eq!(p0.black[0], Move::new(7, 3).unwrap());
    assert_eq!(p0.solution.as_ref().unwrap()[0], Move::new(8, 2).unwrap());
    assert!(p0.setup_ok());

    let p1 = &puzzles[1];
    assert_eq!(p1.name, "vcf-material #2");
    assert_eq!(p1.to_move, Color::White);
    assert_eq!(p1.black.len(), 5);
    assert_eq!(p1.white.len(), 4);
    assert!(p1.setup_ok());
}

#[test]
fn count_mismatch_is_rejected() {
    let err = parse_vcf_material_v1(99, vec![]).unwrap_err();
    assert_eq!(err, PuzzleError::CountMismatch { declared: 99, actual: 0 });
}

#[test]
fn off_board_coord_is_rejected() {
    let err = parse_vcf_item(item(0, "black", Some(1), &[[15, 0]], &[], &[])).unwrap_err();
    assert_eq!(err, PuzzleError::InvalidCoord { item: 0, row: 0, col: 15 });
}

#[test]
fn duplicate_stone_is_rejected() {
    let err = parse_vcf_item(item(0, "black", Some(1), &[[7, 7], [7, 7]], &[], &[])).unwrap_err();
    assert_eq!(err, PuzzleError::DuplicateStone { item: 0, row: 7, col: 7 });
}

#[test]
fn overlapping_colors_is_rejected() {
    let err = parse_vcf_item(item(0, "black", Some(1), &[[7, 7]], &[[7, 7]], &[])).unwrap_err();
    assert_eq!(err, PuzzleError::OverlappingColors { item: 0 });
}

#[test]
fn repeated_white_stone_is_a_duplicate() {
    let err = parse_vcf_item(item(4, "white", None, &[[1, 1], [2, 2], [3, 3]], &[[7, 7], [7, 7]], &[])).unwrap_err();
    assert_eq!(err, PuzzleError::DuplicateStone { item: 4, row: 7, col: 7 });
}

#[test]
fn white_stone_on_a_black_cell_is_an_overlap() {
    let err = parse_vcf_item(item(4, "white", None, &[[1, 1], [7, 7]], &[[7, 7]], &[])).unwrap_err();
    assert_eq!(err, PuzzleError::OverlappingColors { item: 4 });
}

#[test]
fn invalid_counts_for_attacker_is_rejected() {
    let err = parse_vcf_item(item(0, "black", Some(1), &[[7, 7], [6, 6]], &[[5, 5]], &[])).unwrap_err();
    assert_eq!(
        err,
        PuzzleError::InvalidCounts { item: 0, black: 2, white: 1, attacker: Color::Black }
    );
}

#[test]
fn invalid_solution_start_side_is_rejected() {
    let err = parse_vcf_item(item(0, "black", Some(1), &[], &[], &[[7, 7, 2]])).unwrap_err();
    assert_eq!(
        err,
        PuzzleError::InvalidSolutionSide { item: 0, expected: Color::Black, found: 2 }
    );
}

#[test]
fn invalid_attacker_is_rejected() {
    let err = parse_vcf_item(item(3, "purple", None, &[], &[], &[])).unwrap_err();
    assert_eq!(err, PuzzleError::InvalidAttacker { item: 3, value: "purple".to_string() });
}

#[test]
fn off_board_line_entry_is_rejected_after_the_side_check() {
    let err = parse_vcf_item(item(1, "black", None, &[], &[], &[[1, 1, 1], [3, 20, 2]])).unwrap_err();
    assert_eq!(err, PuzzleError::InvalidCoord { item: 1, row: 20, col: 3 });
}

#[test]
fn stone_lists_map_x_y_to_col_row() {
    let v = parse_stone_list(9, &[[1, 2], [14, 0]]).unwrap();
    assert_eq!(v, vec![Move::new(2, 1).unwrap(), Move::new(0, 14).unwrap()]);
    assert_eq!(
        parse_stone_list(9, &[[1, 2], [0, 15], [16, 16]]).unwrap_err(),
        PuzzleError::InvalidCoord { item: 9, row: 15, col: 0 }
    );
}

#[test]
fn first_faulty_item_decides_the_file() {
    let mut items = fixture();
    items.push(item(7, "nobody", None, &[], &[], &[]));
    items.push(item(8, "black", None, &[[20, 0]], &[], &[]));
    let err = parse_vcf_material_v1(4, items).unwrap_err();
    assert_eq!(err, PuzzleError::InvalidAttacker { item: 7, value: "nobody".to_string() });
}

#[test]
fn sidecar_names_its_parser_on_the_first_real_line() {
    assert_eq!(
        sidecar_identifier("# comment\n\n   vcf-material-v1  \r\nrest\n"),
        Some("vcf-material-v1".to_string())
    );
    assert_eq!(sidecar_identifier("# only\n   \n"), None);
    assert_eq!(sidecar_identifier("last-line"), Some("last-line".to_string()));
}

#[test]
fn unknown_identifier_is_rejected() {
    assert_eq!(check_parser("p.parser", Some("vcf-material-v1".to_string())), Ok(()));
    assert_eq!(
        check_parser("p.parser", Some("not-a-parser".to_string())),
        Err(PuzzleError::UnknownParser {
            path: "p.parser".to_string(),
            identifier: "not-a-parser".to_string()
        })
    );
    assert_eq!(
        check_parser("p.parser", None),
        Err(PuzzleError::UnknownParser { path: "p.parser".to_string(), identifier: String::new() })
    );
}

#[test]
fn white_repeat_without_black_stones_is_a_duplicate() {
    let err = parse_vcf_item(item(0, "black", Some(1), &[], &[[7, 7], [7, 7]], &[])).unwrap_err();
    assert_eq!(err, PuzzleError::DuplicateStone { item: 0, row: 7, col: 7 });
}
