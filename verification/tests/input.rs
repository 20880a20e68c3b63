use gomoku::input::{parse, parse_command, parse_u8, parse_usize, split_fields, Command};

fn played(input: &str) -> (u8, u8) {
    match parse(input) {
        Ok(Command::Play(mv)) => (mv.row(), mv.col()),
        other => panic!("{input:?} should be a move, got {other:?}"),
    }
}

#[test]
fn space_separated_coordinates() {
    assert_eq!(played("7 7"), (7, 7));
}

#[test]
fn comma_separated_coordinates() {
    assert_eq!(played("7,7"), (7, 7));
    assert_eq!(played(" 7 , 7 "), (7, 7));
}

#[test]
fn keywords() {
    assert!(matches!(parse("q"), Ok(Command::Quit)));
    assert!(matches!(parse("quit"), Ok(Command::Quit)));
    assert!(matches!(parse("u"), Ok(Command::Undo)));
    assert!(matches!(parse("undo"), Ok(Command::Undo)));
    assert!(matches!(parse("new"), Ok(Command::New)));
    assert!(matches!(parse("h"), Ok(Command::Help)));
    assert!(matches!(parse("?"), Ok(Command::Help)));
    assert!(matches!(parse("b"), Ok(Command::TakeBlack)));
    assert!(matches!(parse("w"), Ok(Command::TakeWhite)));
    assert!(matches!(parse("a"), Ok(Command::AddStones)));
    assert!(matches!(parse("d"), Ok(Command::Done)));
    assert!(matches!(parse("t"), Ok(Command::Tss)));
    assert!(matches!(parse("n"), Ok(Command::NextPuzzle)));
    assert!(matches!(parse("p"), Ok(Command::PrevPuzzle)));
    assert!(matches!(parse("r"), Ok(Command::Redo)));
}

#[test]
fn off_board_is_an_error() {
    let err = parse("7 15").unwrap_err();
    assert!(err.contains("off the board"), "{err}");
}

#[test]
fn garbage_gets_usage() {
    for bad in ["banana", "", "7", "1 2 3", "7 x"] {
        let err = parse(bad).unwrap_err();
        assert!(err.contains("usage"), "{bad:?} -> {err}");
    }
}

#[test]
fn keywords_ignore_case_and_surrounding_space() {
    assert!(matches!(parse("  QUIT \n"), Ok(Command::Quit)));
    assert!(matches!(parse("Exit"), Ok(Command::Quit)));
    assert!(matches!(parse("STEP"), Ok(Command::SolutionStep)));
    assert!(matches!(parse("Redo"), Ok(Command::Redo)));
}

#[test]
fn off_board_message_names_the_coordinates() {
    assert_eq!(
        parse("15 3").unwrap_err(),
        "(15, 3) is off the board \u{2014} coordinates are 0-14"
    );
}

#[test]
fn usage_text_is_exact() {
    assert_eq!(
        parse_command("x y").unwrap_err(),
        "usage: <row> <col> (0-14) \u{b7} 'h' help \u{b7} 'q' quit"
    );
}

#[test]
fn numbers_read_like_std() {
    assert_eq!(parse_u8("+7"), Some(7));
    assert_eq!(parse_u8("007"), Some(7));
    assert_eq!(parse_u8("255"), Some(255));
    assert_eq!(parse_u8("256"), None);
    assert_eq!(parse_u8("-1"), None);
    assert_eq!(parse_u8("+"), None);
    assert_eq!(parse_u8(""), None);
    assert_eq!(parse_usize("12345"), Some(12345));
    assert_eq!(parse_usize("99999999999999999999999"), None);
    for s in ["0", "1", "42", "+9", "300", "abc", "1x"] {
        assert_eq!(parse_u8(s), s.parse::<u8>().ok(), "{s}");
    }
}

#[test]
fn fields_split_on_commas_and_spaces() {
    assert_eq!(split_fields(" 7 ,, 8 "), vec!["7".to_string(), "8".to_string()]);
    assert!(split_fields(" , ").is_empty());
}

#[test]
fn a_plus_sign_and_leading_zeros_still_make_a_move() {
    assert_eq!(played("+3,04"), (3, 4));
}

#[test]
fn unicode_white_space_is_trimmed_like_str_trim() {
    assert!(matches!(parse("\u{3000}\tu\u{a0}\u{2028}"), Ok(Command::Undo)));
    assert_eq!(played("\u{85} 3 4\u{200a}"), (3, 4));
}
