use gomoku::config::{check_puzzle_index, parse_args, swap2_needs_fast_engine, Config};
use gomoku::game_board::EngineKind;

fn args(list: &[&str]) -> Vec<String> {
    list.iter().map(|s| s.to_string()).collect()
}

#[test]
fn defaults_are_fast_engine_colored_with_swap2() {
    match parse_args(&args(&[])).unwrap() {
        Config::Play { kind, plain, swap2 } => {
            assert_eq!(kind, EngineKind::Fast);
            assert!(!plain);
            assert!(swap2);
        }
        other => panic!("{other:?}"),
    }
}

#[test]
fn options_combine() {
    match parse_args(&args(&["--engine", "naive", "--plain", "--no-swap2"])).unwrap() {
        Config::Play { kind, plain, swap2 } => {
            assert_eq!(kind, EngineKind::Naive);
            assert!(plain);
            assert!(!swap2);
        }
        other => panic!("{other:?}"),
    }
    match parse_args(&args(&["--index", "+3", "--puzzle", "p.json"])).unwrap() {
        Config::Puzzle { path, index, plain } => {
            assert_eq!(path, "p.json");
            assert_eq!(index, 3);
            assert!(!plain);
        }
        other => panic!("{other:?}"),
    }
}

#[test]
fn argument_errors_are_named() {
    assert_eq!(parse_args(&args(&["--engine"])).unwrap_err(), "--engine needs a value: naive|fast");
    assert_eq!(parse_args(&args(&["--engine", "slow"])).unwrap_err(), "unknown engine 'slow'");
    assert_eq!(parse_args(&args(&["--puzzle"])).unwrap_err(), "--puzzle needs a file path");
    assert_eq!(parse_args(&args(&["--index"])).unwrap_err(), "--index needs a value");
    assert_eq!(
        parse_args(&args(&["--index", "-1"])).unwrap_err(),
        "--index must be a non-negative integer"
    );
    assert_eq!(parse_args(&args(&["--bogus"])).unwrap_err(), "unknown argument '--bogus'");
    assert!(matches!(parse_args(&args(&["--plain", "-h", "--bogus"])), Ok(Config::Help)));
}

#[test]
fn puzzle_index_is_checked() {
    assert_eq!(check_puzzle_index(0, 0).unwrap_err(), "puzzle file contains no puzzles");
    assert_eq!(check_puzzle_index(3, 3).unwrap_err(), "--index 3 is out of range (0..3)");
    assert!(check_puzzle_index(3, 2).is_ok());
    assert!(swap2_needs_fast_engine(EngineKind::Naive, true));
    assert!(!swap2_needs_fast_engine(EngineKind::Naive, false));
    assert!(!swap2_needs_fast_engine(EngineKind::Fast, true));
}
