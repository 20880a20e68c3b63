use gomoku::board::Color;
use gomoku::game_board::{board_for, EngineKind, GameBoard};
use gomoku::moveset::Move;
use gomoku::opening::OpeningState;
use gomoku::render::{
    overlay_verdict, render_lines, render_lines_with_overlay, render_opening_lines,
    render_opening_styled, render_styled, render_styled_with_overlay, status_line,
};
use gomoku::tss::{prove_forced_win, verify_line, Proof, SearchBudget};


#[test]
fn empty_board_is_ruled_and_framed() {
    let board = board_for(EngineKind::Naive);
    let lines = render_lines(&board);

    assert_eq!(lines.len(), 19);
    assert!(lines.iter().all(|l| l.chars().count() == 53));

    let ruler = "     0  1  2  3  4  5  6  7  8  9 10 11 12 13 14     ";
    let border = "   +---------------------------------------------+   ";
    assert_eq!(lines[0], ruler);
    assert_eq!(lines[1], border);
    assert_eq!(lines[17], border);
    assert_eq!(lines[18], ruler);

    for (row, line) in lines[2..17].iter().enumerate() {
        assert_eq!(line, &format!("{row:>2} |{}| {row:<2}", " . ".repeat(15)));
    }
}

#[test]
fn last_move_wears_brackets() {
    let mut board = board_for(EngineKind::Fast);
    board.play(Move::new(7, 7).unwrap()).unwrap(); // x — last move
    board.play(Move::new(7, 8).unwrap()).unwrap(); // o — now last

    let lines = render_lines(&board);
    let row7 = &lines[2 + 7]; // line 0 ruler, line 1 border
    // 4-char gutter, then 3 bytes per column.
    assert_eq!(&row7[25..28], " x ");
    assert_eq!(&row7[28..31], "[o]");
}

#[test]
fn brackets_follow_an_undo() {
    let mut board = board_for(EngineKind::Fast);
    board.play(Move::new(7, 7).unwrap()).unwrap();
    board.play(Move::new(7, 8).unwrap()).unwrap();
    board.undo();

    let lines = render_lines(&board);
    let row7 = &lines[2 + 7];
    assert_eq!(&row7[25..28], "[x]"); // the bracket walks back
    assert_eq!(&row7[28..31], " . ");
}

#[test]
fn status_line_reports_to_move_and_result() {
    let mut board = board_for(EngineKind::Naive);
    assert_eq!(
        status_line(&board),
        "engine: naive · move 0 · Black to move"
    );

    // Black wins with five on row 0; White parks on row 1.
    for (br, bc, wr, wc) in [(0, 0, 1, 0), (0, 1, 1, 1), (0, 2, 1, 2), (0, 3, 1, 3)] {
        board.play(Move::new(br, bc).unwrap()).unwrap();
        board.play(Move::new(wr, wc).unwrap()).unwrap();
    }
    board.play(Move::new(0, 4).unwrap()).unwrap();

    assert_eq!(
        status_line(&board),
        "Black wins! — type 'new' to start over"
    );
}

#[test]
fn opening_render_shows_placed_colors() {
    let mut state = OpeningState::new();
    state.place(Move::new(7, 7).unwrap()).unwrap();
    state.place(Move::new(6, 6).unwrap()).unwrap();
    state.place(Move::new(5, 5).unwrap()).unwrap();

    let lines = render_opening_lines(&state);
    // The last placement is White at (5,5), so that cell wears brackets.
    let row7 = &lines[2 + 7];
    assert_eq!(&row7[25..28], " x ");
    let row6 = &lines[2 + 6];
    assert_eq!(&row6[22..25], " x ");
    let row5 = &lines[2 + 5];
    assert_eq!(&row5[19..22], "[o]");
}

#[test]
fn tss_overlay_numbers_attack_and_defence() {
    let mut board = board_for(EngineKind::Fast);
    // Build a VCF win-in-3 from the engine TSS tests.
    let script = [
        (7, 4),
        (7, 3),
        (7, 5),
        (0, 0),
        (7, 6),
        (0, 2),
        (6, 6),
        (0, 4),
        (8, 8),
        (0, 6),
    ];
    for &(r, c) in &script {
        board.play(Move::new(r, c).unwrap()).unwrap();
    }

    let proof = prove_forced_win(
        board.engine_board().unwrap(),
        board.to_move(),
        SearchBudget {
            max_nodes: 200_000,
            max_depth: 16,
        },
    )
    .expect("test position has a known forced win");
    assert!(verify_line(board.engine_board().unwrap(), &proof));

    let lines = render_lines_with_overlay(&board, &proof);
    assert_eq!(lines.len(), 19);
    // Each cell is 4 visible characters wide, so the whole line is wider.
    assert!(lines.iter().all(|l| l.chars().count() == 4 + 60 + 4));

    // The first attacking move should be visible as a single-digit number.
    let mv1 = proof.line[0];
    let row = &lines[2 + mv1.row() as usize];
    let start = 4 + mv1.col() as usize * 4;
    let cell = &row[start..start + 4];
    assert!(
        cell.trim().contains('1'),
        "attacking cell should show 1, got {cell:?}"
    );
}

#[test]
fn styled_frames_keep_the_ruler_and_the_row_labels() {
    let mut board = board_for(EngineKind::Fast);
    board.play(Move::new(7, 7).unwrap()).unwrap();
    let lines = render_styled(&board);
    assert_eq!(lines.len(), 19);
    assert_eq!(lines[0], "     0  1  2  3  4  5  6  7  8  9 10 11 12 13 14     ");
    for (row, line) in lines[2..17].iter().enumerate() {
        assert!(line.starts_with(&format!("{row:>2} |")), "{line:?}");
        assert!(line.ends_with(&format!("| {row:<2}")), "{line:?}");
        assert!(line.contains('x') || line.contains('.'));
    }
    let mut state = OpeningState::new();
    state.place(Move::new(7, 7).unwrap()).unwrap();
    assert_eq!(render_opening_styled(&state).len(), 19);
}

#[test]
fn overlay_cells_and_verdict_are_exact() {
    let board = board_for(EngineKind::Fast);
    let proof = Proof {
        winner: Color::Black,
        line: vec![Move::new(0, 0).unwrap(), Move::new(0, 1).unwrap()],
    };
    let lines = render_lines_with_overlay(&board, &proof);
    assert_eq!(&lines[2][4..12], " 1  [2 ]");
    assert_eq!(lines[1], format!("   +{}+   ", "-".repeat(60)));
    assert_eq!(overlay_verdict(&proof), "certified forced win for Black in 2 ply");
    let styled = render_styled_with_overlay(&board, &proof);
    assert_eq!(styled.len(), 19);
    assert_eq!(styled[18], lines[18]);
}

#[test]
fn status_line_reports_a_draw_and_a_white_win() {
    let mut board = board_for(EngineKind::Fast);
    for (br, bc, wr, wc) in [(1, 0, 0, 0), (1, 2, 0, 1), (1, 4, 0, 2), (1, 6, 0, 3)] {
        board.play(Move::new(br, bc).unwrap()).unwrap();
        board.play(Move::new(wr, wc).unwrap()).unwrap();
    }
    board.play(Move::new(1, 8).unwrap()).unwrap();
    board.play(Move::new(0, 4).unwrap()).unwrap();
    assert_eq!(status_line(&board), "White wins! \u{2014} type 'new' to start over");
}

#[test]
fn styled_cells_show_their_stones_and_the_last_move() {
    let mut board = board_for(EngineKind::Fast);
    board.play(Move::new(7, 7).unwrap()).unwrap();
    board.play(Move::new(3, 4).unwrap()).unwrap();
    let lines = render_styled(&board);
    let strip = |s: &str| -> String {
        let mut out = String::new();
        let mut in_escape = false;
        for ch in s.chars() {
            if ch == '\u{1b}' {
                in_escape = true;
            } else if in_escape {
                if ch.is_ascii_alphabetic() {
                    in_escape = false;
                }
            } else {
                out.push(ch);
            }
        }
        out
    };
    let row7 = strip(&lines[9]);
    let row3 = strip(&lines[5]);
    assert_eq!(&row7[4 + 3 * 7..4 + 3 * 8], " x ");
    assert_eq!(&row3[4 + 3 * 4..4 + 3 * 5], "[o]");
    assert_eq!(&row3[4..7], " . ");
}

#[test]
fn stones_are_painted_in_their_colors() {
    let mut board = board_for(EngineKind::Fast);
    board.play(Move::new(7, 7).unwrap()).unwrap();
    board.play(Move::new(3, 4).unwrap()).unwrap();
    let lines = render_styled(&board);
    let black = ["\u{1b}[38;5;14m\u{1b}[1mx\u{1b}[0m", "\u{1b}[m\u{1b}[1mx\u{1b}[0m"];
    let white = ["\u{1b}[38;5;11mo\u{1b}[39m", "\u{1b}[mo\u{1b}[m"];
    let empty = ["\u{1b}[38;5;8m.\u{1b}[39m", "\u{1b}[m.\u{1b}[m"];
    assert!(black.iter().any(|p| lines[9].contains(p)), "{:?}", lines[9]);
    assert!(white.iter().any(|p| lines[5].contains(p)), "{:?}", lines[5]);
    assert!(empty.iter().any(|p| lines[2].contains(p)), "{:?}", lines[2]);
}
