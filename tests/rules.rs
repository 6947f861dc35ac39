use zjvoltis::zjvoltis::{Zjvoltis, ZjvoltisMove, BLACK, ORANGUTAN, WHITE, ZEBRA};

fn mv(s: &str) -> ZjvoltisMove {
    ZjvoltisMove::from_string(s)
}

#[test]
fn move_text_round_trip() {
    let m = mv("e51");
    assert_eq!((m.row, m.col, m.hgrad), (5, 4, 1));
    assert_eq!(m.to_string(), "e51");
    assert_eq!(ZjvoltisMove { row: 9, col: 0, hgrad: 3 }.to_string(), "a93");
}

#[test]
fn bad_rotation_is_illegal() {
    let game = Zjvoltis::new();
    assert!(game.make_move(ZjvoltisMove { row: 0, col: 0, hgrad: 0 }).is_none());
    assert!(game.make_move(ZjvoltisMove { row: 0, col: 0, hgrad: 4 }).is_none());
}

#[test]
fn anchor_off_grid_is_illegal() {
    let game = Zjvoltis::new();
    assert!(game.make_move(ZjvoltisMove { row: 10, col: 0, hgrad: 1 }).is_none());
    assert!(game.make_move(ZjvoltisMove { row: 0, col: 10, hgrad: 1 }).is_none());
}

#[test]
fn empty_anchor_is_illegal() {
    let game = Zjvoltis::new();
    // e5 is in an empty rank.
    assert!(game.make_move(mv("e51")).is_none());
}

#[test]
fn wrong_colour_is_illegal() {
    let game = Zjvoltis::new();
    // j9 holds the black orangutan and white is to move.
    assert!(game.make_move(mv("j91")).is_none());
}

#[test]
fn rotation_by_three_quarter_turns() {
    // A white zebra on c3 and c4 turned about c3 by three quarter turns:
    // (4, 2) goes to (3, 3).
    let game = Zjvoltis::from_fen("A/A/A/A/A/2Z7/2Z7/A/A/A w");
    let next = game.make_move(mv("c33")).unwrap();
    assert_eq!(next.board[3][2], WHITE | ZEBRA);
    assert_eq!(next.board[3][3], WHITE | ZEBRA);
    assert_eq!(next.board[4][2], 0);
    assert!(!next.white_to_move);
    assert_eq!(next.evaluate(), 2);
}

#[test]
fn capture_removes_whole_piece() {
    // The white zebra on c2 and c3 turns about c2; c3 lands on d2, one
    // square of a black zebra that also holds a9: both squares go.
    let game = Zjvoltis::from_fen("z9/A/A/A/A/A/A/2Z7/2Zz6/A w");
    assert_eq!(game.evaluate(), 0);
    let next = game.make_move(mv("c13")).unwrap();
    assert_eq!(next.board[1][3], WHITE | ZEBRA);
    assert_eq!(next.board[1][2], WHITE | ZEBRA);
    assert_eq!(next.board[2][2], 0);
    assert_eq!(next.board[9][0], 0);
    assert_eq!(next.evaluate(), 2);
    assert_eq!(next.material, 2);
    assert_eq!(next.game_over, None);
}

#[test]
fn orangutan_in_center_wins() {
    // The white orangutan holds e3, f3, e4 and f4; a quarter turn about e4
    // fills the four center squares.
    let game = Zjvoltis::from_fen("o9/A/A/A/A/4OO4/4OO4/A/A/A w");
    let next = game.make_move(mv("e41")).unwrap();
    assert_eq!(next.board[4][4], WHITE | ORANGUTAN);
    assert_eq!(next.board[4][5], WHITE | ORANGUTAN);
    assert_eq!(next.board[5][4], WHITE | ORANGUTAN);
    assert_eq!(next.board[5][5], WHITE | ORANGUTAN);
    assert_eq!(next.game_over, Some(1));
    assert_eq!(next.evaluate(), 1024);
}

#[test]
fn black_capturing_orangutan_wins() {
    // The black orangutan on b1 and c1 turns about c1: b1 lands on c0.
    let game = Zjvoltis::from_fen("A/A/A/A/A/A/A/A/1oo7/2O7 b");
    let next = game.make_move(mv("c11")).unwrap();
    assert_eq!(next.board[0][2], BLACK | ORANGUTAN);
    assert_eq!(next.game_over, Some(-1));
    assert_eq!(next.evaluate(), -1024);
}

#[test]
fn record_round_trip_after_moves() {
    let game = Zjvoltis::new()
        .make_move(mv("i32"))
        .unwrap()
        .make_move(mv("i63"))
        .unwrap();
    let back = Zjvoltis::from_fen(&game.to_fen());
    assert_eq!(back.board, game.board);
    assert_eq!(back.white_to_move, game.white_to_move);
    assert_eq!(back.material, game.material);
}

#[test]
fn board_printout() {
    let game = Zjvoltis::from_fen("A/A/A/A/A/A/A/A/A/Oo8 w");
    let text = game.to_string();
    let lines: Vec<&str> = text.lines().collect();
    assert_eq!(lines.len(), 10);
    assert_eq!(lines[0], "..........");
    assert_eq!(lines[9], "Oo........");
}

#[test]
fn generated_moves_are_legal_and_ordered() {
    let game = Zjvoltis::new();
    let moves = game.generate_moves();
    let mut last: Option<(usize, usize, usize)> = None;
    for (m, child) in &moves {
        assert!(m.hgrad == 1 || m.hgrad == 2);
        let again = game.make_move(*m).unwrap();
        assert_eq!(again.board, child.board);
        let key = (m.row, m.col, m.hgrad);
        if let Some(prev) = last {
            assert!(prev < key);
        }
        last = Some(key);
    }
}
