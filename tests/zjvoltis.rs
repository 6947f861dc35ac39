use zjvoltis::zjvoltis::{
    Zjvoltis, ZjvoltisMove, BLACK, INSECT, ORANGUTAN, VAMPIRE, WHITE, ZEBRA,
};

#[test]
fn test_new_game() {
    let game = Zjvoltis::new();
    assert!(game.white_to_move);
    assert_eq!(game.board[0][0], WHITE | ORANGUTAN);
    assert_eq!(game.board[9][9], BLACK | ORANGUTAN);
}

#[test]
fn test_fen() {
    let game = Zjvoltis::new();
    let fen = game.to_fen();
    assert_eq!(fen, "i1ll1jj1oo/i1zl1js1oo/izzltjssvv/iz1ttt1sv1/A/A/1VS1TTT1ZI/VVSSJTLZZI/OO1SJ1LZ1I/OO1JJ1LL1I w");
    let game2 = Zjvoltis::from_fen(&fen);
    assert_eq!(game.board, game2.board);
    assert_eq!(game.white_to_move, game2.white_to_move);
}

#[test]
fn test_make_moves() {
    let game = Zjvoltis::new();
    // Move the Zebra
    let m1 = ZjvoltisMove::from_string("i32");
    let game2 = game.make_move(m1).unwrap();
    assert_eq!(game2.board[4][9], WHITE | ZEBRA);
    assert_eq!(game2.board[5][9], WHITE | ZEBRA);
    assert_eq!(game2.board[4][8], WHITE | ZEBRA);
    assert_eq!(game2.board[3][8], WHITE | ZEBRA);
    assert_eq!(game2.board[2][7], 0);
    assert_eq!(game2.board[2][8], 0);
    assert_eq!(game2.board[1][7], 0);
    assert!(!game2.white_to_move);
    println!("{}", game2.to_string());
    // capture the Zebra
    let m2 = ZjvoltisMove::from_string("i63");
    let game3: Zjvoltis = game2.make_move(m2).unwrap();
    println!("{}", game3.to_string());
    assert_eq!(game3.board[4][9], 0);
    assert_eq!(game3.board[5][9], BLACK | VAMPIRE);
    assert_eq!(game3.board[6][8], BLACK | VAMPIRE);
    assert_eq!(game3.board[4][8], 0);
    assert_eq!(game3.board[3][8], 0);
    // The Zebra has been captured, so the evaluation should be -4
    assert_eq!(game3.evaluate(), -4);
    // capture the Vampire bat
    let m3 = ZjvoltisMove::from_string("j32");
    let game4: Zjvoltis = game3.make_move(m3).unwrap();
    assert_eq!(game4.board[4][9], WHITE | INSECT);
    assert_eq!(game4.board[5][9], WHITE | INSECT);
    assert_eq!(game4.board[6][9], WHITE | INSECT);
    assert_eq!(game4.board[6][8], 0);
    // The vampire bat has been captured, so the evaluation should be -1
    assert_eq!(game4.evaluate(), -1);
    // Move the tiger
    let m4 = ZjvoltisMove::from_string("e62");
    let game5: Zjvoltis = game4.make_move(m4).unwrap();
    // Move the insect, capture the orangutan, game should be over
    println!("{}", game5.to_string());
    let m5 = ZjvoltisMove::from_string("j62");
    let game6: Zjvoltis = game5.make_move(m5).unwrap();
    assert_eq!(game6.game_over, Some(1));
}

#[test]
fn test_illegal_move_own_piece() {
    let game = Zjvoltis::new();
    let m1 = ZjvoltisMove::from_string("h31");
    let game2 = game.make_move(m1);
    assert!(game2.is_none());
}

#[test]
fn test_illegal_move_out_of_bounds() {
    let game = Zjvoltis::new();
    let m1 = ZjvoltisMove::from_string("i41");
    let game2 = game.make_move(m1);
    assert!(game2.is_none());
}

#[test]
fn test_initial_moves() {
    let game = Zjvoltis::new();
    let moves = game.generate_moves();
    // There are ten legal moves for the white player
    assert_eq!(moves.len(), 10);
}

#[test]
fn test_initial_position_is_zero() {
    let game = Zjvoltis::new();
    assert_eq!(game.evaluate(), 0);
}
