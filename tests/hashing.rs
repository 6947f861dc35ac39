use zjvoltis::zjvoltis::Zjvoltis;
use zjvoltis::zobrist::Zobrist;

fn counting_table() -> Zobrist {
    let mut pieces = [[[0u64; 16]; 10]; 10];
    let mut next: u64 = 1;
    for row in pieces.iter_mut() {
        for square in row.iter_mut() {
            for key in square.iter_mut() {
                *key = next.wrapping_mul(0x9E37_79B9_7F4A_7C15);
                next += 1;
            }
        }
    }
    Zobrist { pieces, white_to_move: 0xDEAD_BEEF }
}

#[test]
fn piece_index_of_letters() {
    assert_eq!(Zobrist::piece_index('Z'), 0);
    assert_eq!(Zobrist::piece_index('S'), 7);
    assert_eq!(Zobrist::piece_index('z'), 8);
    assert_eq!(Zobrist::piece_index('s'), 15);
}

#[test]
fn hash_is_deterministic() {
    let z = Zobrist::new();
    let game = Zjvoltis::new();
    assert_eq!(z.hash(&game), z.hash(&game));
}

#[test]
fn hash_of_empty_board() {
    let z = counting_table();
    let black = Zjvoltis::from_fen("A/A/A/A/A/A/A/A/A/A b");
    let white = Zjvoltis::from_fen("A/A/A/A/A/A/A/A/A/A w");
    assert_eq!(z.hash(&black), 0);
    assert_eq!(z.hash(&white), 0xDEAD_BEEF);
}

#[test]
fn one_square_changes_hash() {
    let z = counting_table();
    let a = Zjvoltis::from_fen("A/A/A/A/A/A/A/A/A/Z9 b");
    let b = Zjvoltis::from_fen("A/A/A/A/A/A/A/A/A/z9 b");
    assert_eq!(z.hash(&a), z.pieces[0][0][0]);
    assert_ne!(z.hash(&a), z.hash(&b));
    assert_eq!(z.hash(&a) ^ z.hash(&b), z.pieces[0][0][0] ^ z.pieces[0][0][8]);
}

#[test]
fn incremental_updates() {
    let z = counting_table();
    let game = Zjvoltis::new();
    let h = z.hash(&game);
    let toggled = z.update_piece_hash(h, 4, 4, 'T');
    assert_ne!(toggled, h);
    assert_eq!(toggled, h ^ z.pieces[4][4][5]);
    assert_eq!(z.update_piece_hash(toggled, 4, 4, 'T'), h);
    let side = z.update_white_to_move_hash(h);
    assert_eq!(side, h ^ 0xDEAD_BEEF);
    assert_eq!(z.update_white_to_move_hash(side), h);
}

#[test]
fn table_from_keys_places_each_key() {
    let keys: Vec<u64> = (0..1601u64).map(|v| v * 3 + 1).collect();
    let z = Zobrist::from_keys(&keys);
    assert_eq!(z.pieces[0][0][0], 1);
    assert_eq!(z.pieces[0][0][15], 46);
    assert_eq!(z.pieces[0][1][0], 16 * 3 + 1);
    assert_eq!(z.pieces[1][0][0], 160 * 3 + 1);
    assert_eq!(z.pieces[9][9][15], 1599 * 3 + 1);
    assert_eq!(z.white_to_move, 1600 * 3 + 1);
}
