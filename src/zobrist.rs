use vstd::prelude::*;
use crate::zjvoltis::{in_grid, piece_char, piece_char_spec, valid_square, Zjvoltis};

verus! {

/// Relies on `rand::random`: a value drawn from the thread-local generator.
/// Nothing is known of the value.
pub assume_specification<T>[ rand::random::<T> ]() -> (r: T)
    where
        rand::distributions::Standard: rand::distributions::Distribution<T>,
;

/// A table of random keys: one for each piece on each square, and one for
/// white to move.
pub struct Zobrist {
    /// Indexed `[row][col][piece_index]`.
    pub pieces: [[[u64; 16]; 10]; 10],
    pub white_to_move: u64,
}

/// The table slot of a piece letter: white pieces 0 to 7, black 8 to 15.
pub open spec fn letter_index(c: char) -> int {
    if c == 'Z' { 0 }
    else if c == 'J' { 1 }
    else if c == 'V' { 2 }
    else if c == 'O' { 3 }
    else if c == 'L' { 4 }
    else if c == 'T' { 5 }
    else if c == 'I' { 6 }
    else if c == 'S' { 7 }
    else if c == 'z' { 8 }
    else if c == 'j' { 9 }
    else if c == 'v' { 10 }
    else if c == 'o' { 11 }
    else if c == 'l' { 12 }
    else if c == 't' { 13 }
    else if c == 'i' { 14 }
    else if c == 's' { 15 }
    else { -1 }
}

pub open spec fn is_piece_letter(c: char) -> bool {
    0 <= letter_index(c) < 16
}

impl Zobrist {
    /// What square (r, c) of board `b` contributes: the key of its piece,
    /// or 0 when it is empty.
    pub open spec fn square_term(&self, b: [[u8; 10]; 10], r: int, c: int) -> u64 {
        if b[r][c] == 0 {
            0
        } else {
            self.pieces[r][c][letter_index(piece_char_spec(b[r][c]))]
        }
    }

    /// XOR of the terms of the first `k` squares in row-major order.
    pub open spec fn board_hash(&self, b: [[u8; 10]; 10], k: int) -> u64
        decreases k,
    {
        if k <= 0 {
            0
        } else {
            self.board_hash(b, k - 1) ^ self.square_term(b, (k - 1) / 10, (k - 1) % 10)
        }
    }

    pub open spec fn hash_spec(&self, g: Zjvoltis) -> u64 {
        let h = self.board_hash(g.board, 100);
        if g.white_to_move {
            h ^ self.white_to_move
        } else {
            h
        }
    }

    /// The table slot of a piece letter.
    pub fn piece_index(piece: char) -> (r: usize)
        requires
            is_piece_letter(piece),
        ensures
            r == letter_index(piece),
    {
        match piece {
            'Z' => 0,
            'J' => 1,
            'V' => 2,
            'O' => 3,
            'L' => 4,
            'T' => 5,
            'I' => 6,
            'S' => 7,
            'z' => 8,
            'j' => 9,
            'v' => 10,
            'o' => 11,
            'l' => 12,
            't' => 13,
            'i' => 14,
            _ => 15,
        }
    }

    /// The table whose slot `[i][j][k]` holds `keys[160 * i + 16 * j + k]`
    /// and whose side key is `keys[1600]`.
    pub fn from_keys(keys: &Vec<u64>) -> (r: Zobrist)
        requires
            keys@.len() == 1601,
        ensures
            forall|i: int, j: int, k: int|
                0 <= i < 10 && 0 <= j < 10 && 0 <= k < 16 ==> #[trigger] r.pieces[i][j][k]
                    == keys@[160 * i + 16 * j + k],
            r.white_to_move == keys@[1600],
    {
        let mut pieces = [[[0u64; 16]; 10]; 10];
        let mut i: usize = 0;
        while i < 10
            invariant
                i <= 10,
                keys@.len() == 1601,
                forall|i2: int, j2: int, k2: int|
                    0 <= i2 < i && 0 <= j2 < 10 && 0 <= k2 < 16 ==> #[trigger] pieces[i2][j2][k2]
                        == keys@[160 * i2 + 16 * j2 + k2],
            decreases 10 - i,
        {
            let mut j: usize = 0;
            while j < 10
                invariant
                    i < 10,
                    j <= 10,
                    keys@.len() == 1601,
                    forall|i2: int, j2: int, k2: int|
                        0 <= i2 < 10 && 0 <= j2 < 10 && 0 <= k2 < 16 && (i2 < i || (i2 == i && j2
                            < j)) ==> #[trigger] pieces[i2][j2][k2] == keys@[160 * i2 + 16 * j2 + k2],
                decreases 10 - j,
            {
                let mut k: usize = 0;
                while k < 16
                    invariant
                        i < 10,
                        j < 10,
                        k <= 16,
                        keys@.len() == 1601,
                        forall|i2: int, j2: int, k2: int|
                            0 <= i2 < 10 && 0 <= j2 < 10 && 0 <= k2 < 16 && (i2 < i || (i2 == i && j2
                                < j) || (i2 == i && j2 == j && k2 < k)) ==> #[trigger] pieces[i2][j2][k2]
                                == keys@[160 * i2 + 16 * j2 + k2],
                    decreases 16 - k,
                {
                    pieces[i][j][k] = keys[160 * i + 16 * j + k];
                    k += 1;
                }
                j += 1;
            }
            i += 1;
        }
        Zobrist { pieces, white_to_move: keys[1600] }
    }

    /// A table of freshly drawn random keys: the slots in row, column and
    /// piece order, then the side key.
    pub fn new() -> (r: Zobrist) {
        let mut keys: Vec<u64> = Vec::new();
        let mut n: usize = 0;
        while n < 1601
            invariant
                n <= 1601,
                keys@.len() == n,
            decreases 1601 - n,
        {
            keys.push(rand::random());
            n += 1;
        }
        Zobrist::from_keys(&keys)
    }

    /// XOR of the keys of every occupied square, and of the side key when
    /// white is to move.
    pub fn hash(&self, game: &Zjvoltis) -> (r: u64)
        requires
            game.wf(),
        ensures
            r == self.hash_spec(*game),
    {
        let mut hash: u64 = 0;
        let mut i: usize = 0;
        while i < 100
            invariant
                i <= 100,
                game.wf(),
                hash == self.board_hash(game.board, i as int),
            decreases 100 - i,
        {
            let (row, col) = (i / 10, i % 10);
            let piece = game.board[row][col];
            if piece != 0 {
                assert(valid_square(piece));
                let index = Zobrist::piece_index(piece_char(piece));
                hash ^= self.pieces[row][col][index];
            } else {
                assert(hash ^ 0 == hash) by (bit_vector);
            }
            i += 1;
        }
        if game.white_to_move {
            hash ^= self.white_to_move;
        }
        hash
    }

    /// Toggles the key of `piece` on square (`row`, `col`).
    pub fn update_piece_hash(&self, hash: u64, row: usize, col: usize, piece: char) -> (r: u64)
        requires
            row < 10,
            col < 10,
            is_piece_letter(piece),
        ensures
            r == hash ^ self.pieces[row as int][col as int][letter_index(piece)],
    {
        let index = Zobrist::piece_index(piece);
        hash ^ self.pieces[row][col][index]
    }

    /// Toggles the key for white to move.
    pub fn update_white_to_move_hash(&self, hash: u64) -> (r: u64)
        ensures
            r == hash ^ self.white_to_move,
    {
        hash ^ self.white_to_move
    }
}

/// Toggling the key of a piece on a square twice gives back the hash.
pub proof fn lemma_update_piece_twice(z: Zobrist, hash: u64, row: int, col: int, piece: char)
    requires
        in_grid(row, col),
        is_piece_letter(piece),
    ensures
        (hash ^ z.pieces[row][col][letter_index(piece)]) ^ z.pieces[row][col][letter_index(piece)]
            == hash,
{
    let k = z.pieces[row][col][letter_index(piece)];
    assert((hash ^ k) ^ k == hash) by (bit_vector);
}

/// Toggling the side key twice gives back the hash.
pub proof fn lemma_update_side_twice(z: Zobrist, hash: u64)
    ensures
        (hash ^ z.white_to_move) ^ z.white_to_move == hash,
{
    let k = z.white_to_move;
    assert((hash ^ k) ^ k == hash) by (bit_vector);
}

/// Under one table, positions with the same squares and the same side to
/// move have the same hash.
pub proof fn lemma_hash_deterministic(z: Zobrist, g1: Zjvoltis, g2: Zjvoltis)
    requires
        forall|r: int, c: int| in_grid(r, c) ==> g1.board[r][c] == g2.board[r][c],
        g1.white_to_move == g2.white_to_move,
    ensures
        z.hash_spec(g1) == z.hash_spec(g2),
{
    assert forall|r: int| 0 <= r < 10 implies g1.board[r] =~= g2.board[r] by {
        assert forall|c: int| 0 <= c < 10 implies g1.board[r][c] == g2.board[r][c] by {
            assert(in_grid(r, c));
        }
    }
    assert(g1.board =~= g2.board);
}

proof fn lemma_board_hash_one_square(
    z: Zobrist,
    b1: [[u8; 10]; 10],
    b2: [[u8; 10]; 10],
    r0: int,
    c0: int,
    k: int,
)
    requires
        in_grid(r0, c0),
        0 <= k <= 100,
        forall|r: int, c: int| in_grid(r, c) && (r, c) != (r0, c0) ==> b1[r][c] == b2[r][c],
    ensures
        z.board_hash(b1, k) ^ z.board_hash(b2, k) == if 10 * r0 + c0 < k {
            z.square_term(b1, r0, c0) ^ z.square_term(b2, r0, c0)
        } else {
            0
        },
    decreases k,
{
    if k == 0 {
        assert(0u64 ^ 0u64 == 0) by (bit_vector);
    } else {
        lemma_board_hash_one_square(z, b1, b2, r0, c0, k - 1);
        let j = k - 1;
        let (r, c) = (j / 10, j % 10);
        let h1 = z.board_hash(b1, j);
        let h2 = z.board_hash(b2, j);
        let x1 = z.square_term(b1, r, c);
        let x2 = z.square_term(b2, r, c);
        assert((h1 ^ x1) ^ (h2 ^ x2) == (h1 ^ h2) ^ (x1 ^ x2)) by (bit_vector);
        if j == 10 * r0 + c0 {
            assert((r, c) == (r0, c0));
            assert(0u64 ^ (x1 ^ x2) == x1 ^ x2) by (bit_vector);
        } else {
            assert(in_grid(r, c) && (r, c) != (r0, c0));
            assert(x1 == x2);
            assert(x1 ^ x1 == 0) by (bit_vector);
            let d = h1 ^ h2;
            assert(d ^ 0 == d) by (bit_vector);
        }
    }
}

/// Under one table, two positions with the same side to move whose boards
/// differ only on square (r0, c0) have hashes that differ by exactly what
/// that square contributes to each; so where those contributions differ,
/// the hashes differ.
pub proof fn lemma_hash_one_square(z: Zobrist, g1: Zjvoltis, g2: Zjvoltis, r0: int, c0: int)
    requires
        in_grid(r0, c0),
        forall|r: int, c: int|
            in_grid(r, c) && (r, c) != (r0, c0) ==> g1.board[r][c] == g2.board[r][c],
        g1.white_to_move == g2.white_to_move,
    ensures
        z.hash_spec(g1) ^ z.hash_spec(g2) == z.square_term(g1.board, r0, c0) ^ z.square_term(
            g2.board,
            r0,
            c0,
        ),
        z.square_term(g1.board, r0, c0) != z.square_term(g2.board, r0, c0) ==> z.hash_spec(g1)
            != z.hash_spec(g2),
{
    lemma_board_hash_one_square(z, g1.board, g2.board, r0, c0, 100);
    let h1 = z.board_hash(g1.board, 100);
    let h2 = z.board_hash(g2.board, 100);
    let w = z.white_to_move;
    assert((h1 ^ w) ^ (h2 ^ w) == h1 ^ h2) by (bit_vector);
    let t1 = z.square_term(g1.board, r0, c0);
    let t2 = z.square_term(g2.board, r0, c0);
    let a = z.hash_spec(g1);
    let b = z.hash_spec(g2);
    assert(a ^ b == t1 ^ t2 && t1 != t2 ==> a != b) by (bit_vector);
}

} // verus!
