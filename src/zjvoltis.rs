use vstd::prelude::*;
use vstd::math::min;
use vstd::set_lib::lemma_map_size;
use vstd::string::*;

verus! {

// A square holds 0 when empty; otherwise its lowest bit is the colour and
// the remaining bits name the kind of piece, so `colour + kind` is the value.
pub const WHITE: u8 = 0;
pub const BLACK: u8 = 1;
pub const ZEBRA: u8 = 2;
pub const JAGUAR: u8 = 4;
pub const VAMPIRE: u8 = 6;
pub const ORANGUTAN: u8 = 8;
pub const LEOPARD: u8 = 10;
pub const TIGER: u8 = 12;
pub const INSECT: u8 = 14;
pub const SEAHORSE: u8 = 16;

/// A 10x10 grid of square values, indexed `[row][col]`.
pub type Board = [[u8; 10]; 10];

/// A square value that names a piece of either colour, or the empty square.
pub open spec fn valid_square(v: u8) -> bool {
    v == 0 || (2 <= v <= 17)
}

pub open spec fn in_grid(r: int, c: int) -> bool {
    0 <= r < 10 && 0 <= c < 10
}

pub open spec fn square_sign(v: u8) -> int {
    if v == 0 {
        0
    } else if v % 2 == 1 {
        -1
    } else {
        1
    }
}

/// Signed count of the occupied squares among the first `k` squares in
/// row-major order: +1 for white, -1 for black.
pub open spec fn material_upto(b: Board, k: int) -> int
    decreases k,
{
    if k <= 0 {
        0
    } else {
        material_upto(b, k - 1) + square_sign(b[(k - 1) / 10][(k - 1) % 10])
    }
}

pub open spec fn material_of(b: Board) -> int {
    material_upto(b, 100)
}

pub open spec fn piece_value_spec(c: char) -> u8 {
    if c == 'Z' { (WHITE + ZEBRA) as u8 }
    else if c == 'J' { (WHITE + JAGUAR) as u8 }
    else if c == 'V' { (WHITE + VAMPIRE) as u8 }
    else if c == 'O' { (WHITE + ORANGUTAN) as u8 }
    else if c == 'L' { (WHITE + LEOPARD) as u8 }
    else if c == 'T' { (WHITE + TIGER) as u8 }
    else if c == 'I' { (WHITE + INSECT) as u8 }
    else if c == 'S' { (WHITE + SEAHORSE) as u8 }
    else if c == 'z' { (BLACK + ZEBRA) as u8 }
    else if c == 'j' { (BLACK + JAGUAR) as u8 }
    else if c == 'v' { (BLACK + VAMPIRE) as u8 }
    else if c == 'o' { (BLACK + ORANGUTAN) as u8 }
    else if c == 'l' { (BLACK + LEOPARD) as u8 }
    else if c == 't' { (BLACK + TIGER) as u8 }
    else if c == 'i' { (BLACK + INSECT) as u8 }
    else if c == 's' { (BLACK + SEAHORSE) as u8 }
    else { 0 }
}

pub open spec fn kind_char(kind: u8) -> char {
    if kind == ZEBRA { 'Z' }
    else if kind == JAGUAR { 'J' }
    else if kind == VAMPIRE { 'V' }
    else if kind == ORANGUTAN { 'O' }
    else if kind == LEOPARD { 'L' }
    else if kind == TIGER { 'T' }
    else if kind == INSECT { 'I' }
    else if kind == SEAHORSE { 'S' }
    else { '.' }
}

pub open spec fn black_kind_char(kind: u8) -> char {
    if kind == ZEBRA { 'z' }
    else if kind == JAGUAR { 'j' }
    else if kind == VAMPIRE { 'v' }
    else if kind == ORANGUTAN { 'o' }
    else if kind == LEOPARD { 'l' }
    else if kind == TIGER { 't' }
    else if kind == INSECT { 'i' }
    else if kind == SEAHORSE { 's' }
    else { '.' }
}

/// Letter of a square: upper case for white, lower case for black, '.' for
/// the empty square or a value that names no piece.
pub open spec fn piece_char_spec(v: u8) -> char {
    if v % 2 == BLACK { black_kind_char((v - 1) as u8) } else { kind_char(v) }
}

/// Whether a square value belongs to white.
pub fn is_white(piece: u8) -> (r: bool)
    ensures
        r == (piece % 2 == WHITE),
{
    piece % 2 == WHITE
}

/// The square value that a record letter stands for; 0 for any other
/// character.
pub fn piece_value(piece: char) -> (r: u8)
    ensures
        r == piece_value_spec(piece),
        valid_square(r),
{
    match piece {
        'Z' => WHITE + ZEBRA,
        'J' => WHITE + JAGUAR,
        'V' => WHITE + VAMPIRE,
        'O' => WHITE + ORANGUTAN,
        'L' => WHITE + LEOPARD,
        'T' => WHITE + TIGER,
        'I' => WHITE + INSECT,
        'S' => WHITE + SEAHORSE,
        'z' => BLACK + ZEBRA,
        'j' => BLACK + JAGUAR,
        'v' => BLACK + VAMPIRE,
        'o' => BLACK + ORANGUTAN,
        'l' => BLACK + LEOPARD,
        't' => BLACK + TIGER,
        'i' => BLACK + INSECT,
        's' => BLACK + SEAHORSE,
        _ => 0,
    }
}

/// The record letter of a square value.
pub fn piece_char(piece: u8) -> (r: char)
    ensures
        r == piece_char_spec(piece),
{
    if piece % 2 == BLACK {
        match piece - 1 {
            ZEBRA => 'z',
            JAGUAR => 'j',
            VAMPIRE => 'v',
            ORANGUTAN => 'o',
            LEOPARD => 'l',
            TIGER => 't',
            INSECT => 'i',
            SEAHORSE => 's',
            _ => '.',
        }
    } else {
        match piece {
            ZEBRA => 'Z',
            JAGUAR => 'J',
            VAMPIRE => 'V',
            ORANGUTAN => 'O',
            LEOPARD => 'L',
            TIGER => 'T',
            INSECT => 'I',
            SEAHORSE => 'S',
            _ => '.',
        }
    }
}

/// Counts +1 for each square holding a white piece and -1 for each square
/// holding a black one.
pub fn calculate_material(board: &Board) -> (r: i32)
    ensures
        r == material_of(*board),
{
    let mut score: i32 = 0;
    let mut i: usize = 0;
    while i < 100
        invariant
            i <= 100,
            score == material_upto(*board, i as int),
            -(i as int) <= score <= i as int,
        decreases 100 - i,
    {
        let v = board[i / 10][i % 10];
        if v != 0 {
            if v % 2 == 1 {
                score -= 1;
            } else {
                score += 1;
            }
        }
        i += 1;
    }
    score
}

/// A game position. Applying a move never changes a position: it yields a
/// new one.
#[derive(Clone, Copy, Debug)]
pub struct Zjvoltis {
    /// The squares, indexed `[row][col]`; row 0 is white's home row.
    pub board: Board,
    pub white_to_move: bool,
    /// `Some(1)` once white has won, `Some(-1)` once black has won.
    pub game_over: Option<i32>,
    /// Squares held by white minus squares held by black.
    pub material: i32,
}

/// Turn the piece on square (`row`, `col`) about that square by `hgrad`
/// quarter turns counterclockwise.
#[derive(Clone, Copy, Debug, PartialEq, Eq)]
pub struct ZjvoltisMove {
    pub row: usize,
    pub col: usize,
    pub hgrad: usize,
}

impl Zjvoltis {
    /// Every square names a piece or is empty, the material field counts the
    /// grid, and an outcome, if any, is a win for one side.
    pub open spec fn wf(&self) -> bool {
        &&& forall|r: int, c: int| in_grid(r, c) ==> valid_square(#[trigger] self.board[r][c])
        &&& self.material == material_of(self.board)
        &&& (self.game_over is None || self.game_over == Some(1i32) || self.game_over == Some(-1i32))
    }
}

/// One quarter turn counterclockwise of point `p` about point `a`.
pub open spec fn rot1(p: (int, int), a: (int, int)) -> (int, int) {
    (p.1 - a.1 + a.0, a.0 - p.0 + a.1)
}

/// `k` quarter turns (0 to 3) of `p` about `a`.
pub open spec fn rot(p: (int, int), a: (int, int), k: int) -> (int, int) {
    if k == 1 {
        rot1(p, a)
    } else if k == 2 {
        rot1(rot1(p, a), a)
    } else if k == 3 {
        rot1(rot1(rot1(p, a), a), a)
    } else {
        p
    }
}

pub open spec fn anchor(m: ZjvoltisMove) -> (int, int) {
    (m.row as int, m.col as int)
}

pub open spec fn moving_piece(g: Zjvoltis, m: ZjvoltisMove) -> u8 {
    g.board[m.row as int][m.col as int]
}

/// Square (r, c) is one that turns: it holds the moving piece and is not
/// the anchor.
pub open spec fn is_part(g: Zjvoltis, m: ZjvoltisMove, r: int, c: int) -> bool {
    &&& in_grid(r, c)
    &&& (r, c) != anchor(m)
    &&& g.board[r][c] == moving_piece(g, m)
}

/// A piece of the side to move, other than the moving one.
pub open spec fn own_blocker(g: Zjvoltis, m: ZjvoltisMove, v: u8) -> bool {
    v != moving_piece(g, m) && v != 0 && (v % 2 == 0) == g.white_to_move
}

pub open spec fn is_enemy(g: Zjvoltis, v: u8) -> bool {
    v != 0 && (v % 2 == 0) != g.white_to_move
}

/// Square (r, c) turns onto a square of the grid that no other own piece holds.
pub open spec fn part_can_turn(g: Zjvoltis, m: ZjvoltisMove, r: int, c: int) -> bool {
    let d = rot((r, c), anchor(m), m.hgrad as int);
    in_grid(d.0, d.1) && !own_blocker(g, m, g.board[d.0][d.1])
}

pub open spec fn legal(g: Zjvoltis, m: ZjvoltisMove) -> bool {
    &&& m.row < 10 && m.col < 10
    &&& 1 <= m.hgrad <= 3
    &&& moving_piece(g, m) != 0
    &&& g.white_to_move == (moving_piece(g, m) % 2 == 0)
    &&& forall|r: int, c: int| #[trigger] is_part(g, m, r, c) ==> part_can_turn(g, m, r, c)
}

/// Some square of the moving piece turns onto (r, c).
pub open spec fn is_dest(g: Zjvoltis, m: ZjvoltisMove, r: int, c: int) -> bool {
    exists|pr: int, pc: int|
        #[trigger] is_part(g, m, pr, pc) && rot((pr, pc), anchor(m), m.hgrad as int) == (r, c)
}

/// The enemy piece `v` is hit by the move: all of its squares go.
pub open spec fn captured(g: Zjvoltis, m: ZjvoltisMove, v: u8) -> bool {
    is_enemy(g, v) && exists|r: int, c: int|
        in_grid(r, c) && #[trigger] is_dest(g, m, r, c) && g.board[r][c] == v
}

/// The value of square (r, c) after a legal move.
pub open spec fn new_square(g: Zjvoltis, m: ZjvoltisMove, r: int, c: int) -> u8 {
    if is_dest(g, m, r, c) {
        moving_piece(g, m)
    } else if captured(g, m, g.board[r][c]) {
        0
    } else if is_part(g, m, r, c) {
        0
    } else {
        g.board[r][c]
    }
}

pub open spec fn center_all(g: Zjvoltis, m: ZjvoltisMove, v: u8) -> bool {
    &&& new_square(g, m, 4, 4) == v
    &&& new_square(g, m, 4, 5) == v
    &&& new_square(g, m, 5, 4) == v
    &&& new_square(g, m, 5, 5) == v
}

/// An orangutan filling the four center squares wins for its side; taking
/// the enemy orangutan wins for the mover. A full center is checked last.
pub open spec fn outcome(g: Zjvoltis, m: ZjvoltisMove) -> Option<i32> {
    if center_all(g, m, (BLACK + ORANGUTAN) as u8) {
        Some(-1i32)
    } else if center_all(g, m, (WHITE + ORANGUTAN) as u8) {
        Some(1i32)
    } else if captured(g, m, (BLACK + ORANGUTAN) as u8) {
        Some(1i32)
    } else if captured(g, m, (WHITE + ORANGUTAN) as u8) {
        Some(-1i32)
    } else {
        None
    }
}

/// `n` is the position that move `m` makes from `g`.
pub open spec fn moved(g: Zjvoltis, m: ZjvoltisMove, n: Zjvoltis) -> bool {
    &&& forall|r: int, c: int| in_grid(r, c) ==> #[trigger] n.board[r][c] == new_square(g, m, r, c)
    &&& n.white_to_move == !g.white_to_move
    &&& n.game_over == outcome(g, m)
    &&& n.material == g.material + mover_sign(g) * captured_count(g, m)
}

/// +1 when white is to move, -1 when black is.
pub open spec fn mover_sign(g: Zjvoltis) -> int {
    if g.white_to_move {
        1
    } else {
        -1
    }
}

/// Number of squares, among the first `k` in row-major order, that hold a
/// piece the move captures.
pub open spec fn captured_upto(g: Zjvoltis, m: ZjvoltisMove, k: int) -> int
    decreases k,
{
    if k <= 0 {
        0
    } else {
        captured_upto(g, m, k - 1) + if captured(g, m, g.board[(k - 1) / 10][(k - 1) % 10]) {
            1int
        } else {
            0
        }
    }
}

/// Number of squares that the move clears by capture.
pub open spec fn captured_count(g: Zjvoltis, m: ZjvoltisMove) -> int {
    captured_upto(g, m, 100)
}

proof fn lemma_dest_inverse(g: Zjvoltis, m: ZjvoltisMove, r: int, c: int)
    requires
        1 <= m.hgrad <= 3,
    ensures
        is_dest(g, m, r, c) <==> ({
            let p = rot((r, c), anchor(m), 4 - m.hgrad);
            is_part(g, m, p.0, p.1)
        }),
{
    let k = m.hgrad as int;
    let a = anchor(m);
    let p = rot((r, c), a, 4 - k);
    if is_part(g, m, p.0, p.1) {
        assert(rot((p.0, p.1), a, k) == (r, c));
    }
    if is_dest(g, m, r, c) {
        let (pr, pc) = choose|pr: int, pc: int|
            #[trigger] is_part(g, m, pr, pc) && rot((pr, pc), a, k) == (r, c);
        assert(rot((r, c), a, 4 - k) == (pr, pc));
    }
}

/// One quarter turn counterclockwise of `p` about `a`.
fn rotate_point(p: (isize, isize), a: (usize, usize)) -> (r: (isize, isize))
    requires
        -1000 <= p.0 <= 1000,
        -1000 <= p.1 <= 1000,
        a.0 < 10,
        a.1 < 10,
    ensures
        (r.0 as int, r.1 as int) == rot1((p.0 as int, p.1 as int), (a.0 as int, a.1 as int)),
{
    (p.1 - a.1 as isize + a.0 as isize, a.0 as isize - p.0 + a.1 as isize)
}

/// `k` quarter turns of grid square `p` about `a`.
fn rotate_times(p: (usize, usize), a: (usize, usize), k: usize) -> (r: (isize, isize))
    requires
        p.0 < 10,
        p.1 < 10,
        a.0 < 10,
        a.1 < 10,
        1 <= k <= 3,
    ensures
        (r.0 as int, r.1 as int) == rot((p.0 as int, p.1 as int), (a.0 as int, a.1 as int), k as int),
{
    let start = (p.0 as isize, p.1 as isize);
    let once = rotate_point(start, a);
    if k == 1 {
        return once;
    }
    let twice = rotate_point(once, a);
    if k == 2 {
        return twice;
    }
    rotate_point(twice, a)
}

impl Zjvoltis {
    /// Applies `m`: every other square of the piece on the anchor turns
    /// about it, each enemy piece landed on goes from the whole board, and
    /// the material moves by the squares taken. Returns `None` where the
    /// move is illegal.
    #[verifier::rlimit(40)]
    pub fn make_move(&self, m: ZjvoltisMove) -> (r: Option<Zjvoltis>)
        requires
            self.wf(),
        ensures
            r is Some <==> legal(*self, m),
            r matches Some(n) ==> moved(*self, m, n) && n.wf(),
    {
        if m.row > 9 || m.col > 9 {
            return None;
        }
        if m.hgrad < 1 || m.hgrad > 3 {
            return None;
        }
        let piece = self.board[m.row][m.col];
        if piece == 0 {
            return None;
        }
        if self.white_to_move != is_white(piece) {
            return None;
        }
        let g = *self;
        let a = (m.row, m.col);
        // Each other square of the piece must turn onto the grid, and onto no
        // other piece of the side to move.
        let mut i: usize = 0;
        while i < 100
            invariant
                i <= 100,
                g == *self,
                a == (m.row, m.col),
                m.row < 10 && m.col < 10 && 1 <= m.hgrad <= 3,
                piece == moving_piece(g, m),
                forall|r: int, c: int|
                    in_grid(r, c) && 10 * r + c < i && #[trigger] is_part(g, m, r, c)
                        ==> part_can_turn(g, m, r, c),
            decreases 100 - i,
        {
            let (row, col) = (i / 10, i % 10);
            if !(row == m.row && col == m.col) && self.board[row][col] == piece {
                let d = rotate_times((row, col), a, m.hgrad);
                assert(is_part(g, m, row as int, col as int));
                if d.0 < 0 || d.0 > 9 || d.1 < 0 || d.1 > 9 {
                    return None;
                }
                let there = self.board[d.0 as usize][d.1 as usize];
                if there != piece && there != 0 && self.white_to_move == is_white(there) {
                    return None;
                }
            }
            i += 1;
        }
        assert(legal(g, m));
        // Mark each enemy piece that a turning square lands on.
        let mut hit = [false; 18];
        let mut i: usize = 0;
        while i < 100
            invariant
                i <= 100,
                g == *self,
                self.wf(),
                a == (m.row, m.col),
                m.row < 10 && m.col < 10 && 1 <= m.hgrad <= 3,
                piece == moving_piece(g, m),
                forall|v: int|
                    0 <= v < 18 ==> (hit[v] <==> is_enemy(g, v as u8) && exists|r: int, c: int|
                        in_grid(r, c) && 10 * r + c < i && #[trigger] is_dest(g, m, r, c)
                            && g.board[r][c] == v),
            decreases 100 - i,
        {
            let (row, col) = (i / 10, i % 10);
            let p = rotate_times((row, col), a, 4 - m.hgrad);
            proof {
                lemma_dest_inverse(g, m, row as int, col as int);
            }
            let v = self.board[row][col];
            assert(valid_square(v));
            if 0 <= p.0 && p.0 <= 9 && 0 <= p.1 && p.1 <= 9 && !(p.0 as usize == m.row
                && p.1 as usize == m.col) && self.board[p.0 as usize][p.1 as usize] == piece
                && v != 0 && self.white_to_move != is_white(v) {
                hit[v as usize] = true;
                assert(is_dest(g, m, row as int, col as int));
            }
            i += 1;
        }
        // Build the new grid square by square.
        let mut nb = self.board;
        let mut removed: i32 = 0;
        let mut i: usize = 0;
        while i < 100
            invariant
                i <= 100,
                removed == captured_upto(g, m, i as int),
                0 <= removed <= i,
                g == *self,
                self.wf(),
                legal(g, m),
                a == (m.row, m.col),
                m.row < 10 && m.col < 10 && 1 <= m.hgrad <= 3,
                piece == moving_piece(g, m),
                forall|v: int|
                    0 <= v < 18 ==> (hit[v] <==> captured(g, m, v as u8)),
                forall|r: int, c: int|
                    in_grid(r, c) ==> #[trigger] nb[r][c] == if 10 * r + c < i {
                        new_square(g, m, r, c)
                    } else {
                        g.board[r][c]
                    },
            decreases 100 - i,
        {
            let (row, col) = (i / 10, i % 10);
            let p = rotate_times((row, col), a, 4 - m.hgrad);
            proof {
                lemma_dest_inverse(g, m, row as int, col as int);
            }
            let v = self.board[row][col];
            assert(valid_square(v));
            let dest = 0 <= p.0 && p.0 <= 9 && 0 <= p.1 && p.1 <= 9 && !(p.0 as usize == m.row
                && p.1 as usize == m.col) && self.board[p.0 as usize][p.1 as usize] == piece;
            let value = if dest {
                piece
            } else if hit[v as usize] {
                0
            } else if !(row == m.row && col == m.col) && v == piece {
                0
            } else {
                v
            };
            nb[row][col] = value;
            if hit[v as usize] {
                removed += 1;
            }
            i += 1;
        }
        let mut game_over: Option<i32> = None;
        if hit[(WHITE + ORANGUTAN) as usize] {
            game_over = Some(-1);
        }
        if hit[(BLACK + ORANGUTAN) as usize] {
            game_over = Some(1);
        }
        let wo = WHITE + ORANGUTAN;
        if nb[4][4] == wo && nb[4][5] == wo && nb[5][4] == wo && nb[5][5] == wo {
            game_over = Some(1);
        }
        let bo = BLACK + ORANGUTAN;
        if nb[4][4] == bo && nb[4][5] == bo && nb[5][4] == bo && nb[5][5] == bo {
            game_over = Some(-1);
        }
        proof {
            lemma_material_bounds(g.board, 100);
        }
        let material = if self.white_to_move {
            self.material + removed
        } else {
            self.material - removed
        };
        let n = Zjvoltis { board: nb, white_to_move: !self.white_to_move, game_over, material };
        proof {
            lemma_material_change(g, m, nb, 100);
            lemma_turn_keeps_size(g, m);
        }
        assert forall|r: int, c: int| in_grid(r, c) implies valid_square(#[trigger] n.board[r][c]) by {
            assert(n.board[r][c] == new_square(g, m, r, c));
            assert(valid_square(g.board[r][c]));
        }
        Some(n)
    }

    /// Every legal move that turns one or two quarter turns, with the
    /// position it makes, in order of row, then column, then turn.
    pub fn generate_moves(&self) -> (r: Vec<(ZjvoltisMove, Zjvoltis)>)
        requires
            self.wf(),
        ensures
            forall|i: int|
                #![trigger r@[i]]
                0 <= i < r@.len() ==> {
                    &&& legal(*self, r@[i].0)
                    &&& 1 <= r@[i].0.hgrad <= 2
                    &&& moved(*self, r@[i].0, r@[i].1)
                    &&& r@[i].1.wf()
                },
            forall|i: int, j: int| 0 <= i < j < r@.len() ==> move_key(r@[i].0) < move_key(r@[j].0),
            forall|m: ZjvoltisMove|
                1 <= m.hgrad <= 2 && #[trigger] legal(*self, m) ==> exists|i: int|
                    0 <= i < r@.len() && r@[i].0 == m,
    {
        let mut moves: Vec<(ZjvoltisMove, Zjvoltis)> = Vec::new();
        let mut k: usize = 0;
        while k < 200
            invariant
                k <= 200,
                self.wf(),
                forall|i: int|
                    #![trigger moves[i]]
                    0 <= i < moves.len() ==> {
                        &&& legal(*self, moves[i].0)
                        &&& 1 <= moves[i].0.hgrad <= 2
                        &&& moved(*self, moves[i].0, moves[i].1)
                        &&& moves[i].1.wf()
                        &&& move_key(moves[i].0) < k
                    },
                forall|i: int, j: int|
                    0 <= i < j < moves.len() ==> move_key(moves[i].0) < move_key(moves[j].0),
                forall|m: ZjvoltisMove|
                    1 <= m.hgrad <= 2 && #[trigger] legal(*self, m) && move_key(m) < k
                        ==> exists|i: int| 0 <= i < moves.len() && moves[i].0 == m,
            decreases 200 - k,
        {
            let m = ZjvoltisMove { row: k / 20, col: (k / 2) % 10, hgrad: k % 2 + 1 };
            assert(move_key(m) == k);
            let next = self.make_move(m);
            let ghost before = moves@;
            if let Some(child) = next {
                moves.push((m, child));
                assert(moves@ == before.push((m, child)));
                assert forall|mm: ZjvoltisMove|
                    1 <= mm.hgrad <= 2 && #[trigger] legal(*self, mm) && move_key(mm) < k + 1
                        implies exists|i: int| 0 <= i < moves.len() && moves[i].0 == mm by {
                    if move_key(mm) == k {
                        assert(moves[moves.len() - 1].0 == mm);
                    } else {
                        let i = choose|i: int| 0 <= i < before.len() && before[i].0 == mm;
                        assert(moves[i].0 == mm);
                    }
                }
            } else {
                assert forall|mm: ZjvoltisMove|
                    1 <= mm.hgrad <= 2 && #[trigger] legal(*self, mm) && move_key(mm) < k + 1
                        implies exists|i: int| 0 <= i < moves.len() && moves[i].0 == mm by {
                    if move_key(mm) == k {
                        assert(mm == m);
                    }
                }
            }
            k += 1;
        }
        moves
    }

    /// The static score: the material balance, or 1024 signed by the winner
    /// once the game is over.
    pub fn evaluate(&self) -> (r: i32)
        requires
            self.wf(),
        ensures
            r == self.score(),
    {
        match self.game_over {
            Some(w) => w * 1024,
            None => self.material,
        }
    }

    pub open spec fn score(&self) -> int {
        match self.game_over {
            Some(w) => w * 1024,
            None => self.material as int,
        }
    }
}

/// Position of a move among the candidates that move generation tries:
/// by row, then column, then turn.
pub open spec fn move_key(m: ZjvoltisMove) -> int {
    20 * m.row + 2 * m.col + m.hgrad - 1
}

/// Relies on `String::push`: the character is appended at the end.
#[verifier::external_body]
pub(crate) fn push_char(s: &mut String, c: char)
    ensures
        final(s)@ == old(s)@.push(c),
{
    s.push(c)
}

// ---- The record form: ten ranks from row 9 down, then the side to move ----

/// Index of the first space at or after `i`, or the length when there is none.
pub open spec fn next_space(s: Seq<char>, i: int) -> int
    decreases s.len() - i,
{
    if i >= s.len() {
        s.len() as int
    } else if s[i] == ' ' {
        i
    } else {
        next_space(s, i + 1)
    }
}

/// The text before the first space: the ranks.
pub open spec fn board_part(s: Seq<char>) -> Seq<char> {
    s.take(next_space(s, 0))
}

/// The token after the first space is exactly `w`.
pub open spec fn side_is_white(s: Seq<char>) -> bool {
    let k = next_space(s, 0);
    k < s.len() && s.subrange(k + 1, next_space(s, k + 1)) == seq!['w']
}

/// Reading state: the row and column of the next square, and the squares
/// filled so far. Columns past the grid are held at 10 and rows below it
/// at -1: nothing is written there.
pub type ReadState = (int, int, Map<(int, int), u8>);

pub open spec fn read_char(st: ReadState, ch: char) -> ReadState {
    let (row, col, cells) = st;
    if '0' <= ch <= '9' {
        (row, min(col + (ch as int - '0' as int), 10), cells)
    } else if ch == 'A' {
        (row, 10, cells)
    } else if ch == '.' {
        (row, min(col + 1, 10), cells)
    } else if ch == '/' {
        (if row > -1 { row - 1 } else { -1 }, 0, cells)
    } else {
        (row, min(col + 1, 10), if in_grid(row, col) {
            cells.insert((row, col), piece_value_spec(ch))
        } else {
            cells
        })
    }
}

pub open spec fn read_from(st: ReadState, s: Seq<char>) -> ReadState
    decreases s.len(),
{
    if s.len() == 0 {
        st
    } else {
        read_from(read_char(st, s[0]), s.drop_first())
    }
}

/// The value that a record gives square (r, c): empty unless a letter put
/// a piece there.
pub open spec fn record_square(s: Seq<char>, r: int, c: int) -> u8 {
    let cells = read_from((9, 0, Map::empty()), board_part(s)).2;
    if cells.contains_key((r, c)) {
        cells[(r, c)]
    } else {
        0
    }
}

/// `g` is the position that record `s` describes.
pub open spec fn read_from_record(g: Zjvoltis, s: Seq<char>) -> bool {
    &&& forall|r: int, c: int| in_grid(r, c) ==> #[trigger] g.board[r][c] == record_square(s, r, c)
    &&& g.white_to_move == side_is_white(s)
    &&& g.game_over is None
}

pub open spec fn digit(d: int) -> char {
    ((d + 48) as u8) as char
}

pub open spec fn gap_text(empty: int) -> Seq<char> {
    if empty == 0 {
        seq![]
    } else {
        seq![digit(empty)]
    }
}

/// Text of rank `row` from column `col` on, where the `empty` squares just
/// before `col` are empty and not yet written.
pub open spec fn rank_text(b: Board, row: int, col: int, empty: int) -> Seq<char>
    decreases 10 - col,
{
    if col >= 10 {
        if empty == 10 {
            seq!['A']
        } else {
            gap_text(empty)
        }
    } else if b[row][col] == 0 {
        rank_text(b, row, col + 1, empty + 1)
    } else {
        gap_text(empty) + seq![piece_char_spec(b[row][col])] + rank_text(b, row, col + 1, 0)
    }
}

/// Ranks `row` down to 0, separated by `/`.
pub open spec fn ranks_text(b: Board, row: int) -> Seq<char>
    decreases row,
{
    if row <= 0 {
        rank_text(b, 0, 0, 0)
    } else {
        rank_text(b, row, 0, 0) + seq!['/'] + ranks_text(b, row - 1)
    }
}

pub open spec fn record_of(g: Zjvoltis) -> Seq<char> {
    ranks_text(g.board, 9) + seq![' ', if g.white_to_move { 'w' } else { 'b' }]
}

/// Rows `row` down to 0, one letter per square and a newline after each row.
pub open spec fn grid_text(b: Board, row: int) -> Seq<char>
    decreases row + 1,
{
    if row < 0 {
        seq![]
    } else {
        Seq::new(10, |c: int| piece_char_spec(b[row][c])) + seq!['\n'] + grid_text(b, row - 1)
    }
}

proof fn lemma_next_space(s: Seq<char>, i: int)
    requires
        0 <= i,
    ensures
        i <= next_space(s, i) <= s.len() || (i > s.len() && next_space(s, i) == s.len()),
        next_space(s, i) < s.len() ==> s[next_space(s, i)] == ' ',
        forall|t: int| i <= t < next_space(s, i) ==> s[t] != ' ',
    decreases s.len() - i,
{
    if i < s.len() && s[i] != ' ' {
        lemma_next_space(s, i + 1);
    }
}

impl Zjvoltis {
    /// Reads a position from its record. Text that is not a record is read
    /// without failing: squares it names off the grid are ignored.
    pub fn from_fen(s: &str) -> (r: Zjvoltis)
        ensures
            read_from_record(r, s@),
            r.wf(),
    {
        let n = s.unicode_len();
        let mut k: usize = 0;
        while k < n && s.get_char(k) != ' '
            invariant
                k <= n,
                n == s@.len(),
                next_space(s@, k as int) == next_space(s@, 0),
            decreases n - k,
        {
            k += 1;
        }
        proof {
            lemma_next_space(s@, k as int + 1);
        }
        let white = k < n && n - k >= 2 && s.get_char(k + 1) == 'w' && (k + 2 == n || s.get_char(k + 2) == ' ');
        proof {
            let e = next_space(s@, k + 1);
            if k < n {
                if white {
                    assert(next_space(s@, k + 1) == k + 2);
                    assert(s@.subrange(k + 1, e) =~= seq!['w']);
                } else if s@.subrange(k + 1, e) == seq!['w'] {
                    assert(s@.subrange(k + 1, e).len() == 1);
                    assert(s@.subrange(k + 1, e)[0] == s@[k + 1]);
                }
            }
        }
        let mut board = [[0u8; 10]; 10];
        let mut row: isize = 9;
        let mut col: usize = 0;
        let ghost mut cells: Map<(int, int), u8> = Map::empty();
        let ghost part = board_part(s@);
        assert(part =~= s@.subrange(0, k as int));
        assert(part.subrange(0, k as int) =~= part);
        let mut i: usize = 0;
        while i < k
            invariant
                k <= n,
                n == s@.len(),
                part == board_part(s@),
                part =~= s@.subrange(0, k as int),
                i <= k,
                -1 <= row <= 9,
                col <= 10,
                read_from((row as int, col as int, cells), part.subrange(i as int, k as int))
                    == read_from((9, 0, Map::empty()), part),
                forall|r: int, c: int|
                    in_grid(r, c) ==> #[trigger] board[r][c] == if cells.contains_key((r, c)) {
                        cells[(r, c)]
                    } else {
                        0
                    },
                forall|r: int, c: int| in_grid(r, c) ==> valid_square(#[trigger] board[r][c]),
            decreases k - i,
        {
            let ch = s.get_char(i);
            assert(part[i as int] == ch);
            assert(part.subrange(i as int, k as int).drop_first() =~= part.subrange(i + 1, k as int));
            let ghost before = (row as int, col as int, cells);
            if '0' <= ch && ch <= '9' {
                let d = (ch as u32 - '0' as u32) as usize;
                col = if col + d > 10 { 10 } else { col + d };
            } else if ch == 'A' {
                col = 10;
            } else if ch == '.' {
                col = if col + 1 > 10 { 10 } else { col + 1 };
            } else if ch == '/' {
                row = if row > -1 { row - 1 } else { -1 };
                col = 0;
            } else {
                if 0 <= row && col < 10 {
                    board[row as usize][col] = piece_value(ch);
                    proof {
                        cells = cells.insert((row as int, col as int), piece_value_spec(ch));
                    }
                }
                col = if col < 10 { col + 1 } else { 10 };
            }
            assert((row as int, col as int, cells) == read_char(before, part[i as int]));
            i += 1;
        }
        assert(part.subrange(k as int, k as int) =~= Seq::<char>::empty());
        let material = calculate_material(&board);
        Zjvoltis { board, white_to_move: white, game_over: None, material }
    }

    /// The record of the position: ranks from row 9 down, runs of empty
    /// squares as a digit, a fully empty rank as `A`, then `w` or `b`.
    pub fn to_fen(&self) -> (r: String)
        ensures
            r@ == record_of(*self),
    {
        let ghost b = self.board;
        let mut out = String::new();
        let mut i: usize = 0;
        while i < 10
            invariant
                i <= 10,
                b == self.board,
                i < 10 ==> out@ + ranks_text(b, 9 - i) == ranks_text(b, 9),
                i == 10 ==> out@ == ranks_text(b, 9),
            decreases 10 - i,
        {
            let row = 9 - i;
            let ghost start = out@;
            let mut empty: u8 = 0;
            let mut col: usize = 0;
            while col < 10
                invariant
                    col <= 10,
                    row < 10,
                    b == self.board,
                    empty as int <= col,
                    out@ + rank_text(b, row as int, col as int, empty as int) == start + rank_text(
                        b,
                        row as int,
                        0,
                        0,
                    ),
                decreases 10 - col,
            {
                let v = self.board[row][col];
                let ghost before = out@;
                if v == 0 {
                    empty += 1;
                } else {
                    let ghost gap = gap_text(empty as int);
                    if empty > 0 {
                        push_char(&mut out, (48u8 + empty) as char);
                        empty = 0;
                    }
                    assert(out@ == before + gap);
                    push_char(&mut out, piece_char(v));
                    assert(out@ + rank_text(b, row as int, col + 1, 0) =~= before + (gap + seq![
                        piece_char_spec(v),
                    ] + rank_text(b, row as int, col + 1, 0)));
                }
                col += 1;
            }
            let ghost before = out@;
            if empty == 10 {
                push_char(&mut out, 'A');
            } else if empty > 0 {
                push_char(&mut out, (48u8 + empty) as char);
            }
            assert(out@ =~= before + rank_text(b, row as int, 10, empty as int));
            if row > 0 {
                push_char(&mut out, '/');
                assert(out@ + ranks_text(b, row - 1) =~= start + ranks_text(b, row as int));
            } else {
                assert(out@ =~= start + ranks_text(b, 0));
            }
            i += 1;
        }
        push_char(&mut out, ' ');
        push_char(&mut out, if self.white_to_move { 'w' } else { 'b' });
        assert(out@ =~= record_of(*self));
        out
    }

    /// The board as ten lines of ten letters, row 9 first, '.' for an empty
    /// square.
    pub fn to_string(&self) -> (r: String)
        ensures
            r@ == grid_text(self.board, 9),
    {
        let ghost b = self.board;
        let mut out = String::new();
        let mut i: usize = 0;
        while i < 10
            invariant
                i <= 10,
                b == self.board,
                out@ + grid_text(b, 9 - i) == grid_text(b, 9),
            decreases 10 - i,
        {
            let row = 9 - i;
            let ghost start = out@;
            let mut col: usize = 0;
            while col < 10
                invariant
                    col <= 10,
                    row < 10,
                    b == self.board,
                    out@ =~= start + Seq::new(col as nat, |c: int| piece_char_spec(b[row as int][c])),
                decreases 10 - col,
            {
                push_char(&mut out, piece_char(self.board[row][col]));
                col += 1;
            }
            push_char(&mut out, '\n');
            assert(out@ + grid_text(b, row - 1) =~= start + grid_text(b, row as int));
            i += 1;
        }
        assert(grid_text(b, -1) =~= Seq::<char>::empty());
        assert(out@ =~= grid_text(b, 9));
        out
    }

    /// The starting position.
    pub fn new() -> (r: Zjvoltis)
        ensures
            read_from_record(r, START@),
            r.wf(),
    {
        Zjvoltis::from_fen(START)
    }
}

/// The starting layout; `.` marks an empty square and an empty rank is left
/// blank.
pub const START: &'static str = "i.ll.jj.oo/i.zl.js.oo/izzltjssvv/iz1ttt1sv///.VS.TTT1ZI/VVSSJTLZZI/OO.SJ.LZ.I/OO.JJ.LL.I w";

impl ZjvoltisMove {
    /// Reads a move written as a column letter, a row digit and a digit for
    /// the number of quarter turns, as in `e51`.
    pub fn from_string(s: &str) -> (r: ZjvoltisMove)
        requires
            s@.len() >= 3,
            'a' <= s@[0],
            '0' <= s@[1],
            '0' <= s@[2],
        ensures
            r.col == s@[0] as int - 'a' as int,
            r.row == s@[1] as int - '0' as int,
            r.hgrad == s@[2] as int - '0' as int,
    {
        let col = (s.get_char(0) as u32 - 'a' as u32) as usize;
        let row = (s.get_char(1) as u32 - '0' as u32) as usize;
        let hgrad = (s.get_char(2) as u32 - '0' as u32) as usize;
        ZjvoltisMove { row, col, hgrad }
    }

    /// The move in the form that `from_string` reads.
    pub fn to_string(&self) -> (r: String)
        requires
            self.row < 10,
            self.col < 10,
            self.hgrad < 10,
        ensures
            r@ == seq![((self.col + 97) as u8) as char, digit(self.row as int), digit(self.hgrad as int)],
    {
        let mut out = String::new();
        push_char(&mut out, (self.col as u8 + 97u8) as char);
        push_char(&mut out, (self.row as u8 + 48u8) as char);
        push_char(&mut out, (self.hgrad as u8 + 48u8) as char);
        assert(out@ =~= seq![((self.col + 97) as u8) as char, digit(self.row as int), digit(self.hgrad as int)]);
        out
    }
}

// ---- Reading a record back ----

/// The squares of rank `row` from column `col` on that hold a piece, added
/// to `cells`.
spec fn put_rank(b: Board, row: int, col: int, cells: Map<(int, int), u8>) -> Map<(int, int), u8>
    decreases 10 - col,
{
    if col >= 10 {
        cells
    } else {
        put_rank(b, row, col + 1, if b[row][col] != 0 {
            cells.insert((row, col), b[row][col])
        } else {
            cells
        })
    }
}

/// The occupied squares of ranks `row` down to 0, added to `cells`.
spec fn put_ranks(b: Board, row: int, cells: Map<(int, int), u8>) -> Map<(int, int), u8>
    decreases row,
{
    if row <= 0 {
        put_rank(b, 0, 0, cells)
    } else {
        put_ranks(b, row - 1, put_rank(b, row, 0, cells))
    }
}

proof fn lemma_read_concat(st: ReadState, a: Seq<char>, b: Seq<char>)
    ensures
        read_from(st, a + b) == read_from(read_from(st, a), b),
    decreases a.len(),
{
    if a.len() == 0 {
        assert(a + b =~= b);
    } else {
        assert((a + b).drop_first() =~= a.drop_first() + b);
        assert((a + b)[0] == a[0]);
        lemma_read_concat(read_char(st, a[0]), a.drop_first(), b);
    }
}

proof fn lemma_digit(d: int)
    requires
        1 <= d <= 9,
    ensures
        '0' <= digit(d) <= '9',
        digit(d) as int - '0' as int == d,
{
}

proof fn lemma_letter(v: u8)
    requires
        valid_square(v),
        v != 0,
    ensures
        !('0' <= piece_char_spec(v) <= '9'),
        piece_char_spec(v) != 'A',
        piece_char_spec(v) != '.',
        piece_char_spec(v) != '/',
        piece_char_spec(v) != ' ',
        piece_value_spec(piece_char_spec(v)) == v,
{
}

proof fn lemma_read_one(st: ReadState, ch: char)
    ensures
        read_from(st, seq![ch]) == read_char(st, ch),
{
    let one = seq![ch];
    assert(one[0] == ch);
    assert(one.drop_first() =~= Seq::<char>::empty());
    assert(read_from(read_char(st, ch), Seq::<char>::empty()) == read_char(st, ch));
}

proof fn lemma_read_rank(b: Board, row: int, col: int, empty: int, cells: Map<(int, int), u8>)
    requires
        0 <= row < 10,
        0 <= empty <= col <= 10,
        forall|c: int| 0 <= c < 10 ==> valid_square(#[trigger] b[row][c]),
    ensures
        read_from((row, col - empty, cells), rank_text(b, row, col, empty)) == (
            row,
            10int,
            put_rank(b, row, col, cells),
        ),
    decreases 10 - col,
{
    let st = (row, col - empty, cells);
    if col >= 10 {
        if empty == 10 {
            lemma_read_one(st, 'A');
        } else if empty > 0 {
            lemma_digit(empty);
            lemma_read_one(st, digit(empty));
        } else {
            assert(rank_text(b, row, col, empty) =~= Seq::<char>::empty());
        }
    } else if b[row][col] == 0 {
        lemma_read_rank(b, row, col + 1, empty + 1, cells);
    } else {
        let v = b[row][col];
        let pc = piece_char_spec(v);
        let gap = gap_text(empty);
        let rest = rank_text(b, row, col + 1, 0);
        assert(rank_text(b, row, col, empty) == gap + seq![pc] + rest);
        lemma_read_concat(st, gap + seq![pc], rest);
        lemma_read_concat(st, gap, seq![pc]);
        if empty > 0 {
            lemma_digit(empty);
            lemma_read_one(st, digit(empty));
        } else {
            assert(gap =~= Seq::<char>::empty());
        }
        assert(read_from(st, gap) == (row, col, cells));
        lemma_letter(v);
        lemma_read_one((row, col, cells), pc);
        lemma_read_rank(b, row, col + 1, 0, cells.insert((row, col), v));
    }
}

proof fn lemma_read_ranks(b: Board, row: int, cells: Map<(int, int), u8>)
    requires
        0 <= row < 10,
        forall|r: int, c: int| in_grid(r, c) ==> valid_square(#[trigger] b[r][c]),
    ensures
        read_from((row, 0int, cells), ranks_text(b, row)) == (0int, 10int, put_ranks(b, row, cells)),
    decreases row,
{
    assert forall|c: int| 0 <= c < 10 implies valid_square(#[trigger] b[row][c]) by {
        assert(in_grid(row, c));
    }
    lemma_read_rank(b, row, 0, 0, cells);
    if row > 0 {
        let st = (row, 0int, cells);
        let rank = rank_text(b, row, 0, 0);
        let rest = ranks_text(b, row - 1);
        lemma_read_concat(st, rank + seq!['/'], rest);
        lemma_read_concat(st, rank, seq!['/']);
        lemma_read_one((row, 10int, put_rank(b, row, 0, cells)), '/');
        lemma_read_ranks(b, row - 1, put_rank(b, row, 0, cells));
    }
}

proof fn lemma_put_rank_at(b: Board, row: int, col: int, cells: Map<(int, int), u8>, r: int, c: int)
    requires
        0 <= col <= 10,
    ensures
        ({
            let m = put_rank(b, row, col, cells);
            &&& (r == row && col <= c < 10 && b[row][c] != 0) ==> m.contains_key((r, c))
                && m[(r, c)] == b[row][c]
            &&& !(r == row && col <= c < 10 && b[row][c] != 0) ==> m.contains_key((r, c))
                == cells.contains_key((r, c)) && (cells.contains_key((r, c)) ==> m[(r, c)]
                == cells[(r, c)])
        }),
    decreases 10 - col,
{
    if col < 10 {
        let next = if b[row][col] != 0 {
            cells.insert((row, col), b[row][col])
        } else {
            cells
        };
        assert(put_rank(b, row, col, cells) == put_rank(b, row, col + 1, next));
        lemma_put_rank_at(b, row, col + 1, next, r, c);
    }
}

proof fn lemma_put_ranks_at(b: Board, row: int, cells: Map<(int, int), u8>, r: int, c: int)
    requires
        0 <= row < 10,
        0 <= r <= row,
        0 <= c < 10,
    ensures
        ({
            let m = put_ranks(b, row, cells);
            &&& b[r][c] != 0 ==> m.contains_key((r, c)) && m[(r, c)] == b[r][c]
            &&& b[r][c] == 0 ==> m.contains_key((r, c)) == cells.contains_key((r, c))
        }),
    decreases row,
{
    if row == 0 {
        lemma_put_rank_at(b, 0, 0, cells, r, c);
    } else {
        let next = put_rank(b, row, 0, cells);
        lemma_put_rank_at(b, row, 0, cells, r, c);
        if r < row {
            lemma_put_ranks_at(b, row - 1, next, r, c);
            if b[r][c] == 0 {
                assert(next.contains_key((r, c)) == cells.contains_key((r, c)));
            }
        } else {
            lemma_put_ranks_untouched(b, row - 1, next, r, c);
        }
    }
}

proof fn lemma_put_ranks_untouched(b: Board, row: int, cells: Map<(int, int), u8>, r: int, c: int)
    requires
        0 <= row < r,
    ensures
        put_ranks(b, row, cells).contains_key((r, c)) == cells.contains_key((r, c)),
        cells.contains_key((r, c)) ==> put_ranks(b, row, cells)[(r, c)] == cells[(r, c)],
    decreases row,
{
    let next = put_rank(b, if row <= 0 { 0 } else { row }, 0, cells);
    lemma_put_rank_untouched(b, if row <= 0 { 0 } else { row }, 0, cells, r, c);
    if row > 0 {
        lemma_put_ranks_untouched(b, row - 1, next, r, c);
    }
}

proof fn lemma_put_rank_untouched(b: Board, row: int, col: int, cells: Map<(int, int), u8>, r: int, c: int)
    requires
        row != r,
    ensures
        put_rank(b, row, col, cells).contains_key((r, c)) == cells.contains_key((r, c)),
        cells.contains_key((r, c)) ==> put_rank(b, row, col, cells)[(r, c)] == cells[(r, c)],
    decreases 10 - col,
{
    if col < 10 {
        let next = if b[row][col] != 0 {
            cells.insert((row, col), b[row][col])
        } else {
            cells
        };
        lemma_put_rank_untouched(b, row, col + 1, next, r, c);
    }
}

proof fn lemma_rank_no_space(b: Board, row: int, col: int, empty: int)
    requires
        0 <= empty <= col <= 10,
        col < 10 ==> empty <= 9,
    ensures
        forall|i: int|
            0 <= i < rank_text(b, row, col, empty).len() ==> #[trigger] rank_text(b, row, col, empty)[i]
                != ' ',
    decreases 10 - col,
{
    let text = rank_text(b, row, col, empty);
    if 1 <= empty <= 9 {
        lemma_digit(empty);
    }
    let gap = gap_text(empty);
    assert(forall|i: int| 0 <= i < gap.len() ==> #[trigger] gap[i] != ' ');
    if col >= 10 {
        if empty == 10 {
            assert(text =~= seq!['A']);
        } else {
            assert(text == gap);
        }
    } else {
        if b[row][col] == 0 {
            lemma_rank_no_space(b, row, col + 1, empty + 1);
            assert(text == rank_text(b, row, col + 1, empty + 1));
        } else {
            let pc = piece_char_spec(b[row][col]);
            let rest = rank_text(b, row, col + 1, 0);
            lemma_rank_no_space(b, row, col + 1, 0);
            assert(pc != ' ');
            let head = gap + seq![pc];
            assert(forall|i: int| 0 <= i < head.len() ==> #[trigger] head[i] != ' ');
            assert(text == head + rest);
            assert forall|i: int| 0 <= i < text.len() implies #[trigger] text[i] != ' ' by {
                if i < head.len() {
                    assert(text[i] == head[i]);
                } else {
                    assert(text[i] == rest[i - head.len()]);
                }
            }
        }
    }
}

proof fn lemma_ranks_no_space(b: Board, row: int)
    ensures
        forall|i: int| 0 <= i < ranks_text(b, row).len() ==> #[trigger] ranks_text(b, row)[i] != ' ',
    decreases row,
{
    lemma_rank_no_space(b, row, 0, 0);
    lemma_rank_no_space(b, 0, 0, 0);
    if row > 0 {
        lemma_ranks_no_space(b, row - 1);
        let head = rank_text(b, row, 0, 0) + seq!['/'];
        let rest = ranks_text(b, row - 1);
        let text = ranks_text(b, row);
        assert(forall|i: int| 0 <= i < head.len() ==> #[trigger] head[i] != ' ');
        assert(text == head + rest);
        assert forall|i: int| 0 <= i < text.len() implies #[trigger] text[i] != ' ' by {
            if i < head.len() {
                assert(text[i] == head[i]);
            } else {
                assert(text[i] == rest[i - head.len()]);
            }
        }
    }
}

proof fn lemma_no_space_prefix(s: Seq<char>, n: int, i: int)
    requires
        0 <= i <= n <= s.len(),
        forall|t: int| i <= t < n ==> s[t] != ' ',
        n < s.len() ==> s[n] == ' ',
    ensures
        next_space(s, i) == n,
    decreases n - i,
{
    if i < n {
        lemma_no_space_prefix(s, n, i + 1);
    }
}

/// Reading the record of a position gives back each of its squares and the
/// side to move.
pub proof fn lemma_record_round_trip(g: Zjvoltis)
    requires
        forall|r: int, c: int| in_grid(r, c) ==> valid_square(#[trigger] g.board[r][c]),
    ensures
        forall|r: int, c: int| in_grid(r, c) ==> record_square(record_of(g), r, c) == #[trigger] g.board[r][c],
        side_is_white(record_of(g)) == g.white_to_move,
{
    let b = g.board;
    let ranks = ranks_text(b, 9);
    let side = if g.white_to_move { 'w' } else { 'b' };
    let rec = record_of(g);
    let n = ranks.len() as int;
    lemma_ranks_no_space(b, 9);
    assert(rec == ranks + seq![' ', side]);
    assert forall|t: int| 0 <= t < n implies rec[t] != ' ' by {
        assert(rec[t] == ranks[t]);
    }
    assert(rec[n] == ' ');
    lemma_no_space_prefix(rec, n, 0);
    assert(board_part(rec) =~= ranks);
    lemma_no_space_prefix(rec, n + 2, n + 1);
    assert(rec.subrange(n + 1, n + 2) =~= seq![side]);
    assert(rec[n + 1] == side);
    assert(side != ' ');
    if !g.white_to_move {
        assert(seq![side][0] != seq!['w'][0]);
    }
    lemma_read_ranks(b, 9, Map::empty());
    assert forall|r: int, c: int| in_grid(r, c) implies record_square(rec, r, c) == #[trigger] b[r][c] by {
        lemma_put_ranks_at(b, 9, Map::empty(), r, c);
    }
}

// ---- Material after a move ----

proof fn lemma_material_bounds(b: Board, k: int)
    requires
        0 <= k,
    ensures
        -k <= material_upto(b, k) <= k,
    decreases k,
{
    if k > 0 {
        lemma_material_bounds(b, k - 1);
    }
}

spec fn flat(p: (int, int)) -> int {
    10 * p.0 + p.1
}

spec fn part_upto(g: Zjvoltis, m: ZjvoltisMove, k: int) -> int
    decreases k,
{
    if k <= 0 {
        0
    } else {
        part_upto(g, m, k - 1) + if is_part(g, m, (k - 1) / 10, (k - 1) % 10) {
            1int
        } else {
            0
        }
    }
}

spec fn dest_upto(g: Zjvoltis, m: ZjvoltisMove, k: int) -> int
    decreases k,
{
    if k <= 0 {
        0
    } else {
        dest_upto(g, m, k - 1) + if is_dest(g, m, (k - 1) / 10, (k - 1) % 10) {
            1int
        } else {
            0
        }
    }
}

spec fn part_set(g: Zjvoltis, m: ZjvoltisMove, k: int) -> Set<(int, int)> {
    Set::new(|p: (int, int)| is_part(g, m, p.0, p.1) && flat(p) < k)
}

spec fn dest_set(g: Zjvoltis, m: ZjvoltisMove, k: int) -> Set<(int, int)> {
    Set::new(|p: (int, int)| in_grid(p.0, p.1) && is_dest(g, m, p.0, p.1) && flat(p) < k)
}

proof fn lemma_part_count(g: Zjvoltis, m: ZjvoltisMove, k: int)
    requires
        0 <= k <= 100,
    ensures
        part_set(g, m, k).finite(),
        part_set(g, m, k).len() == part_upto(g, m, k),
    decreases k,
{
    if k == 0 {
        assert(part_set(g, m, 0) =~= Set::empty());
    } else {
        lemma_part_count(g, m, k - 1);
        let c = ((k - 1) / 10, (k - 1) % 10);
        if is_part(g, m, c.0, c.1) {
            assert(part_set(g, m, k) =~= part_set(g, m, k - 1).insert(c));
        } else {
            assert(part_set(g, m, k) =~= part_set(g, m, k - 1));
        }
    }
}

proof fn lemma_dest_count(g: Zjvoltis, m: ZjvoltisMove, k: int)
    requires
        0 <= k <= 100,
    ensures
        dest_set(g, m, k).finite(),
        dest_set(g, m, k).len() == dest_upto(g, m, k),
    decreases k,
{
    if k == 0 {
        assert(dest_set(g, m, 0) =~= Set::empty());
    } else {
        lemma_dest_count(g, m, k - 1);
        let c = ((k - 1) / 10, (k - 1) % 10);
        if is_dest(g, m, c.0, c.1) {
            assert(dest_set(g, m, k) =~= dest_set(g, m, k - 1).insert(c));
        } else {
            assert(dest_set(g, m, k) =~= dest_set(g, m, k - 1));
        }
    }
}

/// The turning squares and the squares they land on are equally many.
proof fn lemma_turn_keeps_size(g: Zjvoltis, m: ZjvoltisMove)
    requires
        legal(g, m),
    ensures
        part_upto(g, m, 100) == dest_upto(g, m, 100),
{
    let a = anchor(m);
    let k = m.hgrad as int;
    let f = |p: (int, int)| rot(p, a, k);
    let x = part_set(g, m, 100);
    let y = dest_set(g, m, 100);
    lemma_part_count(g, m, 100);
    lemma_dest_count(g, m, 100);
    assert forall|p1: (int, int), p2: (int, int)|
        x.contains(p1) && x.contains(p2) && #[trigger] f(p1) == #[trigger] f(p2) implies p1 == p2 by {
        assert(rot(rot(p1, a, k), a, 4 - k) == p1);
        assert(rot(rot(p2, a, k), a, 4 - k) == p2);
    }
    assert forall|q: (int, int)| #[trigger] x.map(f).contains(q) == y.contains(q) by {
        if y.contains(q) {
            let (pr, pc) = choose|pr: int, pc: int|
                #[trigger] is_part(g, m, pr, pc) && rot((pr, pc), a, k) == q;
            assert(x.contains((pr, pc)));
            assert(f((pr, pc)) == q);
        }
        if x.map(f).contains(q) {
            let p = choose|p: (int, int)| x.contains(p) && f(p) == q;
            assert(is_part(g, m, p.0, p.1));
            assert(part_can_turn(g, m, p.0, p.1));
            assert(is_dest(g, m, q.0, q.1));
        }
    }
    assert(x.map(f) =~= y);
    lemma_map_size(x, y, f);
}

/// How one square's contribution to the material changes.
proof fn lemma_square_change(g: Zjvoltis, m: ZjvoltisMove, r: int, c: int)
    requires
        g.wf(),
        legal(g, m),
        in_grid(r, c),
    ensures
        square_sign(new_square(g, m, r, c)) - square_sign(g.board[r][c]) == mover_sign(g) * ((if is_dest(
            g,
            m,
            r,
            c,
        ) {
            1int
        } else {
            0
        }) - (if is_part(g, m, r, c) {
            1int
        } else {
            0
        }) + (if captured(g, m, g.board[r][c]) {
            1int
        } else {
            0
        })),
{
    let a = anchor(m);
    let k = m.hgrad as int;
    let v = g.board[r][c];
    if is_dest(g, m, r, c) {
        let (pr, pc) = choose|pr: int, pc: int|
            #[trigger] is_part(g, m, pr, pc) && rot((pr, pc), a, k) == (r, c);
        assert(part_can_turn(g, m, pr, pc));
        if (r, c) == a {
            assert(rot(rot((pr, pc), a, k), a, 4 - k) == (pr, pc));
            assert(rot(a, a, 4 - k) == a);
        }
        if v != 0 && v != moving_piece(g, m) {
            assert(is_enemy(g, v));
            assert(in_grid(r, c) && is_dest(g, m, r, c) && g.board[r][c] == v);
        }
    }
}

proof fn lemma_material_change(g: Zjvoltis, m: ZjvoltisMove, nb: Board, k: int)
    requires
        g.wf(),
        legal(g, m),
        forall|r: int, c: int| in_grid(r, c) ==> #[trigger] nb[r][c] == new_square(g, m, r, c),
        0 <= k <= 100,
    ensures
        material_upto(nb, k) - material_upto(g.board, k) == mover_sign(g) * (dest_upto(g, m, k)
            - part_upto(g, m, k) + captured_upto(g, m, k)),
    decreases k,
{
    if k > 0 {
        lemma_material_change(g, m, nb, k - 1);
        let (r, c) = ((k - 1) / 10, (k - 1) % 10);
        assert(in_grid(r, c));
        assert(nb[r][c] == new_square(g, m, r, c));
        lemma_square_change(g, m, r, c);
    }
}

} // verus!
