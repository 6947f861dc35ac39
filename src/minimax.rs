use vstd::prelude::*;
use crate::zjvoltis::{in_grid, legal, move_key, moved, Zjvoltis, ZjvoltisMove};

verus! {

/// A move paired with the position it makes.
pub type Child = (ZjvoltisMove, Zjvoltis);

/// `p` lists each index of `0..n` exactly once.
pub open spec fn is_permutation(p: Seq<int>, n: int) -> bool {
    &&& p.len() == n
    &&& forall|i: int| 0 <= i < n ==> 0 <= #[trigger] p[i] < n
    &&& forall|i: int, j: int| 0 <= i < j < n ==> p[i] != p[j]
    &&& forall|j: int| 0 <= j < n ==> #[trigger] hits(p, j)
}

/// Some entry of `p` is `j`.
pub open spec fn hits(p: Seq<int>, j: int) -> bool {
    exists|i: int| 0 <= i < p.len() && p[i] == j
}

/// `p` sends each entry of `after` to its place in `before`, and keeps the
/// order of entries of equal material.
pub open spec fn stable_placement(before: Seq<Child>, after: Seq<Child>, p: Seq<int>) -> bool {
    &&& after.len() == before.len()
    &&& is_permutation(p, before.len() as int)
    &&& forall|i: int| 0 <= i < after.len() ==> #[trigger] after[i] == before[p[i]]
    &&& forall|i: int, j: int|
        0 <= i < j < after.len() && after[i].1.material == after[j].1.material ==> p[i] < p[j]
}

/// `after` holds the entries of `before`, ordered by the material of the
/// position, with entries of equal material in their former order.
pub open spec fn stably_sorted_by_material(before: Seq<Child>, after: Seq<Child>) -> bool {
    &&& forall|i: int, j: int| 0 <= i < j < after.len() ==> after[i].1.material <= after[j].1.material
    &&& exists|p: Seq<int>| stable_placement(before, after, p)
}


/// The move that move generation tries as its `k`-th candidate.
pub open spec fn candidate(k: int) -> ZjvoltisMove {
    ZjvoltisMove { row: (k / 20) as usize, col: ((k / 2) % 10) as usize, hgrad: (k % 2 + 1) as usize }
}

/// Some well-formed position is the one that `m` makes from `g`.
pub open spec fn has_child(g: Zjvoltis, m: ZjvoltisMove) -> bool {
    exists|n: Zjvoltis| moved(g, m, n) && n.wf()
}

pub open spec fn child_of(g: Zjvoltis, m: ZjvoltisMove) -> Zjvoltis {
    choose|n: Zjvoltis| moved(g, m, n) && n.wf()
}

/// `m` is one of the moves that the search tries from `g`.
#[verifier::opaque]
pub open spec fn is_child_move(g: Zjvoltis, m: ZjvoltisMove) -> bool {
    legal(g, m) && 1 <= m.hgrad <= 2 && has_child(g, m)
}

/// The value of full-width minimax to `depth` plies: a finished game
/// scores 1000 signed by its winner, a leaf its static score, and any other
/// node the best of its children for the side named by `maximize`.
pub open spec fn game_value(g: Zjvoltis, depth: int, maximize: bool) -> int
    decreases depth, 201int,
{
    match g.game_over {
        Some(w) => w * 1000,
        None => if depth <= 0 {
            g.score()
        } else {
            best_value(g, depth, maximize, 200)
        },
    }
}

/// The best value among the children reached by the first `k` candidates,
/// starting from the worst score for the side.
pub open spec fn best_value(g: Zjvoltis, depth: int, maximize: bool, k: int) -> int
    decreases depth, k,
{
    if k <= 0 || depth <= 0 {
        if maximize {
            i32::MIN as int
        } else {
            i32::MAX as int
        }
    } else {
        let prev = best_value(g, depth, maximize, k - 1);
        let m = candidate(k - 1);
        if is_child_move(g, m) {
            let v = game_value(child_of(g, m), depth - 1, !maximize);
            if maximize {
                if v > prev { v } else { prev }
            } else {
                if v < prev { v } else { prev }
            }
        } else {
            prev
        }
    }
}

/// What an alpha-beta search with bounds `alpha` and `beta` promises of its
/// score `s` against the true value `v`: exact strictly between the bounds,
/// an upper bound at or below `alpha`, a lower bound at or above `beta`.
pub open spec fn bounds_value(s: int, v: int, alpha: int, beta: int) -> bool {
    &&& s <= alpha ==> v <= s
    &&& s >= beta ==> v >= s
    &&& alpha < s < beta ==> v == s
}

proof fn lemma_moved_unique(g: Zjvoltis, m: ZjvoltisMove, n1: Zjvoltis, n2: Zjvoltis)
    requires
        moved(g, m, n1),
        moved(g, m, n2),
    ensures
        n1 == n2,
{
    assert forall|r: int| 0 <= r < 10 implies n1.board[r] =~= n2.board[r] by {
        assert forall|c: int| 0 <= c < 10 implies n1.board[r][c] == n2.board[r][c] by {
            assert(in_grid(r, c));
        }
    }
    assert(n1.board =~= n2.board);
}

proof fn lemma_candidate_key(m: ZjvoltisMove)
    requires
        m.row < 10,
        m.col < 10,
        1 <= m.hgrad <= 2,
    ensures
        candidate(move_key(m)) == m,
        0 <= move_key(m) < 200,
{
}

proof fn lemma_best_start(g: Zjvoltis, depth: int, maximize: bool, k: int)
    ensures
        maximize ==> best_value(g, depth, maximize, k) >= i32::MIN,
        !maximize ==> best_value(g, depth, maximize, k) <= i32::MAX,
    decreases k,
{
    if k > 0 && depth > 0 {
        lemma_best_start(g, depth, maximize, k - 1);
    }
}

/// Each child's value is within the best value over candidates past it.
proof fn lemma_child_within_best(g: Zjvoltis, depth: int, maximize: bool, k0: int, k: int)
    requires
        depth > 0,
        0 <= k0 < k,
        is_child_move(g, candidate(k0)),
    ensures
        ({
            let v = game_value(child_of(g, candidate(k0)), depth - 1, !maximize);
            &&& maximize ==> v <= best_value(g, depth, maximize, k)
            &&& !maximize ==> v >= best_value(g, depth, maximize, k)
        }),
    decreases k,
{
    if k0 < k - 1 {
        lemma_child_within_best(g, depth, maximize, k0, k - 1);
    }
}

/// A bound that every child's value and the starting score keep also holds
/// of the best value.
proof fn lemma_best_within(g: Zjvoltis, depth: int, maximize: bool, k: int, x: int)
    requires
        depth > 0,
        maximize ==> x >= i32::MIN,
        !maximize ==> x <= i32::MAX,
        forall|k0: int|
            0 <= k0 < k && is_child_move(g, #[trigger] candidate(k0)) ==> {
                let v = game_value(child_of(g, candidate(k0)), depth - 1, !maximize);
                &&& maximize ==> v <= x
                &&& !maximize ==> v >= x
            },
    ensures
        maximize ==> best_value(g, depth, maximize, k) <= x,
        !maximize ==> best_value(g, depth, maximize, k) >= x,
    decreases k,
{
    if k > 0 {
        lemma_best_within(g, depth, maximize, k - 1, x);
    }
}

proof fn lemma_value_bounds(g: Zjvoltis, depth: int, maximize: bool)
    requires
        g.wf(),
    ensures
        i32::MIN <= game_value(g, depth, maximize) <= i32::MAX,
    decreases depth, 201int,
{
    if g.game_over is None && depth > 0 {
        lemma_best_bounds(g, depth, maximize, 200);
    }
}

proof fn lemma_best_bounds(g: Zjvoltis, depth: int, maximize: bool, k: int)
    requires
        g.wf(),
    ensures
        i32::MIN <= best_value(g, depth, maximize, k) <= i32::MAX,
    decreases depth, k,
{
    if k > 0 && depth > 0 {
        lemma_best_bounds(g, depth, maximize, k - 1);
        let m = candidate(k - 1);
        if is_child_move(g, m) {
            reveal(is_child_move);
            lemma_value_bounds(child_of(g, m), depth - 1, !maximize);
        }
    }
}

/// A legal move with its position is a child move, and that position is
/// the one the move makes.
proof fn lemma_entry_is_child(g: Zjvoltis, e: Child)
    requires
        legal(g, e.0),
        1 <= e.0.hgrad <= 2,
        moved(g, e.0, e.1),
        e.1.wf(),
    ensures
        is_child_move(g, e.0),
        child_of(g, e.0) == e.1,
        candidate(move_key(e.0)) == e.0,
        0 <= move_key(e.0) < 200,
{
    reveal(is_child_move);
    assert(moved(g, e.0, e.1) && e.1.wf());
    let n = child_of(g, e.0);
    lemma_moved_unique(g, e.0, n, e.1);
    lemma_candidate_key(e.0);
}

proof fn lemma_listed_entry(g: Zjvoltis, moves: Seq<Child>, t: int)
    requires
        lists_children(g, moves),
        0 <= t < moves.len(),
    ensures
        is_child_move(g, moves[t].0),
        child_of(g, moves[t].0) == moves[t].1,
        candidate(move_key(moves[t].0)) == moves[t].0,
        0 <= move_key(moves[t].0) < 200,
        moves[t].1.wf(),
{
    reveal(lists_children);
    assert(legal(g, moves[t].0));
    lemma_entry_is_child(g, moves[t]);
}

proof fn lemma_listed_complete(g: Zjvoltis, moves: Seq<Child>, k0: int) -> (t: int)
    requires
        lists_children(g, moves),
        0 <= k0 < 200,
        is_child_move(g, candidate(k0)),
    ensures
        0 <= t < moves.len(),
        moves[t].0 == candidate(k0),
{
    reveal(lists_children);
    choose|t: int| 0 <= t < moves.len() && moves[t].0 == candidate(k0)
}

proof fn lemma_listed_distinct(g: Zjvoltis, moves: Seq<Child>, t1: int, t2: int)
    requires
        lists_children(g, moves),
        0 <= t1 < moves.len(),
        0 <= t2 < moves.len(),
        t1 != t2,
    ensures
        move_key(moves[t1].0) != move_key(moves[t2].0),
{
    reveal(lists_children);
    if t1 < t2 {
        assert(move_key(moves[t1].0) != move_key(moves[t2].0));
    } else {
        assert(move_key(moves[t2].0) != move_key(moves[t1].0));
    }
}

proof fn lemma_no_child_no_entry(g: Zjvoltis, moves: Seq<Child>)
    requires
        lists_children(g, moves),
        !has_child_move(g),
    ensures
        moves.len() == 0,
{
    if moves.len() > 0 {
        lemma_listed_entry(g, moves, 0);
        assert(is_child_move(g, candidate(move_key(moves[0].0))));
    }
}

/// Some candidate is a move that the search tries from `g`.
pub open spec fn has_child_move(g: Zjvoltis) -> bool {
    exists|k0: int| 0 <= k0 < 200 && #[trigger] is_child_move(g, candidate(k0))
}

/// Number of leaves of the full-width tree `depth` plies below `g`.
pub open spec fn leaf_count(g: Zjvoltis, depth: int) -> int
    decreases depth, 201int,
{
    if g.game_over is Some || depth <= 0 {
        1
    } else {
        leaves_over(g, depth, 200)
    }
}

/// Leaves below the children reached by the first `k` candidates.
pub open spec fn leaves_over(g: Zjvoltis, depth: int, k: int) -> int
    decreases depth, k,
{
    if k <= 0 || depth <= 0 {
        0
    } else {
        leaves_over(g, depth, k - 1) + if is_child_move(g, candidate(k - 1)) {
            leaf_count(child_of(g, candidate(k - 1)), depth - 1)
        } else {
            0
        }
    }
}

/// Leaves below the children reached by those of the first `k` candidates
/// whose numbers are in `keys`.
spec fn leaves_of(g: Zjvoltis, depth: int, keys: Set<int>, k: int) -> int
    decreases k,
{
    if k <= 0 {
        0
    } else {
        leaves_of(g, depth, keys, k - 1) + if keys.contains(k - 1) && is_child_move(g, candidate(k - 1)) {
            leaf_count(child_of(g, candidate(k - 1)), depth - 1)
        } else {
            0
        }
    }
}

proof fn lemma_leaf_count_nonneg(g: Zjvoltis, depth: int)
    ensures
        leaf_count(g, depth) >= 0,
    decreases depth, 201int,
{
    if g.game_over is None && depth > 0 {
        lemma_leaves_over_nonneg(g, depth, 200);
    }
}

proof fn lemma_leaves_over_nonneg(g: Zjvoltis, depth: int, k: int)
    ensures
        leaves_over(g, depth, k) >= 0,
    decreases depth, k,
{
    if k > 0 && depth > 0 {
        lemma_leaves_over_nonneg(g, depth, k - 1);
        if is_child_move(g, candidate(k - 1)) {
            lemma_leaf_count_nonneg(child_of(g, candidate(k - 1)), depth - 1);
        }
    }
}

proof fn lemma_leaves_of_empty(g: Zjvoltis, depth: int, k: int)
    ensures
        leaves_of(g, depth, Set::empty(), k) == 0,
    decreases k,
{
    if k > 0 {
        lemma_leaves_of_empty(g, depth, k - 1);
    }
}

proof fn lemma_leaves_of_insert(g: Zjvoltis, depth: int, keys: Set<int>, x: int, k: int)
    requires
        !keys.contains(x),
        0 <= x < k,
        is_child_move(g, candidate(x)),
    ensures
        leaves_of(g, depth, keys.insert(x), k) == leaves_of(g, depth, keys, k) + leaf_count(
            child_of(g, candidate(x)),
            depth - 1,
        ),
    decreases k,
{
    if k - 1 > x {
        lemma_leaves_of_insert(g, depth, keys, x, k - 1);
    } else {
        assert(k - 1 == x);
        lemma_leaves_of_same(g, depth, keys, x, k - 1);
    }
}

proof fn lemma_leaves_of_same(g: Zjvoltis, depth: int, keys: Set<int>, x: int, k: int)
    requires
        k <= x,
    ensures
        leaves_of(g, depth, keys.insert(x), k) == leaves_of(g, depth, keys, k),
    decreases k,
{
    if k > 0 {
        lemma_leaves_of_same(g, depth, keys, x, k - 1);
    }
}

proof fn lemma_leaves_of_within(g: Zjvoltis, depth: int, keys: Set<int>, k: int)
    requires
        depth > 0,
    ensures
        leaves_of(g, depth, keys, k) <= leaves_over(g, depth, k),
    decreases k,
{
    if k > 0 {
        lemma_leaves_of_within(g, depth, keys, k - 1);
        if is_child_move(g, candidate(k - 1)) {
            lemma_leaf_count_nonneg(child_of(g, candidate(k - 1)), depth - 1);
        }
    }
}

/// Relies on `slice::sort_by_key`, a stable sort, keyed here by the material
/// of each resulting position.
#[verifier::external_body]
fn sort_by_material(moves: &mut Vec<Child>)
    ensures
        stably_sorted_by_material(old(moves)@, final(moves)@),
{
    moves.sort_by_key(|c: &Child| c.1.material)
}

/// The score, best move and number of positions visited of a search of
/// `depth` plies, white maximizing and black minimizing. The score is that
/// of full-width minimax.
pub fn minimax(game: &Zjvoltis, depth: i32) -> (r: (i32, Option<ZjvoltisMove>, i32))
    requires
        game.wf(),
        depth >= 0,
    ensures
        r.0 == game_value(*game, depth as int, game.white_to_move),
        game.game_over matches Some(w) ==> r == ((w * 1000) as i32, None::<ZjvoltisMove>, 1i32),
        game.game_over is None && depth == 0 ==> r == (game.score() as i32, None::<ZjvoltisMove>, 1i32),
        0 <= r.2 <= leaf_count(*game, depth as int),
        r.1 matches Some(m) ==> is_child_move(*game, m) && game_value(
            child_of(*game, m),
            depth - 1,
            !game.white_to_move,
        ) == r.0,
        game.game_over is None && depth > 0 && i32::MIN < r.0 < i32::MAX ==> r.1 is Some,
        game.game_over is None && depth > 0 && !has_child_move(*game) ==> r == (
            if game.white_to_move { i32::MIN } else { i32::MAX },
            None::<ZjvoltisMove>,
            0i32,
        ),
{
    let maximize = game.white_to_move;
    let r = minimax_ab(game, depth, maximize, i32::MIN, i32::MAX);
    proof {
        lemma_value_bounds(*game, depth as int, maximize);
        if let Some(m) = r.1 {
            reveal(is_child_move);
            lemma_value_bounds(child_of(*game, m), depth - 1, !maximize);
        }
    }
    r
}

/// The children that the search tries, in the order it tries them: each a
/// child move with its position, and every child move among them.
#[verifier::opaque]
pub open spec fn lists_children(g: Zjvoltis, moves: Seq<Child>) -> bool {
    &&& forall|t: int|
        0 <= t < moves.len() ==> {
            &&& legal(g, #[trigger] moves[t].0)
            &&& 1 <= moves[t].0.hgrad <= 2
            &&& moved(g, moves[t].0, moves[t].1)
            &&& moves[t].1.wf()
        }
    &&& forall|k0: int|
        0 <= k0 < 200 && is_child_move(g, #[trigger] candidate(k0)) ==> exists|t: int|
            0 <= t < moves.len() && moves[t].0 == candidate(k0)
    &&& forall|t1: int, t2: int|
        0 <= t1 < t2 < moves.len() ==> move_key(#[trigger] moves[t1].0) != move_key(
            #[trigger] moves[t2].0,
        )
}

/// Alpha-beta search below a node with bounds `alpha` and `beta`; the
/// children are tried best material first for the maximizing side and
/// worst first for the other, and a child beyond the bound ends the search
/// of its siblings.
pub fn minimax_ab(game: &Zjvoltis, depth: i32, maximize: bool, alpha: i32, beta: i32) -> (r: (
    i32,
    Option<ZjvoltisMove>,
    i32,
))
    requires
        game.wf(),
        depth >= 0,
        alpha <= beta,
    ensures
        bounds_value(r.0 as int, game_value(*game, depth as int, maximize), alpha as int, beta as int),
        game.game_over matches Some(w) ==> r == ((w * 1000) as i32, None::<ZjvoltisMove>, 1i32),
        game.game_over is None && depth == 0 ==> r == (game.score() as i32, None::<ZjvoltisMove>, 1i32),
        0 <= r.2 <= leaf_count(*game, depth as int),
        r.1 matches Some(m) ==> depth > 0 && is_child_move(*game, m) && bounds_value(
            r.0 as int,
            game_value(child_of(*game, m), depth - 1, !maximize),
            alpha as int,
            beta as int,
        ),
        game.game_over is None && depth > 0 && (if maximize {
            r.0 > i32::MIN
        } else {
            r.0 < i32::MAX
        }) ==> r.1 is Some,
        game.game_over is None && depth > 0 && !has_child_move(*game) ==> r == (
            if maximize { i32::MIN } else { i32::MAX },
            None::<ZjvoltisMove>,
            0i32,
        ),
    decreases depth, 1int,
{
    if let Some(w) = game.game_over {
        return (w * 1000, None, 1);
    }
    if depth == 0 {
        return (game.evaluate(), None, 1);
    }
    let ghost g = *game;
    let mut moves = game.generate_moves();
    let ghost generated = moves@;
    sort_by_material(&mut moves);
    let ghost p = choose|p: Seq<int>| stable_placement(generated, moves@, p);
    proof {
        assert forall|t: int| 0 <= t < moves.len() implies {
            &&& legal(g, #[trigger] moves@[t].0)
            &&& 1 <= moves@[t].0.hgrad <= 2
            &&& moved(g, moves@[t].0, moves@[t].1)
            &&& moves@[t].1.wf()
        } by {
            assert(moves@[t] == generated[p[t]]);
            assert(0 <= p[t] < generated.len());
        }
        assert forall|k0: int|
            0 <= k0 < 200 && is_child_move(g, #[trigger] candidate(k0)) implies exists|t: int|
                0 <= t < moves.len() && moves@[t].0 == candidate(k0) by {
            let m = candidate(k0);
            reveal(is_child_move);
            assert(legal(g, m));
            let i = choose|i: int| 0 <= i < generated.len() && generated[i].0 == m;
            assert(hits(p, i));
            let t = choose|t: int| 0 <= t < p.len() && p[t] == i;
            assert(moves@[t] == generated[i]);
        }
        assert forall|t1: int, t2: int|
            0 <= t1 < t2 < moves.len() implies move_key(#[trigger] moves@[t1].0) != move_key(
                #[trigger] moves@[t2].0,
            ) by {
            assert(moves@[t1] == generated[p[t1]]);
            assert(moves@[t2] == generated[p[t2]]);
            assert(p[t1] != p[t2]);
            assert(0 <= p[t1] < generated.len() && 0 <= p[t2] < generated.len());
        }
        reveal(lists_children);
    }
    if maximize {
        search_max(game, depth, &moves, alpha, beta)
    } else {
        search_min(game, depth, &moves, alpha, beta)
    }
}

/// The maximizing side tries `moves` from the last to the first.
fn search_max(game: &Zjvoltis, depth: i32, moves: &Vec<Child>, alpha: i32, beta: i32) -> (r: (
    i32,
    Option<ZjvoltisMove>,
    i32,
))
    requires
        game.wf(),
        game.game_over is None,
        depth > 0,
        alpha <= beta,
        lists_children(*game, moves@),
    ensures
        bounds_value(r.0 as int, best_value(*game, depth as int, true, 200), alpha as int, beta as int),
        0 <= r.2 <= leaves_over(*game, depth as int, 200),
        r.1 matches Some(m) ==> is_child_move(*game, m) && bounds_value(
            r.0 as int,
            game_value(child_of(*game, m), depth - 1, false),
            alpha as int,
            beta as int,
        ),
        r.0 > i32::MIN ==> r.1 is Some,
        !has_child_move(*game) ==> r == (i32::MIN, None::<ZjvoltisMove>, 0i32),
    decreases depth, 0int,
{
    let ghost g = *game;
    let ghost d = depth as int;
    let ghost alpha0 = alpha as int;
    let ghost beta0 = beta as int;
    let mut alpha = alpha;
    let len = moves.len();
    let mut best_move: Option<ZjvoltisMove> = None;
    let mut nodes: i32 = 0;
    let mut best = i32::MIN;
    let mut cut = false;
    let ghost mut scores: Map<int, int> = Map::empty();
    let ghost mut windows: Map<int, int> = Map::empty();
    let ghost mut keys: Set<int> = Set::empty();
    proof {
        lemma_leaves_of_empty(g, d, 200);
    }
    let mut k: usize = 0;
    while k < len && !cut
        invariant
            k <= len,
            len == moves.len(),
            depth > 0,
            0 <= nodes <= leaves_of(g, d, keys, 200),
            g == *game,
            d == depth,
            lists_children(g, moves@),
            alpha0 <= beta0,
            beta == beta0,
            !cut ==> alpha == if alpha0 >= best { alpha0 } else { best as int },
            !cut ==> best <= beta,
            cut ==> best > beta,
            k == 0 ==> nodes == 0,
            forall|t: int|
                len - k <= t < len ==> {
                    &&& #[trigger] scores.contains_key(t)
                    &&& windows.contains_key(t)
                    &&& bounds_value(scores[t], game_value(moves@[t].1, d - 1, false), windows[t], beta0)
                    &&& scores[t] <= best
                    &&& alpha0 <= windows[t]
                },
            forall|x: int|
                #[trigger] keys.contains(x) ==> exists|t: int|
                    len - k <= t < len && move_key(moves@[t].0) == x,
            best_move is None ==> best == i32::MIN,
            best_move matches Some(mv) ==> is_child_move(g, mv) && exists|t: int|
                len - k <= t < len && #[trigger] scores.contains_key(t) && moves@[t].0 == mv
                    && scores[t] == best && (best <= alpha0 || scores[t] > windows[t]),
        decreases len - k,
    {
        let idx = len - 1 - k;
        let (m, child) = moves[idx];
        let ghost x = move_key(m);
        proof {
            lemma_listed_entry(g, moves@, idx as int);
            if keys.contains(x) {
                let t = choose|t: int| len - k <= t < len && move_key(moves@[t].0) == x;
                lemma_listed_distinct(g, moves@, t, idx as int);
            }
        }
        let ghost old_best = best as int;
        let ghost old_scores = scores;
        let ghost old_windows = windows;
        let ghost old_keys = keys;
        let ghost old_move = best_move;
        let (val, _, n) = minimax_ab(&child, depth - 1, false, alpha, beta);
        proof {
            scores = scores.insert(idx as int, val as int);
            windows = windows.insert(idx as int, alpha as int);
            keys = keys.insert(x);
            lemma_leaves_of_insert(g, d, old_keys, x, 200);
        }
        nodes = if n > i32::MAX - nodes { i32::MAX } else { nodes + n };
        if val > best {
            best_move = Some(m);
            best = val;
        }
        if val > beta {
            cut = true;
        } else if best > alpha {
            alpha = best;
        }
        k += 1;
        proof {
            assert forall|t: int| len - k <= t < len implies {
                &&& #[trigger] scores.contains_key(t)
                &&& windows.contains_key(t)
                &&& bounds_value(scores[t], game_value(moves@[t].1, d - 1, false), windows[t], beta0)
                &&& scores[t] <= best
                &&& alpha0 <= windows[t]
            } by {
                if t != idx {
                    assert(old_scores.contains_key(t));
                }
            }
            assert forall|y: int| #[trigger] keys.contains(y) implies exists|t: int|
                len - k <= t < len && move_key(moves@[t].0) == y by {
                if y != x {
                    assert(old_keys.contains(y));
                    let t = choose|t: int| len - (k - 1) <= t < len && move_key(moves@[t].0) == y;
                    assert(len - k <= t < len);
                } else {
                    assert(move_key(moves@[idx as int].0) == y);
                }
            }
            if val > old_best {
                assert(scores.contains_key(idx as int));
            } else if let Some(mv) = old_move {
                let t = choose|t: int|
                    len - (k - 1) <= t < len && #[trigger] old_scores.contains_key(t) && moves@[t].0 == mv
                        && old_scores[t] == old_best && (old_best <= alpha0 || old_scores[t]
                        > old_windows[t]);
                assert(scores.contains_key(t));
            }
        }
    }
    proof {
        lemma_best_start(g, d, true, 200);
        lemma_leaves_of_within(g, d, keys, 200);
        if !has_child_move(g) {
            lemma_no_child_no_entry(g, moves@);
        }
        if best <= alpha0 || (alpha0 < best < beta0) {
            assert forall|k0: int|
                0 <= k0 < 200 && is_child_move(g, #[trigger] candidate(k0)) implies game_value(
                child_of(g, candidate(k0)), d - 1, false) <= best by {
                let t = lemma_listed_complete(g, moves@, k0);
                lemma_listed_entry(g, moves@, t);
                assert(scores.contains_key(t));
            }
            lemma_best_within(g, d, true, 200, best as int);
        }
        if let Some(mv) = best_move {
            let t = choose|t: int|
                len - k <= t < len && #[trigger] scores.contains_key(t) && moves@[t].0 == mv
                    && scores[t] == best && (best <= alpha0 || scores[t] > windows[t]);
            lemma_listed_entry(g, moves@, t);
            lemma_child_within_best(g, d, true, move_key(moves@[t].0), 200);
        }
    }
    (best, best_move, nodes)
}

/// The minimizing side tries `moves` from the first to the last.
fn search_min(game: &Zjvoltis, depth: i32, moves: &Vec<Child>, alpha: i32, beta: i32) -> (r: (
    i32,
    Option<ZjvoltisMove>,
    i32,
))
    requires
        game.wf(),
        game.game_over is None,
        depth > 0,
        alpha <= beta,
        lists_children(*game, moves@),
    ensures
        bounds_value(r.0 as int, best_value(*game, depth as int, false, 200), alpha as int, beta as int),
        0 <= r.2 <= leaves_over(*game, depth as int, 200),
        r.1 matches Some(m) ==> is_child_move(*game, m) && bounds_value(
            r.0 as int,
            game_value(child_of(*game, m), depth - 1, true),
            alpha as int,
            beta as int,
        ),
        r.0 < i32::MAX ==> r.1 is Some,
        !has_child_move(*game) ==> r == (i32::MAX, None::<ZjvoltisMove>, 0i32),
    decreases depth, 0int,
{
    let ghost g = *game;
    let ghost d = depth as int;
    let ghost alpha0 = alpha as int;
    let ghost beta0 = beta as int;
    let mut beta = beta;
    let len = moves.len();
    let mut best_move: Option<ZjvoltisMove> = None;
    let mut nodes: i32 = 0;
    let mut best = i32::MAX;
    let mut cut = false;
    let ghost mut scores: Map<int, int> = Map::empty();
    let ghost mut windows: Map<int, int> = Map::empty();
    let ghost mut keys: Set<int> = Set::empty();
    proof {
        lemma_leaves_of_empty(g, d, 200);
    }
    let mut k: usize = 0;
    while k < len && !cut
        invariant
            k <= len,
            len == moves.len(),
            depth > 0,
            0 <= nodes <= leaves_of(g, d, keys, 200),
            g == *game,
            d == depth,
            lists_children(g, moves@),
            alpha0 <= beta0,
            alpha == alpha0,
            !cut ==> beta == if beta0 <= best { beta0 } else { best as int },
            !cut ==> best >= alpha,
            cut ==> best < alpha,
            k == 0 ==> nodes == 0,
            forall|t: int|
                0 <= t < k ==> {
                    &&& #[trigger] scores.contains_key(t)
                    &&& windows.contains_key(t)
                    &&& bounds_value(scores[t], game_value(moves@[t].1, d - 1, true), alpha0, windows[t])
                    &&& scores[t] >= best
                    &&& windows[t] <= beta0
                },
            forall|x: int| #[trigger] keys.contains(x) ==> exists|t: int| 0 <= t < k && move_key(moves@[t].0) == x,
            best_move is None ==> best == i32::MAX,
            best_move matches Some(mv) ==> is_child_move(g, mv) && exists|t: int|
                0 <= t < k && #[trigger] scores.contains_key(t) && moves@[t].0 == mv && scores[t]
                    == best && (best >= beta0 || scores[t] < windows[t]),
        decreases len - k,
    {
        let (m, child) = moves[k];
        let ghost at = k as int;
        let ghost x = move_key(m);
        proof {
            lemma_listed_entry(g, moves@, at);
            if keys.contains(x) {
                let t = choose|t: int| 0 <= t < k && move_key(moves@[t].0) == x;
                lemma_listed_distinct(g, moves@, t, at);
            }
        }
        let ghost old_best = best as int;
        let ghost old_scores = scores;
        let ghost old_windows = windows;
        let ghost old_keys = keys;
        let ghost old_move = best_move;
        let (val, _, n) = minimax_ab(&child, depth - 1, true, alpha, beta);
        proof {
            scores = scores.insert(at, val as int);
            windows = windows.insert(at, beta as int);
            keys = keys.insert(x);
            lemma_leaves_of_insert(g, d, old_keys, x, 200);
        }
        nodes = if n > i32::MAX - nodes { i32::MAX } else { nodes + n };
        if val < best {
            best_move = Some(m);
            best = val;
        }
        if val < alpha {
            cut = true;
        } else if best < beta {
            beta = best;
        }
        k += 1;
        proof {
            assert forall|t: int| 0 <= t < k implies {
                &&& #[trigger] scores.contains_key(t)
                &&& windows.contains_key(t)
                &&& bounds_value(scores[t], game_value(moves@[t].1, d - 1, true), alpha0, windows[t])
                &&& scores[t] >= best
                &&& windows[t] <= beta0
            } by {
                if t != at {
                    assert(old_scores.contains_key(t));
                }
            }
            assert forall|y: int| #[trigger] keys.contains(y) implies exists|t: int|
                0 <= t < k && move_key(moves@[t].0) == y by {
                if y != x {
                    assert(old_keys.contains(y));
                    let t = choose|t: int| 0 <= t < at && move_key(moves@[t].0) == y;
                    assert(0 <= t < k);
                } else {
                    assert(move_key(moves@[at].0) == y);
                }
            }
            if val < old_best {
                assert(scores.contains_key(at));
            } else if let Some(mv) = old_move {
                let t = choose|t: int|
                    0 <= t < at && #[trigger] old_scores.contains_key(t) && moves@[t].0 == mv
                        && old_scores[t] == old_best && (old_best >= beta0 || old_scores[t]
                        < old_windows[t]);
                assert(scores.contains_key(t));
            }
        }
    }
    proof {
        lemma_best_start(g, d, false, 200);
        lemma_leaves_of_within(g, d, keys, 200);
        if !has_child_move(g) {
            lemma_no_child_no_entry(g, moves@);
        }
        if best >= beta0 || (alpha0 < best < beta0) {
            assert forall|k0: int|
                0 <= k0 < 200 && is_child_move(g, #[trigger] candidate(k0)) implies game_value(
                child_of(g, candidate(k0)), d - 1, true) >= best by {
                let t = lemma_listed_complete(g, moves@, k0);
                lemma_listed_entry(g, moves@, t);
                assert(scores.contains_key(t));
            }
            lemma_best_within(g, d, false, 200, best as int);
        }
        if let Some(mv) = best_move {
            let t = choose|t: int|
                0 <= t < k && #[trigger] scores.contains_key(t) && moves@[t].0 == mv && scores[t]
                    == best && (best >= beta0 || scores[t] < windows[t]);
            lemma_listed_entry(g, moves@, t);
            lemma_child_within_best(g, d, false, move_key(moves@[t].0), 200);
        }
    }
    (best, best_move, nodes)
}

} // verus!
