use zjvoltis::minimax::{minimax, minimax_ab};
use zjvoltis::zjvoltis::{Zjvoltis, ZjvoltisMove};

/// Plain minimax over the same tree, without pruning.
fn full_minimax(game: &Zjvoltis, depth: i32, maximize: bool) -> i32 {
    if let Some(w) = game.game_over {
        return w * 1000;
    }
    if depth == 0 {
        return game.evaluate();
    }
    let mut best = if maximize { i32::MIN } else { i32::MAX };
    for (_, child) in game.generate_moves() {
        let v = full_minimax(&child, depth - 1, !maximize);
        best = if maximize { best.max(v) } else { best.min(v) };
    }
    best
}

#[test]
fn depth_zero_is_static_score() {
    let game = Zjvoltis::new();
    assert_eq!(minimax(&game, 0), (0, None, 1));
}

#[test]
fn finished_game_scores_thousand() {
    let game = Zjvoltis::from_fen("A/A/A/A/A/A/A/A/1oo7/2O7 b");
    let over = game.make_move(ZjvoltisMove::from_string("c11")).unwrap();
    let (score, best, nodes) = minimax(&over, 3);
    assert_eq!((score, best.is_none(), nodes), (-1000, true, 1));
}

#[test]
fn pruned_search_matches_full_search() {
    let start = Zjvoltis::new();
    for depth in 1..3 {
        let (score, best, _) = minimax(&start, depth);
        assert_eq!(score, full_minimax(&start, depth, true));
        assert!(best.is_some());
    }
    let later = start
        .make_move(ZjvoltisMove::from_string("i32"))
        .unwrap();
    for depth in 1..3 {
        let (score, _, _) = minimax_ab(&later, depth, false, i32::MIN, i32::MAX);
        assert_eq!(score, full_minimax(&later, depth, false));
    }
}

#[test]
fn search_finds_orangutan_capture() {
    let game = Zjvoltis::from_fen("A/A/A/A/A/A/A/A/1oo7/2O7 b");
    let (score, best, _) = minimax(&game, 1);
    assert_eq!(score, -1000);
    let m = best.unwrap();
    assert_eq!(m.to_string(), "c11");
}

/// The same search written directly, ordering children with a stable sort
/// on material.
fn reference_ab(
    game: &Zjvoltis,
    depth: i32,
    maximize: bool,
    mut alpha: i32,
    mut beta: i32,
) -> (i32, Option<ZjvoltisMove>, i32) {
    if let Some(w) = game.game_over {
        return (w * 1000, None, 1);
    }
    if depth == 0 {
        return (game.evaluate(), None, 1);
    }
    let mut best_move = None;
    let mut nodes = 0;
    let mut moves = game.generate_moves();
    moves.sort_by_key(|(_, child)| child.material);
    if maximize {
        moves.reverse();
        let mut best = i32::MIN;
        for (m, child) in moves {
            let (val, _, n) = reference_ab(&child, depth - 1, false, alpha, beta);
            nodes += n;
            if val > best {
                best_move = Some(m);
                best = val;
            }
            if val > beta {
                break;
            }
            alpha = alpha.max(best);
        }
        (best, best_move, nodes)
    } else {
        let mut best = i32::MAX;
        for (m, child) in moves {
            let (val, _, n) = reference_ab(&child, depth - 1, true, alpha, beta);
            nodes += n;
            if val < best {
                best_move = Some(m);
                best = val;
            }
            if val < alpha {
                break;
            }
            beta = beta.min(best);
        }
        (best, best_move, nodes)
    }
}

#[test]
fn move_order_and_node_count() {
    let start = Zjvoltis::new();
    for depth in 1..4 {
        assert_eq!(minimax(&start, depth), reference_ab(&start, depth, true, i32::MIN, i32::MAX));
    }
    let later = start
        .make_move(ZjvoltisMove::from_string("i32"))
        .unwrap();
    for depth in 1..4 {
        assert_eq!(minimax(&later, depth), reference_ab(&later, depth, false, i32::MIN, i32::MAX));
    }
}

fn full_leaves(game: &Zjvoltis, depth: i32) -> i32 {
    if game.game_over.is_some() || depth == 0 {
        return 1;
    }
    game.generate_moves()
        .iter()
        .map(|(_, child)| full_leaves(child, depth - 1))
        .sum()
}

#[test]
fn no_legal_move_gives_worst_score() {
    // White has no piece at all.
    let game = Zjvoltis::from_fen("o9/A/A/A/A/A/A/A/A/A w");
    assert!(game.generate_moves().is_empty());
    assert_eq!(minimax(&game, 2), (i32::MIN, None, 0));
    assert_eq!(minimax_ab(&game, 1, false, -5, 5), (i32::MAX, None, 0));
}

#[test]
fn node_count_within_full_tree() {
    let start = Zjvoltis::new();
    for depth in 0..3 {
        let (_, _, nodes) = minimax(&start, depth);
        assert!(nodes >= 0);
        assert!(nodes <= full_leaves(&start, depth));
    }
    assert_eq!(minimax(&start, 1).2, 10);
}

#[test]
fn best_move_child_has_the_score() {
    let start = Zjvoltis::new();
    for depth in 1..3 {
        let (score, best, _) = minimax(&start, depth);
        let child = start.make_move(best.unwrap()).unwrap();
        assert_eq!(full_minimax(&child, depth - 1, false), score);
    }
}
