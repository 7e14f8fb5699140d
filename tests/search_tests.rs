use std::collections::HashMap;
use tic_tac_toe::alpha_beta::{alpha_beta_pruning, best_alpha_beta_move};
use tic_tac_toe::board::Board;
use tic_tac_toe::cache::{AlphaBetaCache, MinimaxCache, WeightedCache};
use tic_tac_toe::game_state::{GameState, Player};
use tic_tac_toe::minimax::{best_move, minimax, WIN_BIAS};
use tic_tac_toe::weighted::{best_weighted_move, evaluate_weights, weighted_minimax, WEIGHTED_WIN_BIAS};

fn board_from(moves: &[(usize, usize, Player)]) -> Board {
    let mut b = Board::new();
    for &(r, c, p) in moves {
        assert!(b.make_move(r, c, &p));
    }
    b
}

/// Every board reachable from the empty one in at most `plies` moves, with
/// the game still going, and the player to move.
fn ongoing_boards(plies: usize) -> Vec<(Vec<(usize, usize, Player)>, Player)> {
    let mut out = Vec::new();
    let mut frontier = vec![(Vec::new(), Player::X)];
    for _ in 0..=plies {
        let mut next = Vec::new();
        for (moves, p) in frontier {
            let b = board_from(&moves);
            if b.get_winner() != GameState::Ongoing {
                continue;
            }
            for (r, c) in b.available_moves() {
                let mut m: Vec<(usize, usize, Player)> = moves.clone();
                m.push((r, c, p));
                next.push((m, p.opponent()));
            }
            out.push((moves, p));
        }
        frontier = next;
    }
    out
}

fn score_after(moves: &[(usize, usize, Player)], mv: (usize, usize), p: Player) -> i32 {
    let mut b = board_from(moves);
    assert!(b.make_move(mv.0, mv.1, &p));
    minimax(&mut b, 0, p == Player::O, &mut MinimaxCache::new())
}

#[test]
fn empty_board_optimal_score_is_a_draw() {
    let mut b = Board::new();
    let mut cache = MinimaxCache::new();
    let mv = best_move(&mut b, Player::X, &mut cache);
    assert_eq!(b.cell(mv.0, mv.1), None);
    assert_eq!(b.available_moves().len(), 9);
    assert_eq!(score_after(&[], mv, Player::X), 0);
    assert_eq!(minimax(&mut Board::new(), 0, true, &mut MinimaxCache::new()), 0);
}

#[test]
fn takes_the_immediate_win() {
    let moves = [(0, 0, Player::X), (0, 1, Player::X), (1, 1, Player::O)];
    let mut b = board_from(&moves);
    let mv = best_move(&mut b, Player::X, &mut MinimaxCache::new());
    assert_eq!(mv, (0, 2));
    assert_eq!(score_after(&moves, mv, Player::X), WIN_BIAS);
    let mut b = board_from(&moves);
    assert_eq!(best_alpha_beta_move(&mut b, &Player::X, &mut AlphaBetaCache::new()), (0, 2));
}

#[test]
fn second_player_blocks_or_wins() {
    // O to move; X threatens the top row, O can only block at (0, 2).
    let moves = [(0, 0, Player::X), (1, 1, Player::O), (0, 1, Player::X)];
    let mut b = board_from(&moves);
    assert_eq!(best_move(&mut b, Player::O, &mut MinimaxCache::new()), (0, 2));
    // O to move with two in the middle row: it wins at (1, 2).
    let moves = [
        (0, 0, Player::X),
        (1, 0, Player::O),
        (0, 1, Player::X),
        (1, 1, Player::O),
        (2, 2, Player::X),
    ];
    let mut b = board_from(&moves);
    assert_eq!(best_move(&mut b, Player::O, &mut MinimaxCache::new()), (1, 2));
    assert_eq!(score_after(&moves, (1, 2), Player::O), -WIN_BIAS);
}

#[test]
fn one_move_from_a_win_scores_by_depth() {
    let x_wins_next = board_from(&[(0, 0, Player::X), (0, 1, Player::X), (1, 1, Player::O), (2, 2, Player::O)]);
    let mut b = x_wins_next;
    assert_eq!(minimax(&mut b, 0, true, &mut MinimaxCache::new()), WIN_BIAS - 1);
    let mut b = board_from(&[(1, 0, Player::O), (1, 1, Player::O), (0, 0, Player::X), (2, 2, Player::X), (0, 2, Player::X)]);
    assert_eq!(minimax(&mut b, 0, false, &mut MinimaxCache::new()), 1 - WIN_BIAS);
}

#[test]
fn drawn_board_scores_zero() {
    let mut b = board_from(&[
        (0, 0, Player::X),
        (0, 1, Player::O),
        (0, 2, Player::X),
        (1, 0, Player::X),
        (1, 1, Player::O),
        (1, 2, Player::O),
        (2, 0, Player::O),
        (2, 1, Player::X),
        (2, 2, Player::X),
    ]);
    assert_eq!(minimax(&mut b, 0, true, &mut MinimaxCache::new()), 0);
    assert_eq!(minimax(&mut b, 3, false, &mut MinimaxCache::new()), 0);
}

#[test]
fn finished_game_scores_by_depth() {
    let mut b = board_from(&[(0, 0, Player::X), (1, 1, Player::X), (2, 2, Player::X)]);
    assert_eq!(minimax(&mut b, 2, false, &mut MinimaxCache::new()), WIN_BIAS - 2);
    let mut b = board_from(&[(0, 0, Player::O), (1, 0, Player::O), (2, 0, Player::O)]);
    assert_eq!(minimax(&mut b, 3, true, &mut MinimaxCache::new()), 3 - WIN_BIAS);
}

#[test]
fn search_leaves_board_and_fills_cache() {
    let moves = [(0, 0, Player::X), (1, 1, Player::O)];
    let mut b = board_from(&moves);
    let h = b.hash_state();
    let mut cache = MinimaxCache::new();
    let _ = best_move(&mut b, Player::X, &mut cache);
    assert_eq!(b.hash_state(), h);
    assert_eq!(b.available_moves().len(), 7);
    assert!(!cache.map.is_empty());
    // The child after X takes (0, 1) is stored under its fingerprint.
    let mut child = board_from(&[(0, 0, Player::X), (1, 1, Player::O), (0, 1, Player::X)]);
    assert!(cache.map.contains_key(&child.hash_state()));
}

#[test]
fn pruning_gives_the_same_move_and_score_as_minimax() {
    for (moves, p) in ongoing_boards(3) {
        let mut b = board_from(&moves);
        let plain = best_move(&mut b, p, &mut MinimaxCache::new());
        let pruned = best_alpha_beta_move(&mut b, &p, &mut AlphaBetaCache::new());
        assert_eq!(plain, pruned, "moves {:?}", moves);
        let exact = minimax(&mut b, 0, p == Player::X, &mut MinimaxCache::new());
        let mut alpha = i32::MIN;
        let mut beta = i32::MAX;
        let score = alpha_beta_pruning(&mut b, 0, &mut alpha, &mut beta, p == Player::X, &mut AlphaBetaCache::new());
        assert_eq!(score, exact, "moves {:?}", moves);
    }
}

#[test]
fn pruned_search_reads_its_own_cache() {
    let mut b = Board::new();
    let mut cache = AlphaBetaCache::new();
    let first = best_alpha_beta_move(&mut b, &Player::X, &mut cache);
    let again = best_alpha_beta_move(&mut b, &Player::X, &mut cache);
    assert_eq!(first, again);
    assert_eq!(first, best_move(&mut b, Player::X, &mut MinimaxCache::new()));
}

#[test]
fn alpha_beta_window_bounds() {
    // X to move, one move from a win: the value is WIN_BIAS - 1.
    let mut b = board_from(&[(0, 0, Player::X), (0, 1, Player::X), (1, 1, Player::O)]);
    let mut alpha = i32::MIN;
    let mut beta = i32::MAX;
    let v = alpha_beta_pruning(&mut b, 0, &mut alpha, &mut beta, true, &mut AlphaBetaCache::new());
    assert_eq!(v, WIN_BIAS - 1);
    assert_eq!(alpha, WIN_BIAS - 1);
    assert_eq!(beta, i32::MAX);
    // A window entirely above the value: the result is at most its floor.
    let mut alpha = 50;
    let mut beta = 60;
    let v = alpha_beta_pruning(&mut b, 0, &mut alpha, &mut beta, true, &mut AlphaBetaCache::new());
    assert!(v <= 50);
    assert_eq!(beta, 60);
}

#[test]
fn warm_cache_gives_the_same_move_as_a_fresh_one() {
    for (moves, p) in ongoing_boards(3) {
        let mut b = board_from(&moves);
        let mut warm = MinimaxCache::new();
        let fresh_move = best_move(&mut b, p, &mut warm);
        let warm_move = best_move(&mut b, p, &mut warm);
        assert_eq!(fresh_move, warm_move, "moves {:?}", moves);
        let mut wwarm = WeightedCache::new();
        let w1 = best_weighted_move(&mut b, &p, &mut wwarm);
        let w2 = best_weighted_move(&mut b, &p, &mut wwarm);
        assert_eq!(w1, w2, "moves {:?}", moves);
    }
}

#[test]
fn cache_map_survives_a_json_round_trip() {
    let mut b = board_from(&[(0, 0, Player::X)]);
    let mut cache = MinimaxCache::new();
    let _ = best_move(&mut b, Player::O, &mut cache);
    let text = serde_json::to_string(&cache.map).unwrap();
    let back: HashMap<u64, i32> = serde_json::from_str(&text).unwrap();
    assert_eq!(back, cache.map);
    assert!(!back.is_empty());
}

#[test]
fn weighted_search_prefers_the_center() {
    // X has (0, 0) and (0, 1), O has (1, 2) and (2, 1): the positions after X
    // takes the center or the edge (1, 0) score the same, and the center's
    // larger weight decides.
    let moves = [(0, 0, Player::X), (0, 1, Player::X), (1, 2, Player::O), (2, 1, Player::O)];
    let mut center = board_from(&moves);
    assert!(center.make_move(1, 1, &Player::X));
    let mut edge = board_from(&moves);
    assert!(edge.make_move(1, 0, &Player::X));
    assert_eq!(
        weighted_minimax(&mut center, 0, false, &mut WeightedCache::new()),
        weighted_minimax(&mut edge, 0, false, &mut WeightedCache::new())
    );
    let mut b = board_from(&moves);
    assert_eq!(best_weighted_move(&mut b, &Player::X, &mut WeightedCache::new()), (1, 1));
    // On the empty board every opening totals the same; the first one seen,
    // a corner, is kept, and no edge is chosen over the center.
    let mut b = Board::new();
    assert_eq!(best_weighted_move(&mut b, &Player::X, &mut WeightedCache::new()), (0, 0));
    // O answers a corner with the center, the lowest total.
    let mut b = board_from(&[(0, 0, Player::X)]);
    assert_eq!(best_weighted_move(&mut b, &Player::O, &mut WeightedCache::new()), (1, 1));
}

#[test]
fn weighted_bonus_is_added_on_every_layer() {
    // O to move: adding the bonus on both sides' moves gives 500.
    let mut b = board_from(&[
        (0, 0, Player::X),
        (0, 1, Player::O),
        (0, 2, Player::X),
        (1, 1, Player::O),
        (1, 0, Player::X),
        (2, 0, Player::O),
        (2, 1, Player::X),
    ]);
    assert_eq!(weighted_minimax(&mut b, 0, false, &mut WeightedCache::new()), 500);
}

#[test]
fn weighted_totals_include_the_cell_bonus() {
    let mut b = board_from(&[(0, 0, Player::X), (0, 1, Player::X), (1, 1, Player::O), (2, 2, Player::O)]);
    assert_eq!(best_weighted_move(&mut b, &Player::X, &mut WeightedCache::new()), (2, 0));
}

#[test]
fn weighted_scores_and_cache_entries() {
    let mut b = board_from(&[(0, 0, Player::X), (1, 1, Player::X), (2, 2, Player::X)]);
    assert_eq!(weighted_minimax(&mut b, 3, true, &mut WeightedCache::new()), WEIGHTED_WIN_BIAS - 3);
    let mut b = Board::new();
    let mut cache = WeightedCache::new();
    let _ = best_weighted_move(&mut b, &Player::X, &mut cache);
    let mut child = board_from(&[(1, 1, Player::X)]);
    let entry = cache.map.get(&child.hash_state()).unwrap();
    assert_eq!(entry.weights, vec![3, 2, 3, 2, 0, 2, 3, 2, 3]);
    let direct = weighted_minimax(&mut child, 0, false, &mut WeightedCache::new());
    assert_eq!(entry.score, direct);
    let copy = child.clone();
    assert_eq!(copy.available_moves(), child.available_moves());
}

#[test]
fn weights_of_empty_cells() {
    let b = Board::new();
    assert_eq!(evaluate_weights(&b), vec![3, 2, 3, 2, 5, 2, 3, 2, 3]);
    let b = board_from(&[(0, 0, Player::X), (1, 1, Player::O), (2, 1, Player::X)]);
    assert_eq!(evaluate_weights(&b), vec![0, 2, 3, 2, 0, 2, 3, 0, 3]);
}

#[test]
fn alpha_beta_leaves_bounds_on_a_finished_board() {
    let mut b = board_from(&[(0, 0, Player::X), (0, 1, Player::X), (0, 2, Player::X), (1, 0, Player::O), (1, 1, Player::O)]);
    let key = b.hash_state();
    let mut cache = AlphaBetaCache::new();
    let mut alpha = 0;
    let mut beta = 100;
    let v = alpha_beta_pruning(&mut b, 0, &mut alpha, &mut beta, true, &mut cache);
    assert_eq!(v, WIN_BIAS);
    assert_eq!((alpha, beta), (0, 100));
    assert_eq!(cache.map.get(&key), Some(&WIN_BIAS));
    // A cache hit leaves the bounds as they were too.
    let v = alpha_beta_pruning(&mut b, 0, &mut alpha, &mut beta, false, &mut cache);
    assert_eq!(v, WIN_BIAS);
    assert_eq!((alpha, beta), (0, 100));
}

#[test]
fn cache_hit_returns_the_stored_score_unchanged() {
    let mut b = board_from(&[(1, 1, Player::X)]);
    let key = b.hash_state();
    let mut cache = MinimaxCache::new();
    cache.map.insert(key, 7);
    cache.map.insert(12345, -3);
    assert_eq!(minimax(&mut b, 0, false, &mut cache), 7);
    assert_eq!(cache.map.len(), 2);
    let mut wcache = WeightedCache::new();
    wcache.map.insert(key, tic_tac_toe::cache::WeightedStateEvaluation { score: 42, weights: vec![0; 9] });
    assert_eq!(weighted_minimax(&mut b, 0, false, &mut wcache), 42);
    assert_eq!(wcache.map.len(), 1);
}

#[test]
fn searches_keep_entries_already_cached() {
    let mut b = board_from(&[(0, 0, Player::X), (1, 1, Player::O)]);
    let mut cache = MinimaxCache::new();
    cache.map.insert(99_999, 5);
    let _ = best_move(&mut b, Player::X, &mut cache);
    assert_eq!(cache.map.get(&99_999), Some(&5));
    let mut abc = AlphaBetaCache::new();
    abc.map.insert(99_999, -4);
    let _ = best_alpha_beta_move(&mut b, &Player::X, &mut abc);
    assert_eq!(abc.map.get(&99_999), Some(&-4));
}

#[test]
fn entries_for_unreachable_boards_do_not_matter() {
    // The empty board (fingerprint 0) cannot be reached from a board with a
    // taken cell, so a wrong score stored for it changes nothing.
    let moves = [(0, 0, Player::X), (1, 1, Player::O)];
    let mut cache = MinimaxCache::new();
    cache.map.insert(0, 1000);
    let mut b = board_from(&moves);
    let with_junk = best_move(&mut b, Player::X, &mut cache);
    let fresh = best_move(&mut b, Player::X, &mut MinimaxCache::new());
    assert_eq!(with_junk, fresh);
    assert_eq!(cache.map.get(&0), Some(&1000));
}

#[test]
fn board_clone_has_the_same_cells() {
    let b = board_from(&[(2, 2, Player::O)]);
    let c = b.clone();
    assert_eq!(c.cell(2, 2), Some(Player::O));
    assert_eq!(c.available_moves(), b.available_moves());
}
