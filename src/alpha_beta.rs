use vstd::prelude::*;
use crate::board::{
    added_within, cell_index, empties, extends, fingerprint, lemma_added_chain, lemma_added_insert,
    lemma_empties_fill, lemma_fingerprint_bounds, outcome, Board,
};
use crate::cache::AlphaBetaCache;
use crate::game_state::{GameState, Player};
use crate::minimax::{
    choice_upto, choice_view, children_value, lemma_children_monotone, lemma_children_unfold,
    lemma_minimax_range, lemma_minimax_unfold, lemma_sound_insert, lemma_sound_narrow,
    lemma_sound_widen, minimax_sound, minimax_value, optimal_move, root_base, root_parity, WIN_BIAS,
};
use crate::search::{clamp, combine, keeps, mover, parity_of, terminal_score};

verus! {

broadcast use vstd::std_specs::hash::group_hash_axioms;

/// One child of a maximizing layer keeps the running best equal, through the
/// entry window `(a0, b0)`, to the fold of the exact values.
proof fn lemma_max_step(a0: int, b0: int, best: int, folded: int, v: int, exact: int)
    requires
        a0 < b0 ==> if a0 >= best { a0 } else { best } < b0,
        clamp(best, a0, b0) == clamp(folded, a0, b0),
        clamp(v, if a0 >= best { a0 } else { best }, b0) == clamp(
            exact,
            if a0 >= best { a0 } else { best },
            b0,
        ),
    ensures
        clamp(combine(true, best, v), a0, b0) == clamp(combine(true, folded, exact), a0, b0),
{
}

/// One child of a minimizing layer, the mirror of `lemma_max_step`.
proof fn lemma_min_step(a0: int, b0: int, best: int, folded: int, v: int, exact: int)
    requires
        a0 < b0 ==> a0 < if b0 <= best { b0 } else { best },
        clamp(best, a0, b0) == clamp(folded, a0, b0),
        clamp(v, a0, if b0 <= best { b0 } else { best }) == clamp(
            exact,
            a0,
            if b0 <= best { b0 } else { best },
        ),
    ensures
        clamp(combine(false, best, v), a0, b0) == clamp(combine(false, folded, exact), a0, b0),
{
}

/// Through the widest window, a score that agrees with a minimax value of one
/// game is that value: pruning does not change the score.
pub proof fn lemma_full_window_exact(g: Seq<Option<Player>>, depth: int, maximizing: bool, r: i32)
    requires
        g.len() == 9,
        0 <= depth,
        depth + empties(g) <= 9,
        clamp(r as int, i32::MIN as int, i32::MAX as int) == clamp(
            minimax_value(g, depth, maximizing),
            i32::MIN as int,
            i32::MAX as int,
        ),
    ensures
        r == minimax_value(g, depth, maximizing),
{
    lemma_minimax_range(g, depth, maximizing);
}

/// Scores `board` by minimax with alpha-beta pruning, `depth` plies below
/// the search root, `X` to move when `maximizing`, inside the window
/// `(alpha, beta)`. Each child is searched in a copy of the current window;
/// after it, a maximizing layer raises `alpha` and a minimizing one lowers
/// `beta` to the best score so far, and the remaining children are skipped
/// once `beta <= alpha`, so a board scored through its children returns with
/// its own bound holding the best score. A board whose fingerprint is
/// cached takes the cached score, and a finished game its `terminal_score`;
/// both leave the bounds as they were. A score is stored only where it is
/// exact: a finished game, or a result strictly inside the entry window; no
/// entry already cached changes. The board comes back as it was.
/// Where the cache is sound for this search, the result agrees with the
/// minimax value through the entry window (equal inside it; at or below
/// `alpha` only if the value is; at or above `beta` only if the value is),
/// and the cache stays sound.
#[verifier::rlimit(40)]
pub fn alpha_beta_pruning(
    board: &mut Board,
    depth: i32,
    alpha: &mut i32,
    beta: &mut i32,
    maximizing: bool,
    cache: &mut AlphaBetaCache,
) -> (r: i32)
    requires
        0 <= depth,
        depth + empties(old(board)@) <= 9,
    ensures
        final(board)@ == old(board)@,
        keeps(old(cache).map@, final(cache).map@),
        old(cache).map@.contains_key(fingerprint(old(board)@) as u64) || outcome(old(board)@)
            != GameState::Ongoing ==> *final(alpha) == *old(alpha) && *final(beta) == *old(beta),
        !old(cache).map@.contains_key(fingerprint(old(board)@) as u64) && outcome(old(board)@)
            == GameState::Ongoing ==> {
            &&& maximizing ==> *final(beta) == *old(beta) && *final(alpha) == if *old(alpha) >= r {
                *old(alpha)
            } else {
                r
            }
            &&& !maximizing ==> *final(alpha) == *old(alpha) && *final(beta) == if *old(beta) <= r {
                *old(beta)
            } else {
                r
            }
        },
        old(cache).map@.contains_key(fingerprint(old(board)@) as u64) ==> {
            &&& r == old(cache).map@[fingerprint(old(board)@) as u64]
            &&& final(cache).map@ == old(cache).map@
        },
        !old(cache).map@.contains_key(fingerprint(old(board)@) as u64) && outcome(old(board)@)
            != GameState::Ongoing ==> r == terminal_score(outcome(old(board)@), depth as int, WIN_BIAS as int),
        !old(cache).map@.contains_key(fingerprint(old(board)@) as u64) && (outcome(old(board)@)
            != GameState::Ongoing || *old(alpha) < r < *old(beta)) ==> {
            &&& final(cache).map@.contains_key(fingerprint(old(board)@) as u64)
            &&& final(cache).map@[fingerprint(old(board)@) as u64] == r
        },
        added_within(old(cache).map@, final(cache).map@, old(board)@),
        minimax_sound(
            old(cache).map@,
            depth + empties(old(board)@),
            parity_of(empties(old(board)@), maximizing),
            old(board)@,
        ) ==> {
            &&& clamp(r as int, *old(alpha) as int, *old(beta) as int) == clamp(
                minimax_value(old(board)@, depth as int, maximizing),
                *old(alpha) as int,
                *old(beta) as int,
            )
            &&& minimax_sound(
                final(cache).map@,
                depth + empties(old(board)@),
                parity_of(empties(old(board)@), maximizing),
                old(board)@,
            )
        },
    decreases empties(board@),
{
    let ghost g0 = board@;
    let ghost base = depth + empties(g0);
    let ghost parity = parity_of(empties(g0), maximizing);
    let ghost sound0 = minimax_sound(cache.map@, base, parity, g0);
    let ghost cache0 = cache.map@;
    let a0 = *alpha;
    let b0 = *beta;
    proof {
        board.lemma_len();
        lemma_fingerprint_bounds(g0);
        assert(extends(g0, g0));
    }
    let h = board.hash_state();
    if let Some(v) = cache.map.get(&h) {
        let v = *v;
        proof {
            if sound0 {
                assert(cache.map@.contains_key(fingerprint(g0) as u64));
            }
        }
        return v;
    }
    proof { lemma_minimax_unfold(g0, depth as int, maximizing); }
    let state = board.get_winner();
    let score = match state {
        GameState::Win(Player::X) => WIN_BIAS - depth,
        GameState::Win(Player::O) => depth - WIN_BIAS,
        GameState::Draw => 0,
        GameState::Ongoing => {
            let player = if maximizing {
                Player::X
            } else {
                Player::O
            };
            let mut best: i32 = if maximizing {
                i32::MIN
            } else {
                i32::MAX
            };
            let mut i: usize = 0;
            proof { lemma_children_unfold(g0, depth as int, maximizing, 0); }
            while i < 9
                invariant_except_break
                    i <= 9,
                    a0 < b0 ==> *alpha < *beta,
                    sound0 ==> clamp(best as int, a0 as int, b0 as int) == clamp(
                        children_value(g0, depth as int, maximizing, i as int),
                        a0 as int,
                        b0 as int,
                    ),
                invariant
                    board@ == g0,
                    old(board)@ == g0,
                    g0.len() == 9,
                    0 <= depth,
                    depth + empties(g0) <= 9,
                    base == depth + empties(g0),
                    parity == parity_of(empties(g0), maximizing),
                    player == mover(maximizing),
                    sound0 ==> minimax_sound(cache.map@, base, parity, g0),
                    keeps(cache0, cache.map@),
                    added_within(cache0, cache.map@, g0),
                    !cache0.contains_key(h),
                    maximizing ==> *beta == b0 && *alpha == if a0 >= best {
                        a0
                    } else {
                        best
                    },
                    !maximizing ==> *alpha == a0 && *beta == if b0 <= best {
                        b0
                    } else {
                        best
                    },
                ensures
                    sound0 ==> clamp(best as int, a0 as int, b0 as int) == clamp(
                        children_value(g0, depth as int, maximizing, 9),
                        a0 as int,
                        b0 as int,
                    ),
                decreases 9 - i,
            {
                let row = i / 3;
                let col = i % 3;
                assert(3 * row + col == i);
                if board.make_move(row, col, &player) {
                    let ghost c = board@;
                    assert(c == g0.update(i as int, Some(mover(maximizing))));
                    proof { lemma_empties_fill(g0, i as int, Some(mover(maximizing))); }
                    assert(extends(c, g0));
                    let ghost mb = cache.map@;
                    proof {
                        if sound0 {
                            lemma_sound_narrow(mb, base, parity, g0, c);
                        }
                    }
                    let mut child_alpha = *alpha;
                    let mut child_beta = *beta;
                    let v = alpha_beta_pruning(
                        board,
                        depth + 1,
                        &mut child_alpha,
                        &mut child_beta,
                        !maximizing,
                        cache,
                    );
                    board.undo_move(row, col);
                    assert(board@ =~= g0);
                    proof {
                        lemma_added_chain(cache0, mb, cache.map@, g0, c);
                        if sound0 {
                            lemma_sound_widen(mb, cache.map@, base, parity, g0, c);
                        }
                    }
                    let ghost prev = best;
                    if maximizing {
                        if v > best {
                            best = v;
                        }
                        if best > *alpha {
                            *alpha = best;
                        }
                    } else {
                        if v < best {
                            best = v;
                        }
                        if best < *beta {
                            *beta = best;
                        }
                    }
                    proof {
                        lemma_children_unfold(g0, depth as int, maximizing, i + 1);
                        if sound0 {
                            let exact = minimax_value(c, depth + 1, !maximizing);
                            let folded = children_value(g0, depth as int, maximizing, i as int);
                            if maximizing {
                                lemma_max_step(a0 as int, b0 as int, prev as int, folded, v as int, exact);
                            } else {
                                lemma_min_step(a0 as int, b0 as int, prev as int, folded, v as int, exact);
                            }
                        }
                    }
                    if *beta <= *alpha {
                        proof {
                            if sound0 {
                                lemma_children_monotone(g0, depth as int, maximizing, i + 1, 9);
                            }
                        }
                        break;
                    }
                } else {
                    proof { lemma_children_unfold(g0, depth as int, maximizing, i + 1); }
                }
                i += 1;
            }
            best
        },
    };
    let exact = match state {
        GameState::Ongoing => a0 < score && score < b0,
        _ => true,
    };
    if exact {
        proof {
            lemma_added_insert(cache0, cache.map@, g0, score);
            if sound0 {
                lemma_sound_insert(cache.map@, base, parity, g0, g0, score);
            }
        }
        cache.map.insert(h, score);
    }
    score
}

/// Picks the move of `player` on `board` by alpha-beta search: the window
/// starts as the widest one, once per call; each empty cell in row-major
/// order is tried and scored by `alpha_beta_pruning` at depth 0 in a copy of
/// the window, and the first move with the highest score (for `X`) or the
/// lowest (for `O`) is kept, after which `alpha` (for `X`) or `beta` (for
/// `O`) takes in the best score. The board comes back as it was, and no
/// entry already cached changes. Where the cache is sound for this search
/// (an empty cache is, and so is one with no entry for a board reachable
/// from `board`), the move is the one exhaustive minimax picks,
/// `optimal_move`, and the cache stays sound.
pub fn best_alpha_beta_move(board: &mut Board, player: &Player, cache: &mut AlphaBetaCache) -> (r: (
    usize,
    usize,
))
    requires
        empties(old(board)@) >= 1,
    ensures
        final(board)@ == old(board)@,
        r.0 < 3,
        r.1 < 3,
        old(board)@[cell_index(r.0 as int, r.1 as int)] is None,
        keeps(old(cache).map@, final(cache).map@),
        minimax_sound(old(cache).map@, root_base(old(board)@), root_parity(old(board)@, *player), old(board)@)
            ==> {
            &&& r == optimal_move(old(board)@, *player)
            &&& minimax_sound(
                final(cache).map@,
                root_base(old(board)@),
                root_parity(old(board)@, *player),
                old(board)@,
            )
        },
{
    let ghost g0 = board@;
    let ghost base = root_base(g0);
    let ghost parity = root_parity(g0, *player);
    let ghost sound0 = minimax_sound(cache.map@, base, parity, g0);
    let ghost cache0 = cache.map@;
    proof { board.lemma_len(); }
    let mut alpha: i32 = i32::MIN;
    let mut beta: i32 = i32::MAX;
    let mut best: Option<(usize, i32)> = None;
    let mut i: usize = 0;
    while i < 9
        invariant
            i <= 9,
            board@ == g0,
            g0.len() == 9,
            empties(g0) >= 1,
            base == root_base(g0),
            parity == root_parity(g0, *player),
            sound0 ==> minimax_sound(cache.map@, base, parity, g0),
            keeps(cache0, cache.map@),
            sound0 ==> choice_view(best) == choice_upto(g0, *player, i as int),
            *player == Player::X ==> beta == i32::MAX && alpha == match best {
                Some((_, s)) => s,
                None => i32::MIN,
            },
            *player == Player::O ==> alpha == i32::MIN && beta == match best {
                Some((_, s)) => s,
                None => i32::MAX,
            },
            best matches Some((j, s)) ==> j < i && g0[j as int] is None,
            sound0 ==> (best matches Some((j, s)) ==> -10 <= s <= 10),
            best is None ==> forall|k: int| 0 <= k < i ==> (#[trigger] g0[k]) is Some,
        decreases 9 - i,
    {
        let row = i / 3;
        let col = i % 3;
        assert(3 * row + col == i);
        if board.make_move(row, col, player) {
            let ghost c = board@;
            proof {
                lemma_empties_fill(g0, i as int, Some(*player));
                lemma_minimax_range(c, 0, *player == Player::O);
            }
            assert(extends(c, g0));
            let ghost mb = cache.map@;
            proof {
                if sound0 {
                    lemma_sound_narrow(mb, base, parity, g0, c);
                }
            }
            let mut child_alpha = alpha;
            let mut child_beta = beta;
            let score = alpha_beta_pruning(
                board,
                0,
                &mut child_alpha,
                &mut child_beta,
                *player == Player::O,
                cache,
            );
            board.undo_move(row, col);
            assert(board@ =~= g0);
            proof {
                if sound0 {
                    lemma_sound_widen(mb, cache.map@, base, parity, g0, c);
                }
            }
            let better = match best {
                None => true,
                Some((_, b)) => match player {
                    Player::X => score > b,
                    Player::O => score < b,
                },
            };
            if better {
                best = Some((i, score));
            }
            match player {
                Player::X => if score > alpha {
                    alpha = score;
                },
                Player::O => if score < beta {
                    beta = score;
                },
            }
        }
        i += 1;
    }
    match best {
        Some((j, _)) => (j / 3, j % 3),
        None => {
            assert(empties(g0) == 0);
            (0, 0)
        },
    }
}

} // verus!
