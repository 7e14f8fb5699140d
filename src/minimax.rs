use vstd::prelude::*;
use crate::board::{
    added_within, cell_index, empties, extends, fingerprint, lemma_added_chain, lemma_added_insert,
    lemma_empties_fill, lemma_fingerprint_bounds, lemma_fingerprint_injective, lemma_ongoing_not_full,
    outcome, Board,
};
use crate::cache::MinimaxCache;
use crate::game_state::{GameState, Player};
use crate::search::{
    combine, improves, keeps, layer_of, move_of, mover, parity_of, terminal_score, worst,
};

verus! {

broadcast use vstd::std_specs::hash::group_hash_axioms;

/// Score of a win found at the search root; a win `d` plies deeper scores
/// `WIN_BIAS - d`. It exceeds the deepest ply, so wins, draws and losses
/// never overlap.
pub const WIN_BIAS: i32 = 10;

/// The minimax value of board `g` reached `depth` plies below the search
/// root, with `X` to move when `maximizing`: a finished game scores by
/// `terminal_score`, an ongoing one takes the best child for the side to move.
#[verifier::opaque]
pub open spec fn minimax_value(g: Seq<Option<Player>>, depth: int, maximizing: bool) -> int
    decreases empties(g) * 10 + 10,
{
    if g.len() != 9 {
        0
    } else {
        match outcome(g) {
            GameState::Ongoing => children_value(g, depth, maximizing, 9),
            s => terminal_score(s, depth, WIN_BIAS as int),
        }
    }
}

/// The best value for the side to move over the children that fill one of
/// the first `n` cells, folded in row-major order from `worst(maximizing)`.
#[verifier::opaque]
pub open spec fn children_value(g: Seq<Option<Player>>, depth: int, maximizing: bool, n: int) -> int
    decreases empties(g) * 10 + n,
{
    if n <= 0 || 9 < n || g.len() != 9 {
        worst(maximizing)
    } else if g[n - 1] is None {
        combine(
            maximizing,
            children_value(g, depth, maximizing, n - 1),
            minimax_value(g.update(n - 1, Some(mover(maximizing))), depth + 1, !maximizing),
        )
    } else {
        children_value(g, depth, maximizing, n - 1)
    }
}

/// Every entry of `m` stored under the fingerprint of a board that extends
/// `root` holds that board's minimax value in a search whose boards with `e`
/// empty cells sit `base - e` plies deep and are maximizing per
/// `layer_of(parity, e)`. Entries for boards the search cannot reach are
/// not looked at.
pub open spec fn minimax_sound(m: Map<u64, i32>, base: int, parity: bool, root: Seq<Option<Player>>) -> bool {
    forall|g: Seq<Option<Player>>|
        g.len() == 9 && extends(g, root) && #[trigger] m.contains_key(fingerprint(g) as u64)
            ==> m[fingerprint(g) as u64] == minimax_value(g, base - empties(g), layer_of(parity, empties(g)))
}

/// A cache sound for a search from `root` is sound for one from a board
/// that extends it.
pub(crate) proof fn lemma_sound_narrow(
    m: Map<u64, i32>,
    base: int,
    parity: bool,
    root: Seq<Option<Player>>,
    c: Seq<Option<Player>>,
)
    requires
        minimax_sound(m, base, parity, root),
        extends(c, root),
    ensures
        minimax_sound(m, base, parity, c),
{
    assert forall|g: Seq<Option<Player>>|
        g.len() == 9 && extends(g, c) && #[trigger] m.contains_key(fingerprint(g) as u64) implies m[fingerprint(
            g,
        ) as u64] == minimax_value(g, base - empties(g), layer_of(parity, empties(g))) by {
        assert forall|i: int| 0 <= i < 9 && (#[trigger] root[i]) is Some implies g[i] == root[i] by {
            assert(c[i] == root[i]);
        }
    }
}

/// After a search from `c`, which extends `root`, kept the old entries and
/// added only entries within `c`, sound for `c`, the cache is sound for
/// `root` again.
pub(crate) proof fn lemma_sound_widen(
    before: Map<u64, i32>,
    after: Map<u64, i32>,
    base: int,
    parity: bool,
    root: Seq<Option<Player>>,
    c: Seq<Option<Player>>,
)
    requires
        minimax_sound(before, base, parity, root),
        minimax_sound(after, base, parity, c),
        keeps(before, after),
        added_within(before, after, c),
    ensures
        minimax_sound(after, base, parity, root),
{
    assert forall|g: Seq<Option<Player>>|
        g.len() == 9 && extends(g, root) && #[trigger] after.contains_key(fingerprint(g) as u64) implies after[fingerprint(
            g,
        ) as u64] == minimax_value(g, base - empties(g), layer_of(parity, empties(g))) by {
        if before.contains_key(fingerprint(g) as u64) {
            assert(after[fingerprint(g) as u64] == before[fingerprint(g) as u64]);
        } else {
            assert(extends(g, c));
        }
    }
}

/// The score of the move of `p` on empty cell `i`, as `best_move` sees it.
pub open spec fn move_score(g: Seq<Option<Player>>, p: Player, i: int) -> int {
    minimax_value(g.update(i, Some(p)), 0, p == Player::O)
}

/// The best of the moves on the first `n` cells for `p`, as (cell, score):
/// the first move seen with the highest score for `X`, the lowest for `O`.
pub open spec fn choice_upto(g: Seq<Option<Player>>, p: Player, n: int) -> Option<(int, int)>
    decreases n,
{
    if n <= 0 {
        None
    } else {
        let prev = choice_upto(g, p, n - 1);
        if g[n - 1] is None {
            let s = move_score(g, p, n - 1);
            match prev {
                None => Some((n - 1, s)),
                Some((j, b)) => if improves(p, s, b) {
                    Some((n - 1, s))
                } else {
                    prev
                },
            }
        } else {
            prev
        }
    }
}

/// The move that exhaustive minimax picks for `p` on `g`.
pub open spec fn optimal_move(g: Seq<Option<Player>>, p: Player) -> (usize, usize) {
    move_of(choice_upto(g, p, 9).unwrap().0)
}

/// The search frame of a `best_move` call for `p` on `g`: its children sit
/// at depth 0, so a board with `e` empty cells sits `empties(g) - 1 - e` deep.
pub open spec fn root_base(g: Seq<Option<Player>>) -> int {
    empties(g) - 1
}

/// The parity of a `best_move` search for `p` on `g`.
pub open spec fn root_parity(g: Seq<Option<Player>>, p: Player) -> bool {
    parity_of(empties(g) - 1, p == Player::O)
}

/// One step of `minimax_value`.
pub proof fn lemma_minimax_unfold(g: Seq<Option<Player>>, depth: int, maximizing: bool)
    requires
        g.len() == 9,
    ensures
        outcome(g) == GameState::Ongoing ==> minimax_value(g, depth, maximizing) == children_value(
            g,
            depth,
            maximizing,
            9,
        ),
        outcome(g) != GameState::Ongoing ==> minimax_value(g, depth, maximizing) == terminal_score(
            outcome(g),
            depth,
            WIN_BIAS as int,
        ),
{
    reveal_with_fuel(minimax_value, 2);
    reveal_with_fuel(children_value, 2);
}

/// One step of `children_value`.
pub proof fn lemma_children_unfold(g: Seq<Option<Player>>, depth: int, maximizing: bool, n: int)
    requires
        g.len() == 9,
    ensures
        n <= 0 ==> children_value(g, depth, maximizing, n) == worst(maximizing),
        1 <= n <= 9 ==> children_value(g, depth, maximizing, n) == if g[n - 1] is None {
            combine(
                maximizing,
                children_value(g, depth, maximizing, n - 1),
                minimax_value(g.update(n - 1, Some(mover(maximizing))), depth + 1, !maximizing),
            )
        } else {
            children_value(g, depth, maximizing, n - 1)
        },
{
    reveal_with_fuel(children_value, 2);
    reveal_with_fuel(minimax_value, 2);
}

/// A minimax value `depth` plies deep lies in `depth - WIN_BIAS ..= WIN_BIAS - depth`:
/// no result is better than a win right there, or worse than a loss.
pub proof fn lemma_minimax_range(g: Seq<Option<Player>>, depth: int, maximizing: bool)
    requires
        g.len() == 9,
        0 <= depth,
        depth + empties(g) <= 9,
    ensures
        -10 <= minimax_value(g, depth, maximizing) <= 10,
        depth - 10 <= minimax_value(g, depth, maximizing) <= 10 - depth,
    decreases empties(g) * 10 + 10,
{
    lemma_minimax_unfold(g, depth, maximizing);
    if outcome(g) == GameState::Ongoing {
        lemma_ongoing_not_full(g);
        lemma_children_range(g, depth, maximizing, 9);
    }
}

proof fn lemma_children_range(g: Seq<Option<Player>>, depth: int, maximizing: bool, n: int)
    requires
        g.len() == 9,
        0 <= depth,
        depth + empties(g) <= 9,
        0 <= n <= 9,
    ensures
        (exists|j: int| 0 <= j < n && (#[trigger] g[j]) is None) ==> depth + 1 - 10
            <= children_value(g, depth, maximizing, n) <= 10 - depth - 1,
        (forall|j: int| 0 <= j < n ==> (#[trigger] g[j]) is Some) ==> children_value(
            g,
            depth,
            maximizing,
            n,
        ) == worst(maximizing),
    decreases empties(g) * 10 + n,
{
    lemma_children_unfold(g, depth, maximizing, n);
    if n > 0 {
        lemma_children_range(g, depth, maximizing, n - 1);
        if g[n - 1] is None {
            let c = g.update(n - 1, Some(mover(maximizing)));
            lemma_empties_fill(g, n - 1, Some(mover(maximizing)));
            lemma_minimax_range(c, depth + 1, !maximizing);
        }
    }
}

/// Storing a board's own value keeps a sound cache sound.
pub(crate) proof fn lemma_sound_insert(
    m: Map<u64, i32>,
    base: int,
    parity: bool,
    root: Seq<Option<Player>>,
    g0: Seq<Option<Player>>,
    v: i32,
)
    requires
        minimax_sound(m, base, parity, root),
        g0.len() == 9,
        v == minimax_value(g0, base - empties(g0), layer_of(parity, empties(g0))),
    ensures
        minimax_sound(m.insert(fingerprint(g0) as u64, v), base, parity, root),
{
    let m2 = m.insert(fingerprint(g0) as u64, v);
    assert forall|g: Seq<Option<Player>>|
        g.len() == 9 && extends(g, root) && #[trigger] m2.contains_key(fingerprint(g) as u64) implies m2[fingerprint(g) as u64]
            == minimax_value(g, base - empties(g), layer_of(parity, empties(g))) by {
        lemma_fingerprint_bounds(g);
        lemma_fingerprint_bounds(g0);
        if fingerprint(g) as u64 == fingerprint(g0) as u64 {
            lemma_fingerprint_injective(g, g0);
        } else {
            assert(m.contains_key(fingerprint(g) as u64));
        }
    }
}

/// Scores `board` by exhaustive minimax, `depth` plies below the search root,
/// with `X` to move when `maximizing`. A board whose fingerprint is in the
/// cache takes the cached score and leaves the cache as it was; otherwise a
/// finished game scores by `terminal_score`, and the score is stored under
/// the board's fingerprint. No entry already cached changes. The board
/// comes back as it was. Where the cache is sound for this search, the
/// score is the minimax value and the cache stays sound.
#[verifier::rlimit(100)]
pub fn minimax(board: &mut Board, depth: i32, maximizing: bool, cache: &mut MinimaxCache) -> (r: i32)
    requires
        0 <= depth,
        depth + empties(old(board)@) <= 9,
    ensures
        final(board)@ == old(board)@,
        keeps(old(cache).map@, final(cache).map@),
        old(cache).map@.contains_key(fingerprint(old(board)@) as u64) ==> {
            &&& r == old(cache).map@[fingerprint(old(board)@) as u64]
            &&& final(cache).map@ == old(cache).map@
        },
        !old(cache).map@.contains_key(fingerprint(old(board)@) as u64) ==> {
            &&& final(cache).map@.contains_key(fingerprint(old(board)@) as u64)
            &&& final(cache).map@[fingerprint(old(board)@) as u64] == r
            &&& outcome(old(board)@) != GameState::Ongoing ==> r == terminal_score(
                outcome(old(board)@),
                depth as int,
                WIN_BIAS as int,
            )
        },
        added_within(old(cache).map@, final(cache).map@, old(board)@),
        minimax_sound(
            old(cache).map@,
            depth + empties(old(board)@),
            parity_of(empties(old(board)@), maximizing),
            old(board)@,
        ) ==> {
            &&& r == minimax_value(old(board)@, depth as int, maximizing)
            &&& minimax_sound(
                final(cache).map@,
                depth + empties(old(board)@),
                parity_of(empties(old(board)@), maximizing),
                old(board)@,
            )
        },
    decreases empties(board@),
{
    let ghost g0 = board@;
    let ghost base = depth + empties(g0);
    let ghost parity = parity_of(empties(g0), maximizing);
    let ghost sound0 = minimax_sound(cache.map@, base, parity, g0);
    let ghost cache0 = cache.map@;
    proof {
        board.lemma_len();
        lemma_fingerprint_bounds(g0);
        assert(extends(g0, g0));
    }
    let h = board.hash_state();
    if let Some(v) = cache.map.get(&h) {
        proof {
            if sound0 {
                assert(cache.map@.contains_key(fingerprint(g0) as u64));
            }
        }
        return *v;
    }
    proof { lemma_minimax_unfold(g0, depth as int, maximizing); }
    let score = match board.get_winner() {
        GameState::Win(Player::X) => WIN_BIAS - depth,
        GameState::Win(Player::O) => depth - WIN_BIAS,
        GameState::Draw => 0,
        GameState::Ongoing => {
            let player = if maximizing {
                Player::X
            } else {
                Player::O
            };
            let mut best: i32 = if maximizing {
                i32::MIN
            } else {
                i32::MAX
            };
            let mut i: usize = 0;
            proof { lemma_children_unfold(g0, depth as int, maximizing, 0); }
            while i < 9
                invariant
                    i <= 9,
                    board@ == g0,
                    old(board)@ == g0,
                    g0.len() == 9,
                    0 <= depth,
                    depth + empties(g0) <= 9,
                    base == depth + empties(g0),
                    parity == parity_of(empties(g0), maximizing),
                    player == mover(maximizing),
                    sound0 ==> minimax_sound(cache.map@, base, parity, g0),
                    sound0 ==> best == children_value(g0, depth as int, maximizing, i as int),
                    keeps(cache0, cache.map@),
                    added_within(cache0, cache.map@, g0),
                    !cache0.contains_key(h),
                decreases 9 - i,
            {
                let row = i / 3;
                let col = i % 3;
                assert(3 * row + col == i);
                if board.make_move(row, col, &player) {
                    let ghost c = board@;
                    assert(c == g0.update(i as int, Some(mover(maximizing))));
                    proof { lemma_empties_fill(g0, i as int, Some(mover(maximizing))); }
                    assert(depth + 1 + empties(c) == base);
                    assert(parity_of(empties(c), !maximizing) == parity);
                    assert(extends(c, g0));
                    let ghost mb = cache.map@;
                    proof {
                        if sound0 {
                            lemma_sound_narrow(mb, base, parity, g0, c);
                        }
                    }
                    let v = minimax(board, depth + 1, !maximizing, cache);
                    board.undo_move(row, col);
                    assert(board@ =~= g0);
                    proof {
                        lemma_added_chain(cache0, mb, cache.map@, g0, c);
                        if sound0 {
                            lemma_sound_widen(mb, cache.map@, base, parity, g0, c);
                            assert(v == minimax_value(c, depth + 1, !maximizing));
                            lemma_children_unfold(g0, depth as int, maximizing, i + 1);
                            assert(children_value(g0, depth as int, maximizing, i + 1) == combine(
                                maximizing,
                                children_value(g0, depth as int, maximizing, i as int),
                                v as int,
                            ));
                        }
                    }
                    if maximizing {
                        if v > best {
                            best = v;
                        }
                    } else {
                        if v < best {
                            best = v;
                        }
                    }
                } else {
                    proof { lemma_children_unfold(g0, depth as int, maximizing, i + 1); }
                }
                i += 1;
            }
            best
        },
    };
    proof {
        lemma_added_insert(cache0, cache.map@, g0, score);
        if sound0 {
            lemma_sound_insert(cache.map@, base, parity, g0, g0, score);
        }
    }
    cache.map.insert(h, score);
    score
}

/// The chosen move and its score as an optional `(cell, score)` pair.
pub open spec fn choice_view(c: Option<(usize, i32)>) -> Option<(int, int)> {
    match c {
        Some((j, s)) => Some((j as int, s as int)),
        None => None,
    }
}

/// Picks the move of `player` on `board` by exhaustive minimax: each empty
/// cell in row-major order is tried, the position after it scored by
/// `minimax` at depth 0, and the first move with the highest score (for
/// `X`) or the lowest (for `O`) is kept. The board comes back as it was,
/// and no entry already cached changes. Where the cache is sound for this
/// search (an empty cache is), the move is `optimal_move` and the cache
/// stays sound.
pub fn best_move(board: &mut Board, player: Player, cache: &mut MinimaxCache) -> (r: (usize, usize))
    requires
        empties(old(board)@) >= 1,
    ensures
        final(board)@ == old(board)@,
        r.0 < 3,
        r.1 < 3,
        old(board)@[cell_index(r.0 as int, r.1 as int)] is None,
        keeps(old(cache).map@, final(cache).map@),
        minimax_sound(old(cache).map@, root_base(old(board)@), root_parity(old(board)@, player), old(board)@)
            ==> {
            &&& r == optimal_move(old(board)@, player)
            &&& minimax_sound(
                final(cache).map@,
                root_base(old(board)@),
                root_parity(old(board)@, player),
                old(board)@,
            )
        },
{
    let ghost g0 = board@;
    let ghost base = root_base(g0);
    let ghost parity = root_parity(g0, player);
    let ghost sound0 = minimax_sound(cache.map@, base, parity, g0);
    let ghost cache0 = cache.map@;
    proof { board.lemma_len(); }
    let mut best: Option<(usize, i32)> = None;
    let mut i: usize = 0;
    while i < 9
        invariant
            i <= 9,
            board@ == g0,
            g0.len() == 9,
            empties(g0) >= 1,
            base == root_base(g0),
            parity == root_parity(g0, player),
            sound0 ==> minimax_sound(cache.map@, base, parity, g0),
            keeps(cache0, cache.map@),
            sound0 ==> choice_view(best) == choice_upto(g0, player, i as int),
            best matches Some((j, s)) ==> j < i && g0[j as int] is None,
            best is None ==> forall|k: int| 0 <= k < i ==> (#[trigger] g0[k]) is Some,
        decreases 9 - i,
    {
        let row = i / 3;
        let col = i % 3;
        assert(3 * row + col == i);
        if board.make_move(row, col, &player) {
            let ghost c = board@;
            proof { lemma_empties_fill(g0, i as int, Some(player)); }
            assert(extends(c, g0));
            let ghost mb = cache.map@;
            proof {
                if sound0 {
                    lemma_sound_narrow(mb, base, parity, g0, c);
                }
            }
            let score = minimax(board, 0, player == Player::O, cache);
            board.undo_move(row, col);
            assert(board@ =~= g0);
            proof {
                if sound0 {
                    lemma_sound_widen(mb, cache.map@, base, parity, g0, c);
                }
            }
            let better = match best {
                None => true,
                Some((_, b)) => match player {
                    Player::X => score > b,
                    Player::O => score < b,
                },
            };
            if better {
                best = Some((i, score));
            }
        }
        i += 1;
    }
    match best {
        Some((j, _)) => (j / 3, j % 3),
        None => {
            assert(empties(g0) == 0);
            (0, 0)
        },
    }
}

/// Over more cells the fold only gets better for the side to move.
pub(crate) proof fn lemma_children_monotone(
    g: Seq<Option<Player>>,
    depth: int,
    maximizing: bool,
    n1: int,
    n2: int,
)
    requires
        g.len() == 9,
        0 <= n1 <= n2 <= 9,
    ensures
        maximizing ==> children_value(g, depth, maximizing, n1) <= children_value(g, depth, maximizing, n2),
        !maximizing ==> children_value(g, depth, maximizing, n1) >= children_value(g, depth, maximizing, n2),
    decreases n2 - n1,
{
    if n1 < n2 {
        lemma_children_monotone(g, depth, maximizing, n1, n2 - 1);
        lemma_children_unfold(g, depth, maximizing, n2);
    }
}

/// A cache with no entry is sound for every search: a fresh cache and one
/// warmed by an earlier search from the same board (which `best_move` keeps
/// sound) both lead `best_move` to `optimal_move`.
pub proof fn lemma_fresh_cache_sound(base: int, parity: bool, root: Seq<Option<Player>>)
    ensures
        minimax_sound(Map::<u64, i32>::empty(), base, parity, root),
{
}

/// A cache holding no entry for any board that play from `root` can reach
/// is sound for a search from `root`, whatever it holds for other boards.
pub proof fn lemma_untouched_cache_sound(m: Map<u64, i32>, base: int, parity: bool, root: Seq<Option<Player>>)
    requires
        forall|g: Seq<Option<Player>>|
            g.len() == 9 && extends(g, root) ==> !(#[trigger] m.contains_key(fingerprint(g) as u64)),
    ensures
        minimax_sound(m, base, parity, root),
{
}

/// With `X` to move and a cell that wins at once, the minimax value at depth
/// 0 is `WIN_BIAS - 1`; with `O` to move and such a cell, `1 - WIN_BIAS`.
pub proof fn lemma_one_move_from_win(g: Seq<Option<Player>>, i: int)
    requires
        g.len() == 9,
        outcome(g) == GameState::Ongoing,
        0 <= i < 9,
        g[i] is None,
    ensures
        outcome(g.update(i, Some(Player::X))) == GameState::Win(Player::X) ==> minimax_value(g, 0, true)
            == WIN_BIAS - 1,
        outcome(g.update(i, Some(Player::O))) == GameState::Win(Player::O) ==> minimax_value(g, 0, false)
            == 1 - WIN_BIAS,
{
    lemma_empties_fill(g, i, Some(Player::X));
    lemma_minimax_unfold(g, 0, true);
    lemma_minimax_unfold(g, 0, false);
    lemma_children_range(g, 0, true, 9);
    lemma_children_range(g, 0, false, 9);
    lemma_children_unfold(g, 0, true, i + 1);
    lemma_children_unfold(g, 0, false, i + 1);
    lemma_children_monotone(g, 0, true, i + 1, 9);
    lemma_children_monotone(g, 0, false, i + 1, 9);
    lemma_minimax_unfold(g.update(i, Some(Player::X)), 1, false);
    lemma_minimax_unfold(g.update(i, Some(Player::O)), 1, true);
}

/// A drawn board scores 0 at any depth.
pub proof fn lemma_draw_scores_zero(g: Seq<Option<Player>>, depth: int, maximizing: bool)
    requires
        g.len() == 9,
        outcome(g) == GameState::Draw,
    ensures
        minimax_value(g, depth, maximizing) == 0,
{
    lemma_minimax_unfold(g, depth, maximizing);
}

} // verus!
