use vstd::prelude::*;
use crate::board::{
    added_within, cell_index, empties, extends, fingerprint, lemma_added_chain, lemma_added_insert,
    lemma_empties_fill, lemma_fingerprint_bounds, lemma_fingerprint_injective, lemma_ongoing_not_full,
    outcome, Board,
};
use crate::cache::{WeightedCache, WeightedStateEvaluation};
use crate::minimax::{choice_view, root_base, root_parity};
use crate::game_state::{GameState, Player};
use crate::search::{
    combine, improves, keeps, layer_of, move_of, mover, parity_of, terminal_score, worst,
};

verus! {

broadcast use vstd::std_specs::hash::group_hash_axioms;

/// Score of a win found at the root of a weighted search; it outweighs any
/// sum of position bonuses along a game.
pub const WEIGHTED_WIN_BIAS: i32 = 10_000;

/// The factor that turns a cell weight into a score bonus.
pub const WEIGHT_SCALE: i32 = 100;

/// The strategic weight of cell `i`: 5 for the center, 3 for a corner, 2 for
/// an edge.
pub open spec fn cell_weight(i: int) -> int {
    if i == 4 {
        5
    } else if i == 0 || i == 2 || i == 6 || i == 8 {
        3
    } else {
        2
    }
}

/// The bonus for a move on cell `i`, added to the score of that move
/// whichever side makes it.
pub open spec fn bonus(i: int) -> int {
    cell_weight(i) * WEIGHT_SCALE
}

/// The weight of each cell of `g` that is empty, 0 for a taken one.
#[verifier::opaque]
pub open spec fn weights_of(g: Seq<Option<Player>>) -> Seq<i32> {
    Seq::new(9, |i: int| (if g[i] is None { cell_weight(i) } else { 0 }) as i32)
}

/// The cells of `weights_of`.
pub proof fn lemma_weights_of(g: Seq<Option<Player>>)
    ensures
        weights_of(g).len() == 9,
        forall|i: int|
            0 <= i < 9 ==> #[trigger] weights_of(g)[i] == (if g[i] is None {
                cell_weight(i)
            } else {
                0
            }) as i32,
{
    reveal(weights_of);
}

/// The weighted minimax value of `g`, `depth` plies below the root, `X` to
/// move when `maximizing`: a finished game scores by `terminal_score` with
/// `WEIGHTED_WIN_BIAS`; an ongoing one takes the best over its children of
/// the child's value plus the bonus of the cell played.
#[verifier::opaque]
pub open spec fn weighted_value(g: Seq<Option<Player>>, depth: int, maximizing: bool) -> int
    decreases empties(g) * 10 + 10,
{
    if g.len() != 9 {
        0
    } else {
        match outcome(g) {
            GameState::Ongoing => weighted_children(g, depth, maximizing, 9),
            s => terminal_score(s, depth, WEIGHTED_WIN_BIAS as int),
        }
    }
}

/// The fold of `weighted_value` over the children on the first `n` cells.
#[verifier::opaque]
pub open spec fn weighted_children(g: Seq<Option<Player>>, depth: int, maximizing: bool, n: int) -> int
    decreases empties(g) * 10 + n,
{
    if n <= 0 || 9 < n || g.len() != 9 {
        worst(maximizing)
    } else if g[n - 1] is None {
        combine(
            maximizing,
            weighted_children(g, depth, maximizing, n - 1),
            weighted_value(g.update(n - 1, Some(mover(maximizing))), depth + 1, !maximizing) + bonus(n - 1),
        )
    } else {
        weighted_children(g, depth, maximizing, n - 1)
    }
}

/// One step of `weighted_value`.
pub proof fn lemma_weighted_unfold(g: Seq<Option<Player>>, depth: int, maximizing: bool)
    requires
        g.len() == 9,
    ensures
        outcome(g) == GameState::Ongoing ==> weighted_value(g, depth, maximizing) == weighted_children(
            g,
            depth,
            maximizing,
            9,
        ),
        outcome(g) != GameState::Ongoing ==> weighted_value(g, depth, maximizing) == terminal_score(
            outcome(g),
            depth,
            WEIGHTED_WIN_BIAS as int,
        ),
{
    reveal_with_fuel(weighted_value, 2);
    reveal_with_fuel(weighted_children, 2);
}

/// One step of `weighted_children`.
pub proof fn lemma_weighted_children_unfold(g: Seq<Option<Player>>, depth: int, maximizing: bool, n: int)
    requires
        g.len() == 9,
    ensures
        n <= 0 ==> weighted_children(g, depth, maximizing, n) == worst(maximizing),
        1 <= n <= 9 ==> weighted_children(g, depth, maximizing, n) == if g[n - 1] is None {
            combine(
                maximizing,
                weighted_children(g, depth, maximizing, n - 1),
                weighted_value(g.update(n - 1, Some(mover(maximizing))), depth + 1, !maximizing)
                    + bonus(n - 1),
            )
        } else {
            weighted_children(g, depth, maximizing, n - 1)
        },
{
    reveal_with_fuel(weighted_children, 2);
    reveal_with_fuel(weighted_value, 2);
}

/// Weighted values within the plies of one game stay within the win bias
/// plus the largest bonus for each empty cell.
pub proof fn lemma_weighted_range(g: Seq<Option<Player>>, depth: int, maximizing: bool)
    requires
        g.len() == 9,
        0 <= depth,
        depth + empties(g) <= 9,
    ensures
        -(10_000 + 500 * empties(g)) <= weighted_value(g, depth, maximizing) <= 10_000 + 500 * empties(g),
    decreases empties(g) * 10 + 10,
{
    lemma_weighted_unfold(g, depth, maximizing);
    if outcome(g) == GameState::Ongoing {
        lemma_ongoing_not_full(g);
        lemma_weighted_children_range(g, depth, maximizing, 9);
    }
}

proof fn lemma_weighted_children_range(g: Seq<Option<Player>>, depth: int, maximizing: bool, n: int)
    requires
        g.len() == 9,
        0 <= depth,
        depth + empties(g) <= 9,
        0 <= n <= 9,
    ensures
        (exists|j: int| 0 <= j < n && (#[trigger] g[j]) is None) ==> -(10_000 + 500 * empties(g))
            <= weighted_children(g, depth, maximizing, n) <= 10_000 + 500 * empties(g),
        (forall|j: int| 0 <= j < n ==> (#[trigger] g[j]) is Some) ==> weighted_children(
            g,
            depth,
            maximizing,
            n,
        ) == worst(maximizing),
    decreases empties(g) * 10 + n,
{
    lemma_weighted_children_unfold(g, depth, maximizing, n);
    if n > 0 {
        lemma_weighted_children_range(g, depth, maximizing, n - 1);
        if g[n - 1] is None {
            let c = g.update(n - 1, Some(mover(maximizing)));
            lemma_empties_fill(g, n - 1, Some(mover(maximizing)));
            lemma_weighted_range(c, depth + 1, !maximizing);
        }
    }
}

/// The entry of `m` for board `g` holds `g`'s weighted value in the search
/// frame `(base, parity)` (see `minimax_sound`) and the weights of its
/// empty cells.
pub open spec fn weighted_entry_ok(m: Map<u64, WeightedStateEvaluation>, base: int, parity: bool, g: Seq<Option<Player>>) -> bool {
    &&& m[fingerprint(g) as u64].score == weighted_value(g, base - empties(g), layer_of(parity, empties(g)))
    &&& m[fingerprint(g) as u64].weights@ == weights_of(g)
}

/// Every entry of `m` stored under the fingerprint of a board that extends
/// `root` is right for a search from `root` (see `weighted_entry_ok`).
pub open spec fn weighted_sound(
    m: Map<u64, WeightedStateEvaluation>,
    base: int,
    parity: bool,
    root: Seq<Option<Player>>,
) -> bool {
    forall|g: Seq<Option<Player>>|
        g.len() == 9 && extends(g, root) && #[trigger] m.contains_key(fingerprint(g) as u64)
            ==> weighted_entry_ok(m, base, parity, g)
}

proof fn lemma_weighted_sound_insert(
    m: Map<u64, WeightedStateEvaluation>,
    base: int,
    parity: bool,
    root: Seq<Option<Player>>,
    g0: Seq<Option<Player>>,
    e: WeightedStateEvaluation,
)
    requires
        weighted_sound(m, base, parity, root),
        g0.len() == 9,
        e.score == weighted_value(g0, base - empties(g0), layer_of(parity, empties(g0))),
        e.weights@ == weights_of(g0),
    ensures
        weighted_sound(m.insert(fingerprint(g0) as u64, e), base, parity, root),
{
    let m2 = m.insert(fingerprint(g0) as u64, e);
    assert forall|g: Seq<Option<Player>>|
        g.len() == 9 && extends(g, root) && #[trigger] m2.contains_key(fingerprint(g) as u64) implies weighted_entry_ok(
        m2,
        base,
        parity,
        g,
    ) by {
        lemma_fingerprint_bounds(g);
        lemma_fingerprint_bounds(g0);
        if fingerprint(g) as u64 == fingerprint(g0) as u64 {
            lemma_fingerprint_injective(g, g0);
        } else {
            assert(m.contains_key(fingerprint(g) as u64));
        }
    }
}

proof fn lemma_weighted_sound_narrow(
    m: Map<u64, WeightedStateEvaluation>,
    base: int,
    parity: bool,
    root: Seq<Option<Player>>,
    c: Seq<Option<Player>>,
)
    requires
        weighted_sound(m, base, parity, root),
        extends(c, root),
    ensures
        weighted_sound(m, base, parity, c),
{
    assert forall|g: Seq<Option<Player>>|
        g.len() == 9 && extends(g, c) && #[trigger] m.contains_key(fingerprint(g) as u64) implies weighted_entry_ok(
        m,
        base,
        parity,
        g,
    ) by {
        assert forall|i: int| 0 <= i < 9 && (#[trigger] root[i]) is Some implies g[i] == root[i] by {
            assert(c[i] == root[i]);
        }
    }
}

proof fn lemma_weighted_sound_widen(
    before: Map<u64, WeightedStateEvaluation>,
    after: Map<u64, WeightedStateEvaluation>,
    base: int,
    parity: bool,
    root: Seq<Option<Player>>,
    c: Seq<Option<Player>>,
)
    requires
        weighted_sound(before, base, parity, root),
        weighted_sound(after, base, parity, c),
        keeps(before, after),
        added_within(before, after, c),
    ensures
        weighted_sound(after, base, parity, root),
{
    assert forall|g: Seq<Option<Player>>|
        g.len() == 9 && extends(g, root) && #[trigger] after.contains_key(fingerprint(g) as u64) implies weighted_entry_ok(
        after,
        base,
        parity,
        g,
    ) by {
        if before.contains_key(fingerprint(g) as u64) {
            assert(after[fingerprint(g) as u64] == before[fingerprint(g) as u64]);
            assert(weighted_entry_ok(before, base, parity, g));
        } else {
            assert(extends(g, c));
        }
    }
}

/// The weight of cell `(row, col)`.
fn position_weight(row: usize, col: usize) -> (r: i32)
    requires
        row < 3,
        col < 3,
    ensures
        r == cell_weight(cell_index(row as int, col as int)),
{
    if row == 1 && col == 1 {
        5
    } else if row != 1 && col != 1 {
        3
    } else {
        2
    }
}

/// `score + bonus`, held at the bounds of `i32` where it would pass them.
fn add_bonus(score: i32, bonus: i32) -> (r: i32)
    requires
        -1000 <= bonus <= 1000,
    ensures
        i32::MIN <= score + bonus <= i32::MAX ==> r == score + bonus,
{
    if bonus > 0 && score > i32::MAX - bonus {
        i32::MAX
    } else if bonus < 0 && score < i32::MIN - bonus {
        i32::MIN
    } else {
        score + bonus
    }
}

/// The weight of each empty cell of `board`, row-major, 0 for a taken cell.
pub fn evaluate_weights(board: &Board) -> (r: Vec<i32>)
    ensures
        r@ == weights_of(board@),
{
    proof {
        board.lemma_len();
        lemma_weights_of(board@);
    }
    let mut flat: Vec<i32> = Vec::new();
    let mut i: usize = 0;
    while i < 9
        invariant
            i <= 9,
            board@.len() == 9,
            weights_of(board@).len() == 9,
            forall|k: int|
                0 <= k < 9 ==> #[trigger] weights_of(board@)[k] == (if board@[k] is None {
                    cell_weight(k)
                } else {
                    0
                }) as i32,
            flat@.len() == i,
            forall|k: int| 0 <= k < i ==> flat@[k] == (#[trigger] weights_of(board@)[k]),
        decreases 9 - i,
    {
        let w = if board.cell(i / 3, i % 3).is_none() {
            position_weight(i / 3, i % 3)
        } else {
            0
        };
        flat.push(w);
        i += 1;
    }
    assert(flat@ =~= weights_of(board@));
    flat
}

/// Scores `board` by weighted minimax, `depth` plies below the search root,
/// `X` to move when `maximizing`: like `minimax`, with a win worth
/// `WEIGHTED_WIN_BIAS` and each child's score raised by the bonus of the
/// cell played. A cached board takes the cached
/// score and leaves the cache as it was; otherwise a finished game scores
/// by `terminal_score`, and the board is stored with its score and the
/// weights of its empty cells. No entry already cached changes. The board
/// comes back as it was. Where the cache is
/// sound for this search, the score is `weighted_value` and the cache stays
/// sound.
#[verifier::rlimit(40)]
pub fn weighted_minimax(board: &mut Board, depth: i32, maximizing: bool, cache: &mut WeightedCache) -> (r: i32)
    requires
        0 <= depth,
        depth + empties(old(board)@) <= 9,
    ensures
        final(board)@ == old(board)@,
        keeps(old(cache).map@, final(cache).map@),
        old(cache).map@.contains_key(fingerprint(old(board)@) as u64) ==> {
            &&& r == old(cache).map@[fingerprint(old(board)@) as u64].score
            &&& final(cache).map@ == old(cache).map@
        },
        !old(cache).map@.contains_key(fingerprint(old(board)@) as u64) ==> {
            &&& final(cache).map@.contains_key(fingerprint(old(board)@) as u64)
            &&& final(cache).map@[fingerprint(old(board)@) as u64].score == r
            &&& final(cache).map@[fingerprint(old(board)@) as u64].weights@ == weights_of(old(board)@)
            &&& outcome(old(board)@) != GameState::Ongoing ==> r == terminal_score(
                outcome(old(board)@),
                depth as int,
                WEIGHTED_WIN_BIAS as int,
            )
        },
        added_within(old(cache).map@, final(cache).map@, old(board)@),
        weighted_sound(
            old(cache).map@,
            depth + empties(old(board)@),
            parity_of(empties(old(board)@), maximizing),
            old(board)@,
        ) ==> {
            &&& r == weighted_value(old(board)@, depth as int, maximizing)
            &&& weighted_sound(
                final(cache).map@,
                depth + empties(old(board)@),
                parity_of(empties(old(board)@), maximizing),
                old(board)@,
            )
        },
    decreases empties(board@),
{
    let ghost g0 = board@;
    let ghost base = depth + empties(g0);
    let ghost parity = parity_of(empties(g0), maximizing);
    let ghost sound0 = weighted_sound(cache.map@, base, parity, g0);
    let ghost cache0 = cache.map@;
    proof {
        board.lemma_len();
        lemma_fingerprint_bounds(g0);
        assert(extends(g0, g0));
    }
    let h = board.hash_state();
    if let Some(e) = cache.map.get(&h) {
        proof {
            if sound0 {
                assert(cache.map@.contains_key(fingerprint(g0) as u64));
            }
        }
        return e.score;
    }
    proof { lemma_weighted_unfold(g0, depth as int, maximizing); }
    let score = match board.get_winner() {
        GameState::Win(Player::X) => WEIGHTED_WIN_BIAS - depth,
        GameState::Win(Player::O) => depth - WEIGHTED_WIN_BIAS,
        GameState::Draw => 0,
        GameState::Ongoing => {
            let player = if maximizing {
                Player::X
            } else {
                Player::O
            };
            let mut best: i32 = if maximizing {
                i32::MIN
            } else {
                i32::MAX
            };
            let mut i: usize = 0;
            proof { lemma_weighted_children_unfold(g0, depth as int, maximizing, 0); }
            while i < 9
                invariant
                    i <= 9,
                    board@ == g0,
                    old(board)@ == g0,
                    g0.len() == 9,
                    0 <= depth,
                    depth + empties(g0) <= 9,
                    base == depth + empties(g0),
                    parity == parity_of(empties(g0), maximizing),
                    player == mover(maximizing),
                    sound0 ==> weighted_sound(cache.map@, base, parity, g0),
                    keeps(cache0, cache.map@),
                    added_within(cache0, cache.map@, g0),
                    !cache0.contains_key(h),
                    sound0 ==> best == weighted_children(g0, depth as int, maximizing, i as int),
                decreases 9 - i,
            {
                let row = i / 3;
                let col = i % 3;
                assert(3 * row + col == i);
                if board.make_move(row, col, &player) {
                    let ghost c = board@;
                    assert(c == g0.update(i as int, Some(mover(maximizing))));
                    proof {
                        lemma_empties_fill(g0, i as int, Some(mover(maximizing)));
                        lemma_weighted_range(c, depth + 1, !maximizing);
                    }
                    assert(depth + 1 + empties(c) == base);
                    assert(parity_of(empties(c), !maximizing) == parity);
                    assert(extends(c, g0));
                    let ghost mb = cache.map@;
                    proof {
                        if sound0 {
                            lemma_weighted_sound_narrow(mb, base, parity, g0, c);
                        }
                    }
                    let v = weighted_minimax(board, depth + 1, !maximizing, cache);
                    board.undo_move(row, col);
                    assert(board@ =~= g0);
                    proof {
                        lemma_added_chain(cache0, mb, cache.map@, g0, c);
                        if sound0 {
                            lemma_weighted_sound_widen(mb, cache.map@, base, parity, g0, c);
                        }
                    }
                    let w = WEIGHT_SCALE * position_weight(row, col);
                    let weighted = add_bonus(v, w);
                    proof {
                        lemma_weighted_children_unfold(g0, depth as int, maximizing, i + 1);
                        if sound0 {
                            assert(v == weighted_value(c, depth + 1, !maximizing));
                            assert(weighted == v + bonus(i as int));
                        }
                    }
                    if maximizing {
                        if weighted > best {
                            best = weighted;
                        }
                    } else {
                        if weighted < best {
                            best = weighted;
                        }
                    }
                } else {
                    proof { lemma_weighted_children_unfold(g0, depth as int, maximizing, i + 1); }
                }
                i += 1;
            }
            best
        },
    };
    let weights = evaluate_weights(board);
    let entry = WeightedStateEvaluation { score, weights };
    proof {
        lemma_added_insert(cache0, cache.map@, g0, entry);
        if sound0 {
            lemma_weighted_sound_insert(cache.map@, base, parity, g0, g0, entry);
        }
    }
    cache.map.insert(h, entry);
    score
}

/// The score of the move of `p` on empty cell `i`, as `best_weighted_move`
/// sees it: the weighted value after the move plus the move's own bonus.
pub open spec fn weighted_move_score(g: Seq<Option<Player>>, p: Player, i: int) -> int {
    weighted_value(g.update(i, Some(p)), 0, p == Player::O) + bonus(i)
}

/// The best of the moves on the first `n` cells for `p` by
/// `weighted_move_score`, as (cell, score), first seen among equals.
pub open spec fn weighted_choice_upto(g: Seq<Option<Player>>, p: Player, n: int) -> Option<(int, int)>
    decreases n,
{
    if n <= 0 {
        None
    } else {
        let prev = weighted_choice_upto(g, p, n - 1);
        if g[n - 1] is None {
            let s = weighted_move_score(g, p, n - 1);
            match prev {
                None => Some((n - 1, s)),
                Some((j, b)) => if improves(p, s, b) {
                    Some((n - 1, s))
                } else {
                    prev
                },
            }
        } else {
            prev
        }
    }
}

/// The move that the weighted search picks for `p` on `g`.
pub open spec fn weighted_move(g: Seq<Option<Player>>, p: Player) -> (usize, usize) {
    move_of(weighted_choice_upto(g, p, 9).unwrap().0)
}

/// Picks the move of `player` on `board` by weighted minimax: each empty
/// cell in row-major order is tried, scored by `weighted_minimax` at depth 0
/// plus the bonus of the cell, and the first move with the
/// highest total (for `X`) or the lowest (for `O`) is kept. The board comes
/// back as it was, and no entry already cached changes. Where the cache is
/// sound for this search (an empty cache is), the move is `weighted_move`
/// and the cache stays sound.
pub fn best_weighted_move(board: &mut Board, player: &Player, cache: &mut WeightedCache) -> (r: (
    usize,
    usize,
))
    requires
        empties(old(board)@) >= 1,
    ensures
        final(board)@ == old(board)@,
        r.0 < 3,
        r.1 < 3,
        old(board)@[cell_index(r.0 as int, r.1 as int)] is None,
        keeps(old(cache).map@, final(cache).map@),
        weighted_sound(old(cache).map@, root_base(old(board)@), root_parity(old(board)@, *player), old(board)@)
            ==> {
            &&& r == weighted_move(old(board)@, *player)
            &&& weighted_sound(
                final(cache).map@,
                root_base(old(board)@),
                root_parity(old(board)@, *player),
                old(board)@,
            )
        },
{
    let ghost g0 = board@;
    let ghost base = root_base(g0);
    let ghost parity = root_parity(g0, *player);
    let ghost sound0 = weighted_sound(cache.map@, base, parity, g0);
    let ghost cache0 = cache.map@;
    proof { board.lemma_len(); }
    let mut best: Option<(usize, i32)> = None;
    let mut i: usize = 0;
    while i < 9
        invariant
            i <= 9,
            board@ == g0,
            g0.len() == 9,
            empties(g0) >= 1,
            base == root_base(g0),
            parity == root_parity(g0, *player),
            sound0 ==> weighted_sound(cache.map@, base, parity, g0),
            keeps(cache0, cache.map@),
            sound0 ==> choice_view(best) == weighted_choice_upto(g0, *player, i as int),
            best matches Some((j, s)) ==> j < i && g0[j as int] is None,
            best is None ==> forall|k: int| 0 <= k < i ==> (#[trigger] g0[k]) is Some,
        decreases 9 - i,
    {
        let row = i / 3;
        let col = i % 3;
        assert(3 * row + col == i);
        if board.make_move(row, col, player) {
            let ghost c = board@;
            proof {
                lemma_empties_fill(g0, i as int, Some(*player));
                lemma_weighted_range(c, 0, *player == Player::O);
            }
            assert(extends(c, g0));
            let ghost mb = cache.map@;
            proof {
                if sound0 {
                    lemma_weighted_sound_narrow(mb, base, parity, g0, c);
                }
            }
            let score = weighted_minimax(board, 0, *player == Player::O, cache);
            board.undo_move(row, col);
            assert(board@ =~= g0);
            proof {
                if sound0 {
                    lemma_weighted_sound_widen(mb, cache.map@, base, parity, g0, c);
                }
            }
            let w = WEIGHT_SCALE * position_weight(row, col);
            let total = add_bonus(score, w);
            let better = match best {
                None => true,
                Some((_, b)) => match player {
                    Player::X => total > b,
                    Player::O => total < b,
                },
            };
            if better {
                best = Some((i, total));
            }
        }
        i += 1;
    }
    match best {
        Some((j, _)) => (j / 3, j % 3),
        None => {
            assert(empties(g0) == 0);
            (0, 0)
        },
    }
}

/// A cache with no entry is sound for every search: a fresh cache and one
/// warmed by an earlier search from the same board both lead
/// `best_weighted_move` to `weighted_move`.
pub proof fn lemma_fresh_weighted_cache_sound(base: int, parity: bool, root: Seq<Option<Player>>)
    ensures
        weighted_sound(Map::<u64, WeightedStateEvaluation>::empty(), base, parity, root),
{
}

/// Where moving on the center and moving on an edge cell leave positions of
/// equal weighted value, the center's larger weight makes its move score
/// higher: `X` prefers the center over that edge.
pub proof fn lemma_center_beats_tied_edge(g: Seq<Option<Player>>, e: int)
    requires
        e == 1 || e == 3 || e == 5 || e == 7,
        weighted_value(g.update(4, Some(Player::X)), 0, false) == weighted_value(
            g.update(e, Some(Player::X)),
            0,
            false,
        ),
    ensures
        weighted_move_score(g, Player::X, 4) > weighted_move_score(g, Player::X, e),
        improves(Player::X, weighted_move_score(g, Player::X, 4), weighted_move_score(g, Player::X, e)),
{
}

} // verus!
