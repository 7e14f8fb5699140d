use vstd::prelude::*;
use crate::game_state::{GameState, Player};

verus! {

/// The player who moves on a maximizing layer (`X`) or a minimizing one (`O`).
pub open spec fn mover(maximizing: bool) -> Player {
    if maximizing {
        Player::X
    } else {
        Player::O
    }
}

/// The better of two scores for the side to move.
pub open spec fn combine(maximizing: bool, a: int, b: int) -> int {
    if maximizing {
        if a >= b {
            a
        } else {
            b
        }
    } else {
        if a <= b {
            a
        } else {
            b
        }
    }
}

/// The score a layer starts from before any child is seen.
pub open spec fn worst(maximizing: bool) -> int {
    if maximizing {
        i32::MIN as int
    } else {
        i32::MAX as int
    }
}

/// Score of a finished game found `depth` plies below the search root: a
/// win for `X` counts `bias - depth`, one for `O` counts `depth - bias`, so
/// that quicker wins and slower losses are preferred.
pub open spec fn terminal_score(s: GameState, depth: int, bias: int) -> int {
    match s {
        GameState::Win(Player::X) => bias - depth,
        GameState::Win(Player::O) => depth - bias,
        _ => 0,
    }
}

/// `v` seen through the window `(lo, hi)`: below the window reads as `lo`,
/// above as `hi`. An empty window reads every value as `lo`.
pub open spec fn clamp(v: int, lo: int, hi: int) -> int {
    if hi <= lo {
        lo
    } else if v <= lo {
        lo
    } else if v >= hi {
        hi
    } else {
        v
    }
}

/// A move scored `s` displaces the best so far, scored `best`, only when it is
/// strictly better for `p`: so among equal scores the first one seen stays.
pub open spec fn improves(p: Player, s: int, best: int) -> bool {
    match p {
        Player::X => s > best,
        Player::O => s < best,
    }
}

/// The `(row, col)` of cell index `i`.
pub open spec fn move_of(i: int) -> (usize, usize) {
    ((i / 3) as usize, (i % 3) as usize)
}

/// Whether a search from a board with `e` empty cells and `maximizing` at
/// the root keeps `maximizing` on boards with an even number of empty cells.
pub open spec fn parity_of(e: int, maximizing: bool) -> bool {
    maximizing == (e % 2 == 0)
}

/// The layer of a board with `e` empty cells in a search of parity `parity`.
pub open spec fn layer_of(parity: bool, e: int) -> bool {
    parity == (e % 2 == 0)
}

/// Every entry of `before` is still in `after`, unchanged: a cache only grows.
pub open spec fn keeps<V>(before: Map<u64, V>, after: Map<u64, V>) -> bool {
    forall|k: u64| #[trigger] before.contains_key(k) ==> after.contains_key(k) && after[k] == before[k]
}

} // verus!
