use vstd::prelude::*;

verus! {

/// The state of a game, derived from the board.
#[derive(Clone, Copy, Debug, PartialEq, Eq, Hash, Structural)]
pub enum GameState {
    /// Some cell is still empty and nobody has three in a line.
    Ongoing,
    /// Every cell is taken and nobody has three in a line.
    Draw,
    /// The player holds three cells in a line.
    Win(Player),
}

/// The two players. `X` moves first and is the maximizing side of every search.
#[derive(Clone, Copy, Debug, PartialEq, Eq, Hash, Structural)]
pub enum Player {
    X,
    O,
}

/// The other player.
pub open spec fn opponent_of(p: Player) -> Player {
    match p {
        Player::X => Player::O,
        Player::O => Player::X,
    }
}

impl Player {
    /// Returns the opponent of this player.
    pub fn opponent(&self) -> (r: Player)
        ensures
            r == opponent_of(*self),
            r != *self,
    {
        match self {
            Player::X => Player::O,
            Player::O => Player::X,
        }
    }
}

} // verus!
