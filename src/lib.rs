//! Game-tree search for tic-tac-toe: a board model, three interchangeable
//! searches (exhaustive minimax, alpha-beta pruning, position-weighted
//! minimax) with their memoization caches; and, beside them, searches on
//! rectangular grids (breadth-first, depth-first, iterative deepening,
//! uniform-cost and A*).

pub mod game_state;
pub mod board;
pub mod search;
pub mod cache;
pub mod minimax;
pub mod alpha_beta;
pub mod weighted;
pub mod grid_search;
pub mod pathfinding;
