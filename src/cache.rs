use vstd::prelude::*;
use std::collections::HashMap;

verus! {

/// Memo of the exhaustive search: board fingerprint to score.
pub struct MinimaxCache {
    pub map: HashMap<u64, i32>,
}

impl MinimaxCache {
    /// Creates an empty cache.
    pub fn new() -> (r: MinimaxCache)
        ensures
            r.map@ == Map::<u64, i32>::empty(),
    {
        MinimaxCache { map: HashMap::new() }
    }
}

/// Memo of the alpha-beta search: board fingerprint to score. Kept apart from
/// `MinimaxCache` so that the two searches never read each other's entries.
pub struct AlphaBetaCache {
    pub map: HashMap<u64, i32>,
}

impl AlphaBetaCache {
    /// Creates an empty cache.
    pub fn new() -> (r: AlphaBetaCache)
        ensures
            r.map@ == Map::<u64, i32>::empty(),
    {
        AlphaBetaCache { map: HashMap::new() }
    }
}

/// What the weighted search records of a board: its score, and the weight of
/// each cell that was empty when it was scored (0 for a taken cell).
#[derive(Clone, Debug)]
pub struct WeightedStateEvaluation {
    pub score: i32,
    pub weights: Vec<i32>,
}

/// Memo of the weighted search: board fingerprint to evaluation.
pub struct WeightedCache {
    pub map: HashMap<u64, WeightedStateEvaluation>,
}

impl WeightedCache {
    /// Creates an empty cache.
    pub fn new() -> (r: WeightedCache)
        ensures
            r.map@ == Map::<u64, WeightedStateEvaluation>::empty(),
    {
        WeightedCache { map: HashMap::new() }
    }
}

} // verus!
