//! The per-query record of one candidate: the phrase, the character
//! positions the query matched, and the score the heuristic assigned.
//! Profiles live only from match resolution to ranking.

use vstd::prelude::*;

verus! {

/// One scored candidate of a query.
#[derive(Debug, PartialEq, Eq, PartialOrd, Ord)]
pub struct MatchProfile {
    /// The candidate phrase, in its original casing.
    pub phrase: String,
    /// The positions of the matched characters within the phrase.
    pub matched_positions: Vec<usize>,
    /// The relevance score the heuristic assigned.
    pub score: i64,
}

impl MatchProfile {
    /// Bundles a candidate phrase with its matched positions and score.
    pub fn new(phrase: String, matched_positions: Vec<usize>, score: i64) -> (r: MatchProfile)
        ensures
            r.phrase == phrase,
            r.matched_positions == matched_positions,
            r.score == score,
    {
        MatchProfile { phrase, matched_positions, score }
    }
}

} // verus!
