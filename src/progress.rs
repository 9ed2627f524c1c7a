use crate::matchup::{completion, completion_percent, pairs_among, total_pairs_needed};
use vstd::prelude::*;

verus! {

/// How far a session has come in comparing all pairs of the collection.
pub struct ProgressResponse {
    pub compared_pairs: u64,
    pub total_pairs: u64,
    pub percent: u8,
}

impl ProgressResponse {
    /// The progress of `compared_pairs` distinct compared pairs over a
    /// collection of `num_photos` items.
    pub fn new(compared_pairs: u64, num_photos: u32) -> (r: Self)
        ensures
            r.compared_pairs == compared_pairs,
            r.total_pairs == pairs_among(num_photos as int),
            r.percent == completion(compared_pairs as int, num_photos as int),
    {
        ProgressResponse {
            compared_pairs,
            total_pairs: total_pairs_needed(num_photos),
            percent: completion_percent(compared_pairs, num_photos),
        }
    }
}

} // verus!
