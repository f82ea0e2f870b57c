//! The LCS engines: the exact dynamic-programming solver and the heuristic
//! engines built around the offset-sum pair search.

pub mod closest_offset_sum_lcs;
pub mod pair_score_lcs;
pub mod slow_lcs;
pub mod tracking_offset_sum_lcs;
