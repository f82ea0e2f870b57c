//! Newer heuristic engines built on the offset-sum pair search and on the
//! decaying frequency tables.

pub mod closest_offset_sum_lcs;
pub mod index_lcs;
pub mod min_count_lcs;
pub mod tree_closest_offset_sum;
