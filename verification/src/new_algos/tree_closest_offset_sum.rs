//! A planned tree-shaped exploration of the offset-sum candidates.  Only the
//! pair search itself exists; the tree expansion and the subsequence
//! assembly are unimplemented extension points that signal so explicitly.

use crate::new_algos::closest_offset_sum_lcs;
use crate::offset_spec::{best_match, first_index_of, is_match_at};
use crate::LcsError;
use vstd::prelude::*;
use vstd::slice::slice_to_vec;

verus! {

/// Skeleton of the tree-search engine.
pub struct TreeClosestOffsetSum {
    source: Vec<u8>,
    target: Vec<u8>,
    pair_indexes: Vec<Vec<(u16, u16)>>,
}

impl TreeClosestOffsetSum {
    /// The source sequence the engine was built from.
    pub closed spec fn src(&self) -> Seq<u8> {
        self.source@
    }

    /// The target sequence the engine was built from.
    pub closed spec fn tgt(&self) -> Seq<u8> {
        self.target@
    }

    pub fn new(source: &[u8], target: &[u8]) -> (r: Self)
        ensures
            r.src() == source@,
            r.tgt() == target@,
    {
        Self { source: slice_to_vec(source), target: slice_to_vec(target), pair_indexes: Vec::new() }
    }

    /// The tree expansion step is an unimplemented extension point: it
    /// always signals so rather than returning an empty or wrong result.
    pub fn get_next_possible_pairs(&mut self) -> (r: Result<Vec<(u16, u16)>, LcsError>)
        ensures
            r == Result::<Vec<(u16, u16)>, LcsError>::Err(LcsError::Unimplemented),
    {
        Err(LcsError::Unimplemented)
    }

    /// The matching pair with the smallest combined offset, exactly as the
    /// greedy engine finds it.
    pub fn closest_pair_sum_offsets(source: &[u8], target: &[u8]) -> (r: Option<(usize, usize)>)
        requires
            source@.len() + target@.len() <= usize::MAX,
        ensures
            match r {
                None => best_match(source@, target@) == -1,
                Some((so, to)) => so as int == best_match(source@, target@) && is_match_at(
                    source@,
                    target@,
                    so as int,
                ) && to as int == first_index_of(target@, source@[so as int]) && (to as int)
                    < target@.len() && source@[so as int] == target@[to as int],
            },
    {
        closest_offset_sum_lcs::closest_pair_sum_offsets(source, target)
    }

    /// Assembling a subsequence from the unexplored tree is likewise an
    /// unimplemented extension point.
    pub fn subsequence(&self) -> (r: Result<Vec<u8>, LcsError>)
        ensures
            r == Result::<Vec<u8>, LcsError>::Err(LcsError::Unimplemented),
    {
        Err(LcsError::Unimplemented)
    }
}

} // verus!
