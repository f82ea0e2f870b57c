//! The greedy offset-sum heuristic as an engine: built once from the two
//! sequences, it answers queries by running the greedy pair consumption.

use crate::lcs_trait::Lcs;
use crate::new_algos::closest_offset_sum_lcs;
use crate::offset_spec::{best_match, first_index_of, greedy_chain, is_match_at,
    lemma_greedy_chain_common};
use vstd::prelude::*;
use vstd::slice::slice_to_vec;

verus! {

/// Greedy heuristic engine: repeatedly consumes the matching pair whose
/// combined offset from the current search origin is smallest.  Fast, but
/// not globally optimal: once a pair is committed it is never revisited.
pub struct ClosestOffsetSum {
    source: Vec<u8>,
    target: Vec<u8>,
}

impl ClosestOffsetSum {
    #[verifier::type_invariant]
    spec fn wf(self) -> bool {
        self.source@.len() + self.target@.len() <= usize::MAX
    }

    pub fn new(source: &[u8], target: &[u8]) -> (r: Self)
        requires
            source@.len() + target@.len() <= usize::MAX,
        ensures
            r.src() == source@,
            r.tgt() == target@,
    {
        Self { source: slice_to_vec(source), target: slice_to_vec(target) }
    }

    /// The closest matching pair of the two sequences, as the greedy scan
    /// finds it.
    pub fn closest_pair_sum_offsets(source: &[u8], target: &[u8]) -> (r: Option<(usize, usize)>)
        requires
            source@.len() + target@.len() <= usize::MAX,
        ensures
            match r {
                None => best_match(source@, target@) == -1,
                Some((so, to)) => so as int == best_match(source@, target@) && is_match_at(
                    source@,
                    target@,
                    so as int,
                ) && to as int == first_index_of(target@, source@[so as int]) && (to as int)
                    < target@.len() && source@[so as int] == target@[to as int],
            },
    {
        closest_offset_sum_lcs::closest_pair_sum_offsets(source, target)
    }
}

impl Lcs for ClosestOffsetSum {
    closed spec fn src(&self) -> Seq<u8> {
        self.source@
    }

    closed spec fn tgt(&self) -> Seq<u8> {
        self.target@
    }

    /// The greedy engine answers with the greedy chain of its inputs.
    closed spec fn result_seq(&self) -> Seq<u8> {
        greedy_chain(self.source@, self.target@)
    }

    proof fn result_is_common(&self) {
        lemma_greedy_chain_common(self.source@, self.target@);
    }

    fn subsequence(&self) -> (r: Vec<u8>) {
        proof {
            use_type_invariant(&*self);
        }
        closest_offset_sum_lcs::closest_sum_offset_lcs(
            self.source.as_slice(),
            self.target.as_slice(),
        )
    }

    fn len(&self) -> (r: usize) {
        self.subsequence().len()
    }

    fn is_empty(&self) -> (r: bool) {
        self.len() == 0
    }
}

} // verus!
