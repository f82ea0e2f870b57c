//! The chain-search heuristic engine: like the greedy engine, but at every
//! step it explores *all* matches tied for the minimal offset sum and keeps
//! the longest chain any of them leads to.  Exhaustive over ties only, so
//! still a heuristic; worst-case exponential in the number of ties.

use crate::lcs_trait::Lcs;
use crate::offset_spec::{
    chain_best, chain_search, first_index_of, is_match_at, lemma_chain_search_common,
    lemma_tied_best_stable, lemma_tied_best_upto, lemma_tied_best_upto_len, pair_sum, tied_best,
    tied_best_upto,
};
use crate::utilities::position_of;
use vstd::prelude::*;
use vstd::slice::slice_to_vec;

verus! {

/// Chain-search heuristic engine over the tied minimal-offset matches.
#[derive(Debug, PartialEq, Eq)]
pub struct TrackingOffsetSum {
    source: Vec<u8>,
    target: Vec<u8>,
}

impl TrackingOffsetSum {
    #[verifier::type_invariant]
    spec fn wf(self) -> bool {
        self.source@.len() + self.target@.len() <= usize::MAX
    }

    pub fn new(source: &[u8], target: &[u8]) -> (r: Self)
        requires
            source@.len() + target@.len() <= usize::MAX,
        ensures
            r.src() == source@,
            r.tgt() == target@,
    {
        Self { source: slice_to_vec(source), target: slice_to_vec(target) }
    }

    /// All matching pairs tied for the smallest offset sum, in increasing
    /// source-offset order; each pair takes the first occurrence of its
    /// symbol in the target.
    pub fn all_smallest_pair_offsets(source: &[u8], target: &[u8]) -> (r: Vec<(usize, usize)>)
        requires
            source@.len() + target@.len() <= usize::MAX,
        ensures
            ({
                let tied = tied_best(source@, target@);
                &&& r@.len() == tied.len()
                &&& forall|k: int|
                    0 <= k < tied.len() ==> (#[trigger] r@[k]).0 as int == tied[k] && r@[k].1
                        as int == first_index_of(target@, source@[tied[k]])
            }),
    {
        let ghost s = source@;
        let ghost t = target@;
        let source_len = source.len();
        let mut next_pairs_offsets: Vec<(usize, usize)> = Vec::new();
        let mut min_offset_sum: usize = usize::MAX;
        let mut source_offset: usize = 0;
        while source_offset < source_len
            invariant_except_break
                s == source@,
                t == target@,
                source_len == s.len(),
                s.len() + t.len() <= usize::MAX,
                0 <= source_offset <= source_len,
                ({
                    let tied = tied_best_upto(s, t, source_offset as int);
                    &&& next_pairs_offsets@.len() == tied.len()
                    &&& forall|k: int|
                        0 <= k < tied.len() ==> (#[trigger] next_pairs_offsets@[k]).0 as int
                            == tied[k] && next_pairs_offsets@[k].1 as int == first_index_of(
                            t,
                            s[tied[k]],
                        )
                    &&& if tied.len() == 0 {
                        min_offset_sum == usize::MAX
                    } else {
                        min_offset_sum as int == pair_sum(s, t, tied.last())
                    }
                }),
            ensures
                s == source@,
                t == target@,
                ({
                    let tied = tied_best(s, t);
                    &&& next_pairs_offsets@.len() == tied.len()
                    &&& forall|k: int|
                        0 <= k < tied.len() ==> (#[trigger] next_pairs_offsets@[k]).0 as int
                            == tied[k] && next_pairs_offsets@[k].1 as int == first_index_of(
                            t,
                            s[tied[k]],
                        )
                }),
            decreases source_len - source_offset,
        {
            let ghost prev = tied_best_upto(s, t, source_offset as int);
            let source_num = source[source_offset];
            match position_of(target, source_num) {
                Some(target_offset) => {
                    let offset_sum = source_offset + target_offset;
                    if offset_sum < min_offset_sum {
                        next_pairs_offsets.clear();
                        next_pairs_offsets.push((source_offset, target_offset));
                        min_offset_sum = offset_sum;
                    } else if offset_sum == min_offset_sum {
                        next_pairs_offsets.push((source_offset, target_offset));
                    }
                    proof {
                        let tied = tied_best_upto(s, t, source_offset + 1);
                        assert(next_pairs_offsets@.len() == tied.len());
                    }
                    if source_offset > min_offset_sum {
                        proof {
                            lemma_tied_best_stable(
                                s,
                                t,
                                source_offset + 1,
                                s.len() as int,
                            );
                        }
                        break ;
                    }
                },
                None => {},
            }
            source_offset += 1;
        }
        next_pairs_offsets
    }

    /// Depth-first search over the tied minimal matches: each candidate is
    /// consumed, the remaining suffixes are solved recursively, and the
    /// longest resulting chain is returned.
    pub fn longest_pair_offset_chain(source: &[u8], target: &[u8]) -> (r: Vec<u8>)
        requires
            source@.len() + target@.len() <= usize::MAX,
        ensures
            r@ == chain_search(source@, target@),
        decreases source@.len(),
    {
        let ghost s = source@;
        let ghost t = target@;
        let source_len = source.len();
        let target_len = target.len();
        let pairs = Self::all_smallest_pair_offsets(source, target);
        let ghost tied = tied_best(s, t);
        proof {
            lemma_tied_best_upto(s, t, s.len() as int);
            lemma_tied_best_upto_len(s, t, s.len() as int);
            assert(tied.take(0) =~= Seq::<int>::empty());
        }
        let mut best: Vec<u8> = Vec::new();
        let mut k: usize = 0;
        while k < pairs.len()
            invariant
                s == source@,
                t == target@,
                source_len == s.len(),
                target_len == t.len(),
                s.len() + t.len() <= usize::MAX,
                tied == tied_best(s, t),
                pairs@.len() == tied.len(),
                forall|j: int|
                    0 <= j < tied.len() ==> (#[trigger] pairs@[j]).0 as int == tied[j] && pairs@[
                        j
                    ].1 as int == first_index_of(t, s[tied[j]]),
                tied.len() > 0 ==> forall|j: int|
                    0 <= j < tied.len() ==> is_match_at(s, t, #[trigger] tied[j]) && 0 <= tied[j]
                        < s.len(),
                0 <= k <= pairs@.len(),
                best@ == chain_best(s, t, tied.take(k as int)),
            decreases pairs@.len() - k,
        {
            let pair = pairs[k];
            let so = pair.0;
            let to = pair.1;
            let sub_source = &source[so + 1..source_len];
            let sub_target = &target[to + 1..target_len];
            proof {
                assert(sub_source@ =~= s.skip(so + 1));
                assert(sub_target@ =~= t.skip(to + 1));
            }
            let mut sub_chain = Self::longest_pair_offset_chain(sub_source, sub_target);
            sub_chain.insert(0, source[so]);
            proof {
                assert(sub_chain@ =~= seq![s[so as int]] + chain_search(
                    s.skip(so + 1),
                    t.skip(to + 1),
                ));
                assert(tied.take(k + 1).drop_last() =~= tied.take(k as int));
                assert(tied.take(k + 1).last() == tied[k as int]);
            }
            if sub_chain.len() >= best.len() {
                best = sub_chain;
            } else {
            }
            k += 1;
        }
        proof {
            assert(tied.take(tied.len() as int) =~= tied);
        }
        best
    }
}

impl Lcs for TrackingOffsetSum {
    closed spec fn src(&self) -> Seq<u8> {
        self.source@
    }

    closed spec fn tgt(&self) -> Seq<u8> {
        self.target@
    }

    /// The chain-search engine answers with the tied-candidate search chain.
    closed spec fn result_seq(&self) -> Seq<u8> {
        chain_search(self.source@, self.target@)
    }

    proof fn result_is_common(&self) {
        lemma_chain_search_common(self.source@, self.target@);
    }

    fn subsequence(&self) -> (r: Vec<u8>) {
        proof {
            use_type_invariant(&*self);
        }
        Self::longest_pair_offset_chain(self.source.as_slice(), self.target.as_slice())
    }

    fn len(&self) -> (r: usize) {
        self.subsequence().len()
    }

    fn is_empty(&self) -> (r: bool) {
        self.len() == 0
    }
}

} // verus!
