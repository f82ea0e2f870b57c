//! A coarse per-symbol estimate: after filtering each sequence down to the
//! symbols shared with the other, the smaller of the two remaining counts of
//! every symbol value bounds how often that symbol can appear in a common
//! subsequence.

use crate::filter::{count_lut, filter_non_occuring};
use crate::utilities::{count_of, shared_filter};
use crate::UNIQUE_VALUES;
use vstd::prelude::*;

verus! {

/// Filtering never lengthens a sequence.
pub proof fn lemma_shared_filter_len_le<T>(s: Seq<T>, other: Seq<T>)
    ensures
        shared_filter(s, other).len() <= s.len(),
    decreases s.len(),
{
    if s.len() > 0 {
        lemma_shared_filter_len_le(s.drop_last(), other);
    }
}

/// Per-symbol match bounds: entry `v` is the smaller of the two occurrence
/// counts of `v` after each sequence is filtered down to the symbols it
/// shares with the other.
pub fn lcs(source: &[u8], target: &[u8]) -> (r: Vec<usize>)
    requires
        source@.len() <= u16::MAX,
        target@.len() <= u16::MAX,
    ensures
        r@.len() == UNIQUE_VALUES,
        ({
            let fs = shared_filter(source@, target@);
            let ft = shared_filter(target@, fs);
            forall|v: int|
                0 <= v < UNIQUE_VALUES ==> (#[trigger] r@[v]) == if count_of(fs, v as u8)
                    <= count_of(ft, v as u8) {
                    count_of(fs, v as u8) as int
                } else {
                    count_of(ft, v as u8) as int
                }
        }),
{
    proof {
        lemma_shared_filter_len_le(source@, target@);
        lemma_shared_filter_len_le(target@, shared_filter(source@, target@));
    }
    let source = filter_non_occuring(source, target);
    let target = filter_non_occuring(target, source.as_slice());
    let source_counts = count_lut(source.as_slice());
    let target_counts = count_lut(target.as_slice());
    let mut mins: Vec<usize> = Vec::new();
    let mut v: usize = 0;
    while v < UNIQUE_VALUES
        invariant
            source_counts@.len() == UNIQUE_VALUES,
            target_counts@.len() == UNIQUE_VALUES,
            forall|u: int| 0 <= u < UNIQUE_VALUES ==> (#[trigger] source_counts@[u]) == count_of(
                source@,
                u as u8,
            ),
            forall|u: int| 0 <= u < UNIQUE_VALUES ==> (#[trigger] target_counts@[u]) == count_of(
                target@,
                u as u8,
            ),
            0 <= v <= UNIQUE_VALUES,
            mins@.len() == v,
            forall|u: int|
                0 <= u < v ==> (#[trigger] mins@[u]) == if count_of(source@, u as u8) <= count_of(
                    target@,
                    u as u8,
                ) {
                    count_of(source@, u as u8) as int
                } else {
                    count_of(target@, u as u8) as int
                },
        decreases UNIQUE_VALUES - v,
    {
        let sc = source_counts[v];
        let tc = target_counts[v];
        let smaller = if sc <= tc {
            sc
        } else {
            tc
        };
        mins.push(smaller as usize);
        v += 1;
    }
    mins
}

} // verus!
