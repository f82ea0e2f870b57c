//! The greedy offset-sum heuristic as free functions: find the matching
//! pair with the smallest combined offset, consume it, and repeat on the
//! remaining suffixes.

use crate::offset_spec::{
    best_match, best_match_upto, first_index_of, greedy_chain, is_match_at,
    lemma_best_match_stable, lemma_best_match_upto, lemma_first_index_of,
};
use crate::utilities::position_of;
use vstd::prelude::*;

verus! {

/// Greedy LCS approximation: repeatedly consumes the closest matching pair.
/// The result is exactly the `greedy_chain` of the two inputs — a common
/// subsequence, but not necessarily a longest one.
pub fn closest_sum_offset_lcs(source: &[u8], target: &[u8]) -> (r: Vec<u8>)
    requires
        source@.len() + target@.len() <= usize::MAX,
    ensures
        r@ == greedy_chain(source@, target@),
{
    let ghost s = source@;
    let ghost t = target@;
    let source_len = source.len();
    let target_len = target.len();
    let mut last0: usize = 0;
    let mut last1: usize = 0;
    let mut lcs: Vec<u8> = Vec::new();
    proof {
        assert(s.skip(0) =~= s);
        assert(t.skip(0) =~= t);
        assert(Seq::<u8>::empty() + greedy_chain(s, t) =~= greedy_chain(s, t));
    }
    loop
        invariant_except_break
            s == source@,
            t == target@,
            source_len == s.len(),
            target_len == t.len(),
            s.len() + t.len() <= usize::MAX,
            0 <= last0 <= source_len,
            0 <= last1 <= target_len,
            greedy_chain(s, t) == lcs@ + greedy_chain(s.skip(last0 as int), t.skip(last1 as int)),
        ensures
            lcs@ == greedy_chain(s, t),
            s == source@,
            t == target@,
        decreases source_len - last0,
    {
        let sub_source = &source[last0..source_len];
        let sub_target = &target[last1..target_len];
        proof {
            assert(sub_source@ =~= s.skip(last0 as int));
            assert(sub_target@ =~= t.skip(last1 as int));
        }
        match closest_pair_sum_offsets(sub_source, sub_target) {
            Some((source_offset, target_offset)) => {
                proof {
                    let ss = s.skip(last0 as int);
                    let tt = t.skip(last1 as int);
                    lemma_first_index_of(tt, ss[source_offset as int]);
                    assert(ss.skip(source_offset + 1) =~= s.skip(
                        last0 + source_offset + 1,
                    ));
                    assert(tt.skip(target_offset + 1) =~= t.skip(
                        last1 + target_offset + 1,
                    ));
                    assert(greedy_chain(ss, tt) == seq![ss[source_offset as int]] + greedy_chain(
                        ss.skip(source_offset + 1),
                        tt.skip(target_offset + 1),
                    ));
                }
                last0 = last0 + source_offset + 1;
                last1 = last1 + target_offset + 1;
                let ghost old_lcs = lcs@;
                lcs.push(source[last0 - 1]);
                proof {
                    assert(lcs@ =~= old_lcs + seq![s[last0 - 1]]);
                    assert((old_lcs + seq![s[last0 - 1]]) + greedy_chain(
                        s.skip(last0 as int),
                        t.skip(last1 as int),
                    ) =~= old_lcs + (seq![s[last0 - 1]] + greedy_chain(
                        s.skip(last0 as int),
                        t.skip(last1 as int),
                    )));
                }
            },
            None => {
                proof {
                    assert(greedy_chain(s.skip(last0 as int), t.skip(last1 as int))
                        =~= Seq::<u8>::empty());
                    assert(lcs@ =~= lcs@ + Seq::<u8>::empty());
                }
                break ;
            },
        }
    }
    lcs
}

/// Finds the matching pair `(source_offset, target_offset)` with the
/// smallest combined offset, taking for each source symbol its first
/// occurrence in the target; on equal sums the later source offset wins.
/// Returns `None` exactly when no symbol of `source` occurs in `target`.
pub fn closest_pair_sum_offsets(source: &[u8], target: &[u8]) -> (r: Option<(usize, usize)>)
    requires
        source@.len() + target@.len() <= usize::MAX,
    ensures
        match r {
            None => best_match(source@, target@) == -1,
            Some((so, to)) => so as int == best_match(source@, target@) && is_match_at(
                source@,
                target@,
                so as int,
            ) && to as int == first_index_of(target@, source@[so as int]) && (to as int)
                < target@.len() && source@[so as int] == target@[to as int],
        },
{
    let ghost s = source@;
    let ghost t = target@;
    let source_len = source.len();
    let target_len = target.len();
    let mut closest_offsets: (usize, usize) = (source_len, target_len);
    let mut source_offset: usize = 0;
    while source_offset < source_len
        invariant
            s == source@,
            t == target@,
            source_len == s.len(),
            target_len == t.len(),
            s.len() + t.len() <= usize::MAX,
            0 <= source_offset <= source_len,
            ({
                let b = best_match_upto(s, t, source_offset as int);
                if b == -1 {
                    closest_offsets == (source_len, target_len)
                } else {
                    &&& is_match_at(s, t, b)
                    &&& closest_offsets.0 as int == b
                    &&& closest_offsets.1 as int == first_index_of(t, s[b])
                }
            }),
        decreases source_len - source_offset,
    {
        proof {
            lemma_best_match_upto(s, t, source_offset as int);
            if best_match_upto(s, t, source_offset as int) != -1 {
                lemma_first_index_of(t, s[best_match_upto(s, t, source_offset as int)]);
            }
        }
        if source_offset > closest_offsets.0 + closest_offsets.1 {
            proof {
                lemma_best_match_stable(s, t, source_offset as int, s.len() as int);
            }
            return Some((closest_offsets.0, closest_offsets.1));
        }
        let source_num = source[source_offset];
        match position_of(target, source_num) {
            Some(target_offset) => {
                if source_offset + target_offset <= closest_offsets.0 + closest_offsets.1 {
                    closest_offsets = (source_offset, target_offset);
                }
            },
            None => {},
        }
        source_offset += 1;
    }
    proof {
        lemma_best_match_upto(s, t, s.len() as int);
        if best_match(s, t) != -1 {
            lemma_first_index_of(t, s[best_match(s, t)]);
        }
    }
    if closest_offsets.0 == source_len && closest_offsets.1 == target_len {
        return None;
    }
    Some(closest_offsets)
}

} // verus!
