//! Model of the offset-sum pair search shared by the heuristic engines: the
//! first occurrence of a symbol in the target, the match with the smallest
//! combined offset, and the chain the greedy engine builds from it.

use crate::lcs_spec::{
    is_common_subsequence, lcs_len, lemma_common_subsequence_le_lcs, lemma_concat_subsequence,
    lemma_singleton_subsequence,
};
use vstd::prelude::*;

verus! {

/// Index of the first occurrence of `v` in `t`, or `t.len()` if `v` does not
/// occur at all.
pub open spec fn first_index_of(t: Seq<u8>, v: u8) -> int
    decreases t.len(),
{
    if t.len() == 0 {
        0
    } else if t.first() == v {
        0
    } else {
        1 + first_index_of(t.drop_first(), v)
    }
}

/// What `first_index_of` returns: the smallest index holding `v`, or the
/// length when `v` is absent.
pub proof fn lemma_first_index_of(t: Seq<u8>, v: u8)
    ensures
        0 <= first_index_of(t, v) <= t.len(),
        first_index_of(t, v) < t.len() ==> t[first_index_of(t, v)] == v,
        forall|k: int| 0 <= k < first_index_of(t, v) ==> t[k] != v,
        first_index_of(t, v) == t.len() ==> !t.contains(v),
    decreases t.len(),
{
    if t.len() == 0 {
    } else if t.first() == v {
    } else {
        lemma_first_index_of(t.drop_first(), v);
        let fi = first_index_of(t, v);
        assert(forall|k: int| 1 <= k < fi ==> t[k] == t.drop_first()[k - 1]);
        if fi == t.len() {
            assert forall|i: int| 0 <= i < t.len() implies t[i] != v by {
                if i > 0 {
                    assert(t[i] == t.drop_first()[i - 1]);
                }
            }
            assert(!t.contains(v));
        }
    }
}

/// Position `i` of `s` has a matching partner somewhere in `t`.
pub open spec fn is_match_at(s: Seq<u8>, t: Seq<u8>, i: int) -> bool {
    0 <= i < s.len() && first_index_of(t, s[i]) < t.len()
}

/// Combined offset of the match at source position `i` and its first target
/// occurrence.
pub open spec fn pair_sum(s: Seq<u8>, t: Seq<u8>, i: int) -> int {
    i + first_index_of(t, s[i])
}

/// The source offset the scan over positions `0..n` settles on: the match
/// with the smallest offset sum, the rightmost one on ties, or `-1` when no
/// position below `n` matches.
pub open spec fn best_match_upto(s: Seq<u8>, t: Seq<u8>, n: int) -> int
    decreases n,
{
    if n <= 0 {
        -1
    } else {
        let prev = best_match_upto(s, t, n - 1);
        if !is_match_at(s, t, n - 1) {
            prev
        } else if prev == -1 {
            n - 1
        } else if pair_sum(s, t, n - 1) <= pair_sum(s, t, prev) {
            n - 1
        } else {
            prev
        }
    }
}

/// The source offset the full scan settles on.
pub open spec fn best_match(s: Seq<u8>, t: Seq<u8>) -> int {
    best_match_upto(s, t, s.len() as int)
}

/// Characterisation of the scan result: a matching position of minimal
/// offset sum, rightmost among the minimal ones; `-1` exactly when nothing
/// below `n` matches.
pub proof fn lemma_best_match_upto(s: Seq<u8>, t: Seq<u8>, n: int)
    requires
        0 <= n <= s.len(),
    ensures
        best_match_upto(s, t, n) == -1 ==> forall|i: int| 0 <= i < n ==> !is_match_at(s, t, i),
        best_match_upto(s, t, n) != -1 ==> {
            let b = best_match_upto(s, t, n);
            &&& 0 <= b < n
            &&& is_match_at(s, t, b)
            &&& forall|i: int|
                0 <= i < n && is_match_at(s, t, i) ==> pair_sum(s, t, b) <= pair_sum(s, t, i)
            &&& forall|i: int|
                0 <= i < n && is_match_at(s, t, i) && pair_sum(s, t, i) == pair_sum(s, t, b)
                    ==> i <= b
        },
    decreases n,
{
    if n > 0 {
        lemma_best_match_upto(s, t, n - 1);
    }
}

/// Once the scan position has passed the best offset sum found so far, later
/// positions can never improve on it: their sum is at least their position.
pub proof fn lemma_best_match_stable(s: Seq<u8>, t: Seq<u8>, n: int, m: int)
    requires
        0 <= n <= m <= s.len(),
        best_match_upto(s, t, n) != -1,
        n > pair_sum(s, t, best_match_upto(s, t, n)),
    ensures
        best_match_upto(s, t, m) == best_match_upto(s, t, n),
    decreases m,
{
    if m > n {
        lemma_best_match_stable(s, t, n, m - 1);
        if is_match_at(s, t, m - 1) {
            lemma_first_index_of(t, s[m - 1]);
        }
    }
}

/// The chain the greedy engine builds: repeatedly take the best match,
/// append its symbol, and continue on the remaining suffixes.
pub open spec fn greedy_chain(s: Seq<u8>, t: Seq<u8>) -> Seq<u8>
    decreases s.len(),
{
    let b = best_match(s, t);
    if b < 0 || b >= s.len() {
        Seq::empty()
    } else {
        let fi = first_index_of(t, s[b]);
        if fi < 0 || fi >= t.len() {
            Seq::empty()
        } else {
            seq![s[b]] + greedy_chain(s.skip(b + 1), t.skip(fi + 1))
        }
    }
}

/// The greedy chain is a common subsequence of its two inputs.
pub proof fn lemma_greedy_chain_common(s: Seq<u8>, t: Seq<u8>)
    ensures
        is_common_subsequence(greedy_chain(s, t), s, t),
    decreases s.len(),
{
    let b = best_match(s, t);
    lemma_best_match_upto(s, t, s.len() as int);
    if b < 0 || b >= s.len() {
    } else {
        lemma_first_index_of(t, s[b]);
        let fi = first_index_of(t, s[b]);
        if 0 <= fi < t.len() {
            let sub = greedy_chain(s.skip(b + 1), t.skip(fi + 1));
            lemma_greedy_chain_common(s.skip(b + 1), t.skip(fi + 1));
            lemma_singleton_subsequence(s, b);
            lemma_concat_subsequence(seq![s[b]], sub, s, b + 1);
            lemma_singleton_subsequence(t, fi);
            assert(seq![t[fi]] =~= seq![s[b]]);
            lemma_concat_subsequence(seq![s[b]], sub, t, fi + 1);
        }
    }
}

/// The greedy heuristic never beats the exact engine.
pub proof fn lemma_greedy_le_exact(s: Seq<u8>, t: Seq<u8>)
    ensures
        greedy_chain(s, t).len() <= lcs_len(s, t),
{
    lemma_greedy_chain_common(s, t);
    lemma_common_subsequence_le_lcs(greedy_chain(s, t), s, t);
}

/// On identical inputs the greedy chain is the input itself: the very first
/// pair always has offset sum zero, which nothing can tie or beat.
pub proof fn lemma_greedy_chain_identical(s: Seq<u8>)
    ensures
        greedy_chain(s, s) == s,
    decreases s.len(),
{
    if s.len() == 0 {
        assert(greedy_chain(s, s) =~= s);
    } else {
        lemma_best_match_upto(s, s, s.len() as int);
        lemma_first_index_of(s, s[0]);
        assert(s.first() == s[0]);
        assert(first_index_of(s, s[0]) == 0);
        assert(is_match_at(s, s, 0));
        let b = best_match(s, s);
        assert(b != -1);
        lemma_first_index_of(s, s[b]);
        assert(pair_sum(s, s, b) <= pair_sum(s, s, 0));
        assert(pair_sum(s, s, 0) == 0);
        assert(b == 0);
        lemma_greedy_chain_identical(s.skip(1));
        assert(greedy_chain(s, s) == seq![s[0]] + greedy_chain(s.skip(1), s.skip(1)));
        assert(seq![s[0]] + s.skip(1) =~= s);
    }
}

/// Source offsets of all matches among positions `0..n` tied for the
/// smallest offset sum, in increasing order; a strictly smaller sum clears
/// the list, an equal one extends it.
pub open spec fn tied_best_upto(s: Seq<u8>, t: Seq<u8>, n: int) -> Seq<int>
    decreases n,
{
    if n <= 0 {
        Seq::empty()
    } else {
        let prev = tied_best_upto(s, t, n - 1);
        if !is_match_at(s, t, n - 1) {
            prev
        } else if prev.len() == 0 {
            seq![n - 1]
        } else if pair_sum(s, t, n - 1) < pair_sum(s, t, prev.last()) {
            seq![n - 1]
        } else if pair_sum(s, t, n - 1) == pair_sum(s, t, prev.last()) {
            prev.push(n - 1)
        } else {
            prev
        }
    }
}

/// All tied minimal matches of the full scan.
pub open spec fn tied_best(s: Seq<u8>, t: Seq<u8>) -> Seq<int> {
    tied_best_upto(s, t, s.len() as int)
}

/// The tied list cannot hold more entries than positions scanned.
pub proof fn lemma_tied_best_upto_len(s: Seq<u8>, t: Seq<u8>, n: int)
    requires
        n >= 0,
    ensures
        tied_best_upto(s, t, n).len() <= n,
    decreases n,
{
    if n > 0 {
        lemma_tied_best_upto_len(s, t, n - 1);
    }
}

/// What the tied list holds: exactly the matching positions below `n` whose
/// offset sum equals the minimum, in increasing order.
pub proof fn lemma_tied_best_upto(s: Seq<u8>, t: Seq<u8>, n: int)
    requires
        0 <= n <= s.len(),
    ensures
        tied_best_upto(s, t, n).len() == 0 ==> forall|i: int|
            0 <= i < n ==> !is_match_at(s, t, i),
        tied_best_upto(s, t, n).len() > 0 ==> {
            let tied = tied_best_upto(s, t, n);
            &&& forall|k: int|
                0 <= k < tied.len() ==> is_match_at(s, t, #[trigger] tied[k]) && 0 <= tied[k] < n
                    && pair_sum(s, t, tied[k]) == pair_sum(s, t, tied.last())
            &&& forall|k1: int, k2: int| 0 <= k1 < k2 < tied.len() ==> tied[k1] < tied[k2]
            &&& forall|i: int|
                0 <= i < n && is_match_at(s, t, i) ==> pair_sum(s, t, #[trigger] tied.last())
                    <= pair_sum(s, t, i)
            &&& forall|i: int|
                0 <= i < n && is_match_at(s, t, i) && pair_sum(s, t, i) == pair_sum(
                    s,
                    t,
                    tied.last(),
                ) ==> tied.contains(i)
        },
    decreases n,
{
    if n > 0 {
        lemma_tied_best_upto(s, t, n - 1);
        let prev = tied_best_upto(s, t, n - 1);
        let tied = tied_best_upto(s, t, n);
        if is_match_at(s, t, n - 1) {
            if prev.len() == 0 || pair_sum(s, t, n - 1) < pair_sum(s, t, prev.last()) {
                assert forall|i: int|
                    0 <= i < n && is_match_at(s, t, i) && pair_sum(s, t, i) == pair_sum(
                        s,
                        t,
                        tied.last(),
                    ) implies tied.contains(i) by {
                    assert(i == n - 1);
                    assert(tied[0] == n - 1);
                }
            } else if pair_sum(s, t, n - 1) == pair_sum(s, t, prev.last()) {
                assert(tied.last() == n - 1);
                assert forall|k: int|
                    0 <= k < tied.len() implies is_match_at(s, t, #[trigger] tied[k]) && 0
                    <= tied[k] < n && pair_sum(s, t, tied[k]) == pair_sum(s, t, tied.last()) by {
                    if k < prev.len() {
                        assert(tied[k] == prev[k]);
                    }
                }
                assert forall|i: int|
                    0 <= i < n && is_match_at(s, t, i) && pair_sum(s, t, i) == pair_sum(
                        s,
                        t,
                        tied.last(),
                    ) implies tied.contains(i) by {
                    if i == n - 1 {
                        assert(tied[tied.len() - 1] == i);
                    } else {
                        assert(prev.contains(i));
                        let k = choose|k: int| 0 <= k < prev.len() && prev[k] == i;
                        assert(tied[k] == i);
                    }
                }
            } else {
                assert forall|i: int|
                    0 <= i < n && is_match_at(s, t, i) && pair_sum(s, t, i) == pair_sum(
                        s,
                        t,
                        tied.last(),
                    ) implies tied.contains(i) by {
                    assert(i != n - 1);
                }
            }
        }
    }
}

/// Once the scan position has passed the minimal sum found so far, later
/// positions cannot change the tied list.
pub proof fn lemma_tied_best_stable(s: Seq<u8>, t: Seq<u8>, n: int, m: int)
    requires
        0 <= n <= m <= s.len(),
        tied_best_upto(s, t, n).len() > 0,
        n > pair_sum(s, t, tied_best_upto(s, t, n).last()),
    ensures
        tied_best_upto(s, t, m) == tied_best_upto(s, t, n),
    decreases m,
{
    if m > n {
        lemma_tied_best_stable(s, t, n, m - 1);
        if is_match_at(s, t, m - 1) {
            lemma_first_index_of(t, s[m - 1]);
        }
    }
}

/// The chain-search answer over an explicit candidate list: each candidate
/// spawns a recursive search on its suffixes, and the longest resulting
/// chain wins, the later candidate on ties.
pub open spec fn chain_best(s: Seq<u8>, t: Seq<u8>, cands: Seq<int>) -> Seq<u8>
    decreases s.len(), cands.len(),
{
    if cands.len() == 0 {
        Seq::empty()
    } else {
        let rest = chain_best(s, t, cands.drop_last());
        let i = cands.last();
        if i < 0 || i >= s.len() {
            rest
        } else {
            let fi = first_index_of(t, s[i]);
            if fi < 0 || fi >= t.len() {
                rest
            } else {
                let sub = seq![s[i]] + chain_search(s.skip(i + 1), t.skip(fi + 1));
                if sub.len() >= rest.len() {
                    sub
                } else {
                    rest
                }
            }
        }
    }
}

/// The chain the exhaustive tied-candidate search produces: explore every
/// match tied for the minimal offset sum, recurse, keep the longest chain.
pub open spec fn chain_search(s: Seq<u8>, t: Seq<u8>) -> Seq<u8>
    decreases s.len(), s.len() + 1,
    via chain_search_decreases
{
    chain_best(s, t, tied_best(s, t))
}

#[via_fn]
proof fn chain_search_decreases(s: Seq<u8>, t: Seq<u8>) {
    lemma_tied_best_upto_len(s, t, s.len() as int);
}

/// Whatever candidate list it is given, the chain-search answer is a common
/// subsequence of the two inputs.
pub proof fn lemma_chain_best_common(s: Seq<u8>, t: Seq<u8>, cands: Seq<int>)
    ensures
        is_common_subsequence(chain_best(s, t, cands), s, t),
    decreases s.len(), cands.len(),
{
    if cands.len() == 0 {
    } else {
        lemma_chain_best_common(s, t, cands.drop_last());
        let i = cands.last();
        if 0 <= i < s.len() {
            let fi = first_index_of(t, s[i]);
            if 0 <= fi < t.len() {
                lemma_first_index_of(t, s[i]);
                let sub = chain_search(s.skip(i + 1), t.skip(fi + 1));
                lemma_tied_best_upto_len(s.skip(i + 1), t.skip(fi + 1), s.skip(i + 1).len() as int);
                lemma_chain_search_common(s.skip(i + 1), t.skip(fi + 1));
                lemma_singleton_subsequence(s, i);
                lemma_concat_subsequence(seq![s[i]], sub, s, i + 1);
                lemma_singleton_subsequence(t, fi);
                assert(seq![t[fi]] =~= seq![s[i]]);
                lemma_concat_subsequence(seq![s[i]], sub, t, fi + 1);
            }
        }
    }
}

/// The chain-search result is a common subsequence of its two inputs.
pub proof fn lemma_chain_search_common(s: Seq<u8>, t: Seq<u8>)
    ensures
        is_common_subsequence(chain_search(s, t), s, t),
    decreases s.len(), s.len() + 1,
{
    lemma_tied_best_upto_len(s, t, s.len() as int);
    lemma_chain_best_common(s, t, tied_best(s, t));
}

/// The chain-search heuristic never beats the exact engine either: only
/// offset-minimal first picks are ever explored, so it can fall short, but
/// its answer is still a common subsequence.
pub proof fn lemma_chain_search_le_exact(s: Seq<u8>, t: Seq<u8>)
    ensures
        chain_search(s, t).len() <= lcs_len(s, t),
{
    lemma_chain_search_common(s, t);
    lemma_common_subsequence_le_lcs(chain_search(s, t), s, t);
}

/// On identical inputs the only tied minimal match is the first position.
proof fn lemma_tied_best_identical_upto(s: Seq<u8>, n: int)
    requires
        s.len() > 0,
        1 <= n <= s.len(),
    ensures
        tied_best_upto(s, s, n) == seq![0int],
    decreases n,
{
    lemma_first_index_of(s, s[0]);
    assert(s.first() == s[0]);
    assert(first_index_of(s, s[0]) == 0);
    assert(is_match_at(s, s, 0));
    if n == 1 {
        assert(tied_best_upto(s, s, 0) == Seq::<int>::empty());
        assert(tied_best_upto(s, s, 1) =~= seq![0int]);
    } else {
        lemma_tied_best_identical_upto(s, n - 1);
        if is_match_at(s, s, n - 1) {
            lemma_first_index_of(s, s[n - 1]);
            assert(pair_sum(s, s, n - 1) >= n - 1 > 0);
            assert(pair_sum(s, s, seq![0int].last()) == 0);
        }
    }
}

/// On identical inputs the chain search also reproduces the input.
pub proof fn lemma_chain_search_identical(s: Seq<u8>)
    ensures
        chain_search(s, s) == s,
    decreases s.len(),
{
    lemma_tied_best_upto_len(s, s, s.len() as int);
    if s.len() == 0 {
        assert(tied_best(s, s) == Seq::<int>::empty());
        assert(chain_search(s, s) =~= s);
    } else {
        lemma_tied_best_identical_upto(s, s.len() as int);
        lemma_first_index_of(s, s[0]);
        assert(s.first() == s[0]);
        assert(first_index_of(s, s[0]) == 0);
        lemma_chain_search_identical(s.skip(1));
        assert(seq![0int].drop_last() =~= Seq::<int>::empty());
        assert(chain_best(s, s, Seq::<int>::empty()) == Seq::<u8>::empty());
        assert(chain_best(s, s, seq![0int]) == seq![s[0]] + chain_search(s.skip(1), s.skip(1)));
        assert(seq![s[0]] + s.skip(1) =~= s);
    }
}

} // verus!
