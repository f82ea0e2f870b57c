//! The decaying-count heuristic engine: it owns a mutable frequency table
//! per sequence, and at each step picks the matching pair whose consumption
//! preserves the most remaining match potential — the sum over all symbol
//! values of the smaller of the two remaining counts.

use crate::filter::count_lut;
use crate::offset_spec::{first_index_of, is_match_at, lemma_first_index_of};
use crate::lcs_spec::{
    is_common_subsequence, lcs_len, lemma_common_subsequence_le_lcs, lemma_concat_subsequence,
    lemma_singleton_subsequence, lemma_subsequence_len,
};
use crate::utilities::{count_of, lemma_count_of_take_step, position_of};
use crate::UNIQUE_VALUES;
use vstd::prelude::*;
use vstd::slice::slice_to_vec;

verus! {

/// A narrow table holds exactly the occurrence counts of a sequence.
pub open spec fn counts_model(counts: Seq<u16>, s: Seq<u8>) -> bool {
    &&& counts.len() == UNIQUE_VALUES
    &&& forall|v: int| 0 <= v < UNIQUE_VALUES ==> (#[trigger] counts[v]) == count_of(s, v as u8)
}

/// Sum over the symbol values below `v` of the smaller table entry.
pub open spec fn table_min_sum(a: Seq<u16>, b: Seq<u16>, v: int) -> int
    decreases v,
{
    if v <= 0 {
        0
    } else {
        table_min_sum(a, b, v - 1) + if a[v - 1] <= b[v - 1] {
            a[v - 1] as int
        } else {
            b[v - 1] as int
        }
    }
}

/// Sum over the symbol values below `v` of the smaller occurrence count.
pub open spec fn match_potential_upto(s: Seq<u8>, t: Seq<u8>, v: int) -> int
    decreases v,
{
    if v <= 0 {
        0
    } else {
        match_potential_upto(s, t, v - 1) + if count_of(s, (v - 1) as u8) <= count_of(
            t,
            (v - 1) as u8,
        ) {
            count_of(s, (v - 1) as u8) as int
        } else {
            count_of(t, (v - 1) as u8) as int
        }
    }
}

/// The match potential of two sequences: an upper bound on how many symbol
/// matches remain available between them.
pub open spec fn match_potential(s: Seq<u8>, t: Seq<u8>) -> int {
    match_potential_upto(s, t, UNIQUE_VALUES as int)
}

/// On modelling tables the table sum is the match potential.
pub proof fn lemma_table_min_sum_models(a: Seq<u16>, b: Seq<u16>, s: Seq<u8>, t: Seq<u8>, v: int)
    requires
        counts_model(a, s),
        counts_model(b, t),
        0 <= v <= UNIQUE_VALUES,
    ensures
        table_min_sum(a, b, v) == match_potential_upto(s, t, v),
    decreases v,
{
    if v > 0 {
        lemma_table_min_sum_models(a, b, s, t, v - 1);
    }
}

/// Splitting a sequence splits every count.
pub proof fn lemma_count_of_split<T>(s: Seq<T>, i: int, v: T)
    requires
        0 <= i <= s.len(),
    ensures
        count_of(s, v) == count_of(s.take(i), v) + count_of(s.skip(i), v),
    decreases s.len(),
{
    if i == s.len() {
        assert(s.take(i) =~= s);
        assert(s.skip(i).len() == 0);
    } else {
        lemma_count_of_split(s.drop_last(), i, v);
        assert(s.drop_last().take(i) =~= s.take(i));
        assert(s.drop_last().skip(i) =~= s.skip(i).drop_last());
        assert(s.skip(i).last() == s.last());
    }
}

/// Counts of prefixes grow with the prefix.
pub proof fn lemma_count_of_take_mono<T>(s: Seq<T>, a: int, b: int, v: T)
    requires
        0 <= a <= b <= s.len(),
    ensures
        count_of(s.take(a), v) <= count_of(s.take(b), v),
    decreases b - a,
{
    if a < b {
        lemma_count_of_take_mono(s, a, b - 1, v);
        lemma_count_of_take_step(s, b - 1, v);
    }
}

/// The potential of two suffixes is non-negative and never exceeds the
/// potential of the whole sequences.
pub proof fn lemma_potential_skip_le(s: Seq<u8>, t: Seq<u8>, i: int, j: int, v: int)
    requires
        0 <= i <= s.len(),
        0 <= j <= t.len(),
        0 <= v <= UNIQUE_VALUES,
    ensures
        0 <= match_potential_upto(s.skip(i), t.skip(j), v),
        match_potential_upto(s.skip(i), t.skip(j), v) <= match_potential_upto(s, t, v),
    decreases v,
{
    if v > 0 {
        lemma_potential_skip_le(s, t, i, j, v - 1);
        lemma_count_of_split(s, i, (v - 1) as u8);
        lemma_count_of_split(t, j, (v - 1) as u8);
    }
}

/// An empty side contributes nothing to the potential.
proof fn lemma_potential_upto_zero(s: Seq<u8>, t: Seq<u8>, v: int)
    requires
        s.len() == 0,
    ensures
        match_potential_upto(s, t, v) == 0,
    decreases v,
{
    if v > 0 {
        lemma_potential_upto_zero(s, t, v - 1);
    }
}

/// Appending one element to both sides raises the potential by exactly one,
/// once the scan covers the element's symbol value.
proof fn lemma_potential_upto_extend(s: Seq<u8>, v: int)
    requires
        s.len() > 0,
        0 <= v <= UNIQUE_VALUES,
    ensures
        match_potential_upto(s, s, v) == match_potential_upto(s.drop_last(), s.drop_last(), v)
            + if (s.last() as int) < v {
            1int
        } else {
            0int
        },
    decreases v,
{
    if v > 0 {
        lemma_potential_upto_extend(s, v - 1);
    }
}

/// On identical inputs the match potential is the whole length.
pub proof fn lemma_potential_self(s: Seq<u8>)
    ensures
        match_potential(s, s) == s.len(),
    decreases s.len(),
{
    if s.len() == 0 {
        lemma_potential_upto_zero(s, s, UNIQUE_VALUES as int);
    } else {
        lemma_potential_self(s.drop_last());
        lemma_potential_upto_extend(s, UNIQUE_VALUES as int);
    }
}

/// Pointwise, the smaller count is bounded by either side's count.
proof fn lemma_potential_upto_le(s: Seq<u8>, t: Seq<u8>, v: int)
    requires
        0 <= v,
    ensures
        match_potential_upto(s, t, v) <= match_potential_upto(s, s, v),
        match_potential_upto(s, t, v) <= match_potential_upto(t, t, v),
    decreases v,
{
    if v > 0 {
        lemma_potential_upto_le(s, t, v - 1);
    }
}

/// The potential cannot exceed either input's length.
pub proof fn lemma_potential_le_len(s: Seq<u8>, t: Seq<u8>)
    ensures
        match_potential(s, t) <= s.len(),
        match_potential(s, t) <= t.len(),
{
    lemma_potential_upto_le(s, t, UNIQUE_VALUES as int);
    lemma_potential_self(s);
    lemma_potential_self(t);
}

/// The source offset the damage scan settles on: among the matching
/// positions, the one whose consumption leaves the most match potential, the
/// rightmost on ties; `-1` when nothing below `n` matches.
pub open spec fn damage_best_upto(s: Seq<u8>, t: Seq<u8>, n: int) -> int
    decreases n,
{
    if n <= 0 {
        -1
    } else {
        let prev = damage_best_upto(s, t, n - 1);
        if !is_match_at(s, t, n - 1) {
            prev
        } else if prev == -1 {
            n - 1
        } else if remaining_potential(s, t, n - 1) >= remaining_potential(s, t, prev) {
            n - 1
        } else {
            prev
        }
    }
}

/// Match potential left after consuming the match at source position `i`
/// together with everything before it and before its target partner.
pub open spec fn remaining_potential(s: Seq<u8>, t: Seq<u8>, i: int) -> int {
    match_potential(s.skip(i + 1), t.skip(first_index_of(t, s[i]) + 1))
}

/// The damage scan over the whole source.
pub open spec fn damage_best(s: Seq<u8>, t: Seq<u8>) -> int {
    damage_best_upto(s, t, s.len() as int)
}

/// The scan result is a matching position, or `-1` exactly when no position
/// matches.
pub proof fn lemma_damage_best_upto(s: Seq<u8>, t: Seq<u8>, n: int)
    requires
        0 <= n <= s.len(),
    ensures
        damage_best_upto(s, t, n) == -1 ==> forall|i: int| 0 <= i < n ==> !is_match_at(s, t, i),
        damage_best_upto(s, t, n) != -1 ==> 0 <= damage_best_upto(s, t, n) < n && is_match_at(
            s,
            t,
            damage_best_upto(s, t, n),
        ),
    decreases n,
{
    if n > 0 {
        lemma_damage_best_upto(s, t, n - 1);
    }
}

/// The chain the damage-scan engine builds: repeatedly take the match that
/// preserves the most potential, append its symbol, continue on the
/// suffixes.
pub open spec fn damage_chain(s: Seq<u8>, t: Seq<u8>) -> Seq<u8>
    decreases s.len(),
{
    let b = damage_best(s, t);
    if b < 0 || b >= s.len() {
        Seq::empty()
    } else {
        let fi = first_index_of(t, s[b]);
        if fi < 0 || fi >= t.len() {
            Seq::empty()
        } else {
            seq![s[b]] + damage_chain(s.skip(b + 1), t.skip(fi + 1))
        }
    }
}

/// The damage chain is a common subsequence of its two inputs.
pub proof fn lemma_damage_chain_common(s: Seq<u8>, t: Seq<u8>)
    ensures
        is_common_subsequence(damage_chain(s, t), s, t),
    decreases s.len(),
{
    let b = damage_best(s, t);
    lemma_damage_best_upto(s, t, s.len() as int);
    if b < 0 || b >= s.len() {
    } else {
        lemma_first_index_of(t, s[b]);
        let fi = first_index_of(t, s[b]);
        if 0 <= fi < t.len() {
            let sub = damage_chain(s.skip(b + 1), t.skip(fi + 1));
            lemma_damage_chain_common(s.skip(b + 1), t.skip(fi + 1));
            lemma_singleton_subsequence(s, b);
            lemma_concat_subsequence(seq![s[b]], sub, s, b + 1);
            lemma_singleton_subsequence(t, fi);
            assert(seq![t[fi]] =~= seq![s[b]]);
            lemma_concat_subsequence(seq![s[b]], sub, t, fi + 1);
        }
    }
}

/// On identical inputs only the first position survives the damage scan:
/// consuming it costs one symbol, every later match costs more.
proof fn lemma_damage_best_identical_upto(s: Seq<u8>, n: int)
    requires
        s.len() > 0,
        1 <= n <= s.len(),
    ensures
        damage_best_upto(s, s, n) == 0,
    decreases n,
{
    lemma_first_index_of(s, s[0]);
    assert(s.first() == s[0]);
    assert(first_index_of(s, s[0]) == 0);
    assert(is_match_at(s, s, 0));
    if n == 1 {
        assert(damage_best_upto(s, s, 0) == -1);
    } else {
        lemma_damage_best_identical_upto(s, n - 1);
        if is_match_at(s, s, n - 1) {
            lemma_first_index_of(s, s[n - 1]);
            let fi = first_index_of(s, s[n - 1]);
            lemma_potential_self(s.skip(1));
            assert(remaining_potential(s, s, 0) == s.len() - 1);
            lemma_potential_le_len(s.skip(n), s.skip(fi + 1));
            assert(s.skip(n).len() == s.len() - n);
            assert(remaining_potential(s, s, n - 1) <= s.len() - n);
            assert(!(remaining_potential(s, s, n - 1) >= remaining_potential(s, s, 0)));
        }
    }
}

/// On identical inputs the damage chain reproduces the input.
pub proof fn lemma_damage_chain_identical(s: Seq<u8>)
    ensures
        damage_chain(s, s) == s,
    decreases s.len(),
{
    if s.len() == 0 {
        assert(damage_chain(s, s) =~= s);
    } else {
        lemma_damage_best_identical_upto(s, s.len() as int);
        lemma_first_index_of(s, s[0]);
        assert(s.first() == s[0]);
        assert(first_index_of(s, s[0]) == 0);
        lemma_damage_chain_identical(s.skip(1));
        assert(damage_chain(s, s) == seq![s[0]] + damage_chain(s.skip(1), s.skip(1)));
        assert(seq![s[0]] + s.skip(1) =~= s);
    }
}

/// With an empty input on either side the damage chain is empty.
pub proof fn lemma_damage_chain_empty(s: Seq<u8>, t: Seq<u8>)
    requires
        s.len() == 0 || t.len() == 0,
    ensures
        damage_chain(s, t) == Seq::<u8>::empty(),
{
    lemma_damage_chain_common(s, t);
    if s.len() == 0 {
        lemma_subsequence_len(damage_chain(s, t), s);
    } else {
        lemma_subsequence_len(damage_chain(s, t), t);
    }
    assert(damage_chain(s, t) =~= Seq::<u8>::empty());
}

/// The damage-scan heuristic never beats the exact engine.
pub proof fn lemma_damage_chain_le_exact(s: Seq<u8>, t: Seq<u8>)
    ensures
        damage_chain(s, t).len() <= lcs_len(s, t),
{
    lemma_damage_chain_common(s, t);
    lemma_common_subsequence_le_lcs(damage_chain(s, t), s, t);
}

/// The decaying-count engine.  It owns one mutable frequency table per
/// sequence; the tables decay as symbols are consumed.
#[derive(Debug, PartialEq, Eq)]
pub struct Alcs {
    source: Vec<u8>,
    target: Vec<u8>,
    source_counts: Vec<u16>,
    target_counts: Vec<u16>,
}

impl Alcs {
    /// The engine's tables hold the counts of the two given sequences.
    pub closed spec fn models(&self, s: Seq<u8>, t: Seq<u8>) -> bool {
        &&& counts_model(self.source_counts@, s)
        &&& counts_model(self.target_counts@, t)
    }

    /// The tables hold the counts of the sequences they were built from.
    pub open spec fn wf(&self) -> bool {
        self.models(self.src(), self.tgt())
    }

    /// The source sequence the engine was built from.
    pub closed spec fn src(&self) -> Seq<u8> {
        self.source@
    }

    /// The target sequence the engine was built from.
    pub closed spec fn tgt(&self) -> Seq<u8> {
        self.target@
    }

    pub fn new(source: &[u8], target: &[u8]) -> (r: Self)
        requires
            source@.len() <= u16::MAX,
            target@.len() <= u16::MAX,
        ensures
            r.wf(),
            r.src() == source@,
            r.tgt() == target@,
    {
        Self {
            source: slice_to_vec(source),
            target: slice_to_vec(target),
            source_counts: Self::count_lut(source),
            target_counts: Self::count_lut(target),
        }
    }

    /// Occurrence counts of each symbol value, in `u16` counters.
    pub fn count_lut(slice: &[u8]) -> (r: Vec<u16>)
        requires
            slice@.len() <= u16::MAX,
        ensures
            counts_model(r@, slice@),
    {
        count_lut(slice)
    }

    /// Sum over all symbol values of the smaller of the two counts.
    pub fn min_count_summed(source_counts: &[u16], target_counts: &[u16]) -> (r: u32)
        requires
            source_counts@.len() == UNIQUE_VALUES,
            target_counts@.len() == UNIQUE_VALUES,
        ensures
            r as int == table_min_sum(source_counts@, target_counts@, UNIQUE_VALUES as int),
    {
        let mut sum: u32 = 0;
        let mut v: usize = 0;
        while v < UNIQUE_VALUES
            invariant
                source_counts@.len() == UNIQUE_VALUES,
                target_counts@.len() == UNIQUE_VALUES,
                0 <= v <= UNIQUE_VALUES,
                sum as int == table_min_sum(source_counts@, target_counts@, v as int),
                sum <= v * 0xFFFF,
            decreases UNIQUE_VALUES - v,
        {
            let sc = source_counts[v];
            let tc = target_counts[v];
            let smaller = if sc <= tc {
                sc
            } else {
                tc
            };
            sum = sum + smaller as u32;
            v += 1;
        }
        sum
    }

    /// Subtracts from the table the counts of `slice[..end]`; the table must
    /// hold at least those counts.
    fn decrement_prefix(counts: &mut Vec<u16>, slice: &[u8], end: usize)
        requires
            old(counts)@.len() == UNIQUE_VALUES,
            end <= slice@.len(),
            forall|v: int|
                0 <= v < UNIQUE_VALUES ==> count_of(slice@.take(end as int), v as u8) <= (
                #[trigger] old(counts)@[v]),
        ensures
            final(counts)@.len() == UNIQUE_VALUES,
            forall|v: int|
                0 <= v < UNIQUE_VALUES ==> (#[trigger] final(counts)@[v]) == old(counts)@[v]
                    - count_of(slice@.take(end as int), v as u8),
    {
        let ghost start_counts = counts@;
        let mut j: usize = 0;
        proof {
            assert(slice@.take(0) =~= Seq::<u8>::empty());
        }
        while j < end
            invariant
                end <= slice@.len(),
                0 <= j <= end,
                counts@.len() == UNIQUE_VALUES,
                start_counts.len() == UNIQUE_VALUES,
                forall|v: int|
                    0 <= v < UNIQUE_VALUES ==> count_of(slice@.take(end as int), v as u8) <= (
                    #[trigger] start_counts[v]),
                forall|v: int|
                    0 <= v < UNIQUE_VALUES ==> (#[trigger] counts@[v]) == start_counts[v]
                        - count_of(slice@.take(j as int), v as u8),
            decreases end - j,
        {
            let idx = slice[j] as usize;
            proof {
                lemma_count_of_take_step(slice@, j as int, slice@[j as int]);
                lemma_count_of_take_mono(slice@, j + 1, end as int, slice@[j as int]);
            }
            let ghost prev_counts = counts@;
            let c = counts[idx];
            counts.set(idx, c - 1);
            proof {
                assert forall|v: int| 0 <= v < UNIQUE_VALUES implies (#[trigger] counts@[v])
                    == start_counts[v] - count_of(slice@.take(j + 1), v as u8) by {
                    assert(prev_counts[v] == start_counts[v] - count_of(
                        slice@.take(j as int),
                        v as u8,
                    ));
                    lemma_count_of_take_step(slice@, j as int, v as u8);
                }
            }
            j += 1;
        }
    }

    /// The matching pair whose consumption leaves the most match potential;
    /// the engine's tables must model the two slices.
    pub fn next_pair_offsets(&self, source: &[u8], target: &[u8]) -> (r: Option<(usize, usize)>)
        requires
            self.models(source@, target@),
        ensures
            match r {
                None => damage_best(source@, target@) == -1,
                Some((so, to)) => so as int == damage_best(source@, target@) && is_match_at(
                    source@,
                    target@,
                    so as int,
                ) && to as int == first_index_of(target@, source@[so as int]) && (to as int)
                    < target@.len() && source@[so as int] == target@[to as int],
            },
    {
        let ghost s = source@;
        let ghost t = target@;
        let source_len = source.len();
        let target_len = target.len();
        let default_min_count_summed = Self::min_count_summed(
            self.source_counts.as_slice(),
            self.target_counts.as_slice(),
        );
        proof {
            lemma_table_min_sum_models(
                self.source_counts@,
                self.target_counts@,
                s,
                t,
                UNIQUE_VALUES as int,
            );
        }
        let mut old_min_count_summed: u32 = 0;
        let mut pair_offsets: (usize, usize) = (source_len, target_len);
        let mut source_offset: usize = 0;
        while source_offset < source_len
            invariant
                s == source@,
                t == target@,
                source_len == s.len(),
                target_len == t.len(),
                counts_model(self.source_counts@, s),
                counts_model(self.target_counts@, t),
                default_min_count_summed as int == match_potential(s, t),
                0 <= source_offset <= source_len,
                ({
                    let b = damage_best_upto(s, t, source_offset as int);
                    if b == -1 {
                        pair_offsets == (source_len, target_len) && old_min_count_summed == 0
                    } else {
                        &&& is_match_at(s, t, b)
                        &&& pair_offsets.0 as int == b
                        &&& pair_offsets.1 as int == first_index_of(t, s[b])
                        &&& old_min_count_summed as int == remaining_potential(s, t, b)
                    }
                }),
            decreases source_len - source_offset,
        {
            let ghost prev_best = damage_best_upto(s, t, source_offset as int);
            proof {
                lemma_damage_best_upto(s, t, source_offset as int);
            }
            let source_num = source[source_offset];
            match position_of(target, source_num) {
                Some(target_offset) => {
                    let mut source_counts = slice_to_vec(self.source_counts.as_slice());
                    let mut target_counts = slice_to_vec(self.target_counts.as_slice());
                    proof {
                        assert forall|v: int| 0 <= v < UNIQUE_VALUES implies count_of(
                            s.take(source_offset + 1),
                            v as u8,
                        ) <= (#[trigger] source_counts@[v]) by {
                            lemma_count_of_split(s, source_offset + 1, v as u8);
                        }
                        assert forall|v: int| 0 <= v < UNIQUE_VALUES implies count_of(
                            t.take(target_offset + 1),
                            v as u8,
                        ) <= (#[trigger] target_counts@[v]) by {
                            lemma_count_of_split(t, target_offset + 1, v as u8);
                        }
                    }
                    Self::decrement_prefix(&mut source_counts, source, source_offset + 1);
                    Self::decrement_prefix(&mut target_counts, target, target_offset + 1);
                    proof {
                        assert forall|v: int| 0 <= v < UNIQUE_VALUES implies (
                        #[trigger] source_counts@[v]) == count_of(
                            s.skip(source_offset + 1),
                            v as u8,
                        ) by {
                            lemma_count_of_split(s, source_offset + 1, v as u8);
                        }
                        assert forall|v: int| 0 <= v < UNIQUE_VALUES implies (
                        #[trigger] target_counts@[v]) == count_of(
                            t.skip(target_offset + 1),
                            v as u8,
                        ) by {
                            lemma_count_of_split(t, target_offset + 1, v as u8);
                        }
                        lemma_table_min_sum_models(
                            source_counts@,
                            target_counts@,
                            s.skip(source_offset + 1),
                            t.skip(target_offset + 1),
                            UNIQUE_VALUES as int,
                        );
                        lemma_potential_skip_le(
                            s,
                            t,
                            source_offset + 1,
                            target_offset + 1,
                            UNIQUE_VALUES as int,
                        );
                        if prev_best != -1 {
                            lemma_first_index_of(t, s[prev_best]);
                            lemma_potential_skip_le(
                                s,
                                t,
                                prev_best + 1,
                                first_index_of(t, s[prev_best]) + 1,
                                UNIQUE_VALUES as int,
                            );
                        }
                    }
                    let new_min_count_summed = Self::min_count_summed(
                        source_counts.as_slice(),
                        target_counts.as_slice(),
                    );
                    if default_min_count_summed - new_min_count_summed <= default_min_count_summed
                        - old_min_count_summed {
                        old_min_count_summed = new_min_count_summed;
                        pair_offsets = (source_offset, target_offset);
                    }
                },
                None => {},
            }
            source_offset += 1;
        }
        proof {
            lemma_damage_best_upto(s, t, s.len() as int);
            if damage_best(s, t) != -1 {
                lemma_first_index_of(t, s[damage_best(s, t)]);
            }
        }
        if pair_offsets.0 == source_len && pair_offsets.1 == target_len {
            return None;
        }
        Some(pair_offsets)
    }

    /// Whether the decaying-count scan finds any match at all.
    pub fn is_empty(self) -> (r: bool)
        requires
            self.wf(),
        ensures
            r == (damage_chain(self.src(), self.tgt()).len() == 0),
    {
        self.len() == 0
    }

    /// Length of the chain the decaying-count scan builds.
    pub fn len(self) -> (r: usize)
        requires
            self.wf(),
        ensures
            r == damage_chain(self.src(), self.tgt()).len(),
    {
        self.subsequence().len()
    }

    /// The chain the decaying-count scan builds, consuming the chosen pair
    /// and the symbols before it at every step.
    pub fn subsequence(self) -> (r: Vec<u8>)
        requires
            self.wf(),
        ensures
            r@ == damage_chain(self.src(), self.tgt()),
    {
        let ghost s = self.source@;
        let ghost t = self.target@;
        let mut this = self;
        let source_len = this.source.len();
        let target_len = this.target.len();
        let mut last0: usize = 0;
        let mut last1: usize = 0;
        let mut lcs: Vec<u8> = Vec::new();
        proof {
            assert(s.skip(0) =~= s);
            assert(t.skip(0) =~= t);
            assert(Seq::<u8>::empty() + damage_chain(s, t) =~= damage_chain(s, t));
        }
        loop
            invariant_except_break
                s == this.source@,
                t == this.target@,
                source_len == s.len(),
                target_len == t.len(),
                0 <= last0 <= source_len,
                0 <= last1 <= target_len,
                counts_model(this.source_counts@, s.skip(last0 as int)),
                counts_model(this.target_counts@, t.skip(last1 as int)),
                damage_chain(s, t) == lcs@ + damage_chain(s.skip(last0 as int), t.skip(last1 as int)),
            ensures
                lcs@ == damage_chain(s, t),
            decreases source_len - last0,
        {
            let sub_source = &this.source.as_slice()[last0..source_len];
            let sub_target = &this.target.as_slice()[last1..target_len];
            proof {
                assert(sub_source@ =~= s.skip(last0 as int));
                assert(sub_target@ =~= t.skip(last1 as int));
            }
            match this.next_pair_offsets(sub_source, sub_target) {
                Some((source_offset, target_offset)) => {
                    let ghost ss = s.skip(last0 as int);
                    let ghost tt = t.skip(last1 as int);
                    proof {
                        lemma_first_index_of(tt, ss[source_offset as int]);
                        assert forall|v: int| 0 <= v < UNIQUE_VALUES implies count_of(
                            ss.take(source_offset + 1),
                            v as u8,
                        ) <= (#[trigger] this.source_counts@[v]) by {
                            lemma_count_of_split(ss, source_offset + 1, v as u8);
                        }
                        assert forall|v: int| 0 <= v < UNIQUE_VALUES implies count_of(
                            tt.take(target_offset + 1),
                            v as u8,
                        ) <= (#[trigger] this.target_counts@[v]) by {
                            lemma_count_of_split(tt, target_offset + 1, v as u8);
                        }
                    }
                    Self::decrement_prefix(&mut this.source_counts, sub_source, source_offset + 1);
                    Self::decrement_prefix(&mut this.target_counts, sub_target, target_offset + 1);
                    proof {
                        assert forall|v: int| 0 <= v < UNIQUE_VALUES implies (
                        #[trigger] this.source_counts@[v]) == count_of(
                            s.skip(last0 + source_offset + 1),
                            v as u8,
                        ) by {
                            lemma_count_of_split(ss, source_offset + 1, v as u8);
                            assert(ss.skip(source_offset + 1) =~= s.skip(
                                last0 + source_offset + 1,
                            ));
                        }
                        assert forall|v: int| 0 <= v < UNIQUE_VALUES implies (
                        #[trigger] this.target_counts@[v]) == count_of(
                            t.skip(last1 + target_offset + 1),
                            v as u8,
                        ) by {
                            lemma_count_of_split(tt, target_offset + 1, v as u8);
                            assert(tt.skip(target_offset + 1) =~= t.skip(
                                last1 + target_offset + 1,
                            ));
                        }
                        assert(ss.skip(source_offset + 1) =~= s.skip(last0 + source_offset + 1));
                        assert(tt.skip(target_offset + 1) =~= t.skip(last1 + target_offset + 1));
                        assert(damage_chain(ss, tt) == seq![ss[source_offset as int]]
                            + damage_chain(
                            ss.skip(source_offset + 1),
                            tt.skip(target_offset + 1),
                        ));
                    }
                    last0 = last0 + source_offset + 1;
                    last1 = last1 + target_offset + 1;
                    let ghost old_lcs = lcs@;
                    lcs.push(this.source[last0 - 1]);
                    proof {
                        assert(lcs@ =~= old_lcs + seq![s[last0 - 1]]);
                        assert((old_lcs + seq![s[last0 - 1]]) + damage_chain(
                            s.skip(last0 as int),
                            t.skip(last1 as int),
                        ) =~= old_lcs + (seq![s[last0 - 1]] + damage_chain(
                            s.skip(last0 as int),
                            t.skip(last1 as int),
                        )));
                    }
                },
                None => {
                    proof {
                        assert(damage_chain(s.skip(last0 as int), t.skip(last1 as int))
                            =~= Seq::<u8>::empty());
                        assert(lcs@ =~= lcs@ + Seq::<u8>::empty());
                    }
                    break ;
                },
            }
        }
        lcs
    }
}

} // verus!
