//! Bounded-alphabet look-up utilities shared by the LCS engines, and the
//! compressed ragged-matrix container.

pub mod csr_matrix;

use crate::offset_spec::{first_index_of, lemma_first_index_of};
use vstd::prelude::*;

verus! {

/// Number of occurrences of `v` in `s`.
pub open spec fn count_of<T>(s: Seq<T>, v: T) -> nat
    decreases s.len(),
{
    if s.len() == 0 {
        0
    } else if s.last() == v {
        count_of(s.drop_last(), v) + 1
    } else {
        count_of(s.drop_last(), v)
    }
}

/// Indices at which `v` occurs in `s`, in increasing order.
pub open spec fn positions_of<T>(s: Seq<T>, v: T) -> Seq<usize>
    decreases s.len(),
{
    if s.len() == 0 {
        Seq::empty()
    } else if s.last() == v {
        positions_of(s.drop_last(), v).push((s.len() - 1) as usize)
    } else {
        positions_of(s.drop_last(), v)
    }
}

/// Every recorded position is a valid index holding the value, and the list
/// is strictly increasing.
pub proof fn lemma_positions_of_props<T>(s: Seq<T>, v: T)
    requires
        s.len() <= usize::MAX,
    ensures
        forall|k: int|
            0 <= k < positions_of(s, v).len() ==> (#[trigger] positions_of(s, v)[k]) < s.len()
                && s[positions_of(s, v)[k] as int] == v,
        forall|k1: int, k2: int|
            0 <= k1 < k2 < positions_of(s, v).len() ==> positions_of(s, v)[k1] < positions_of(
                s,
                v,
            )[k2],
    decreases s.len(),
{
    if s.len() > 0 {
        lemma_positions_of_props(s.drop_last(), v);
        let ps = positions_of(s, v);
        let prev = positions_of(s.drop_last(), v);
        assert forall|k: int|
            0 <= k < ps.len() implies (#[trigger] ps[k]) < s.len() && s[ps[k] as int] == v by {
            if k < prev.len() {
                assert(prev[k] < s.drop_last().len());
                assert(s.drop_last()[prev[k] as int] == s[prev[k] as int]);
            }
        }
    }
}

/// The elements of `s` whose value occurs in `other`, kept in order,
/// duplicates included.
pub open spec fn shared_filter<T>(s: Seq<T>, other: Seq<T>) -> Seq<T>
    decreases s.len(),
{
    if s.len() == 0 {
        Seq::empty()
    } else if other.contains(s.last()) {
        shared_filter(s.drop_last(), other).push(s.last())
    } else {
        shared_filter(s.drop_last(), other)
    }
}

/// A value's count never exceeds the sequence length.
pub proof fn lemma_count_of_le_len<T>(s: Seq<T>, v: T)
    ensures
        count_of(s, v) <= s.len(),
    decreases s.len(),
{
    if s.len() > 0 {
        lemma_count_of_le_len(s.drop_last(), v);
    }
}

/// A value occurs if and only if its count is positive.
pub proof fn lemma_count_of_contains<T>(s: Seq<T>, v: T)
    ensures
        (count_of(s, v) > 0) == s.contains(v),
    decreases s.len(),
{
    if s.len() == 0 {
        assert(!s.contains(v));
    } else {
        lemma_count_of_contains(s.drop_last(), v);
        if s.last() == v {
            assert(s.contains(v));
        } else {
            if s.drop_last().contains(v) {
                let i = choose|i: int| 0 <= i < s.drop_last().len() && s.drop_last()[i] == v;
                assert(s[i] == v);
            }
            if s.contains(v) {
                let i = choose|i: int| 0 <= i < s.len() && s[i] == v;
                assert(s.drop_last()[i] == v);
            }
        }
    }
}

/// Scanning one more element extends the count by one exactly on a match.
pub proof fn lemma_count_of_take_step<T>(s: Seq<T>, i: int, v: T)
    requires
        0 <= i < s.len(),
    ensures
        count_of(s.take(i + 1), v) == count_of(s.take(i), v) + if s[i] == v {
            1int
        } else {
            0int
        },
{
    assert(s.take(i + 1).drop_last() =~= s.take(i));
    assert(s.take(i + 1).last() == s[i]);
}

/// Scanning one more element appends its index to the position list exactly
/// on a match.
pub proof fn lemma_positions_of_take_step<T>(s: Seq<T>, i: int, v: T)
    requires
        0 <= i < s.len(),
    ensures
        positions_of(s.take(i + 1), v) == if s[i] == v {
            positions_of(s.take(i), v).push(i as usize)
        } else {
            positions_of(s.take(i), v)
        },
{
    assert(s.take(i + 1).drop_last() =~= s.take(i));
    assert(s.take(i + 1).last() == s[i]);
}

/// Filtering one more element appends it exactly when it is shared.
pub proof fn lemma_shared_filter_take_step<T>(s: Seq<T>, other: Seq<T>, i: int)
    requires
        0 <= i < s.len(),
    ensures
        shared_filter(s.take(i + 1), other) == if other.contains(s[i]) {
            shared_filter(s.take(i), other).push(s[i])
        } else {
            shared_filter(s.take(i), other)
        },
{
    assert(s.take(i + 1).drop_last() =~= s.take(i));
    assert(s.take(i + 1).last() == s[i]);
}

/// Largest value in a non-empty sequence; zero for the empty one.
pub open spec fn max_value(s: Seq<usize>) -> int
    decreases s.len(),
{
    if s.len() == 0 {
        0
    } else if s.len() == 1 {
        s[0] as int
    } else if s.last() as int >= max_value(s.drop_last()) {
        s.last() as int
    } else {
        max_value(s.drop_last())
    }
}

/// Every element is bounded by the maximum, which is itself a `usize` value.
pub proof fn lemma_max_value_ge(s: Seq<usize>)
    ensures
        forall|k: int| 0 <= k < s.len() ==> (#[trigger] s[k]) as int <= max_value(s),
        0 <= max_value(s) <= usize::MAX,
    decreases s.len(),
{
    if s.len() > 1 {
        lemma_max_value_ge(s.drop_last());
        assert forall|k: int| 0 <= k < s.len() implies (#[trigger] s[k]) as int <= max_value(
            s,
        ) by {
            if k < s.len() - 1 {
                assert(s.drop_last()[k] == s[k]);
            }
        }
    }
}

/// Scanning one more element replaces the maximum exactly when it is larger.
pub proof fn lemma_max_value_take_step(s: Seq<usize>, i: int)
    requires
        1 <= i < s.len(),
    ensures
        max_value(s.take(i + 1)) == if s[i] as int >= max_value(s.take(i)) {
            s[i] as int
        } else {
            max_value(s.take(i))
        },
{
    assert(s.take(i + 1).drop_last() =~= s.take(i));
    assert(s.take(i + 1).last() == s[i]);
}

/// Every index holding the value is recorded.
pub proof fn lemma_positions_of_complete<T>(s: Seq<T>, v: T, q: usize)
    requires
        s.len() <= usize::MAX,
        q < s.len(),
        s[q as int] == v,
    ensures
        positions_of(s, v).contains(q),
    decreases s.len(),
{
    if q == s.len() - 1 {
        assert(s.last() == v);
        assert(positions_of(s, v).last() == q);
    } else {
        lemma_positions_of_complete(s.drop_last(), v, q);
        let prev = positions_of(s.drop_last(), v);
        let i = choose|i: int| 0 <= i < prev.len() && prev[i] == q;
        assert(positions_of(s, v)[i] == q);
    }
}

/// A value is kept by the filter exactly when both sequences hold it.
pub proof fn lemma_shared_filter_membership<T>(s: Seq<T>, other: Seq<T>, x: T)
    ensures
        shared_filter(s, other).contains(x) <==> (s.contains(x) && other.contains(x)),
    decreases s.len(),
{
    if s.len() == 0 {
        assert(!s.contains(x));
    } else {
        lemma_shared_filter_membership(s.drop_last(), other, x);
        let prev = shared_filter(s.drop_last(), other);
        let whole = shared_filter(s, other);
        if other.contains(s.last()) {
            // whole == prev.push(s.last())
            if whole.contains(x) {
                let i = choose|i: int| 0 <= i < whole.len() && whole[i] == x;
                if i < prev.len() {
                    assert(prev[i] == x);
                    assert(prev.contains(x));
                    let j = choose|j: int|
                        0 <= j < s.drop_last().len() && s.drop_last()[j] == x;
                    assert(s[j] == x);
                } else {
                    assert(x == s.last());
                    assert(s[s.len() - 1] == x);
                }
                assert(s.contains(x));
            }
            if s.contains(x) && other.contains(x) {
                let j = choose|j: int| 0 <= j < s.len() && s[j] == x;
                if j < s.len() - 1 {
                    assert(s.drop_last()[j] == x);
                    assert(s.drop_last().contains(x));
                    let i = choose|i: int| 0 <= i < prev.len() && prev[i] == x;
                    assert(whole[i] == x);
                } else {
                    assert(whole.last() == x);
                }
                assert(whole.contains(x));
            }
        } else {
            // whole == prev
            if whole.contains(x) {
                assert(prev.contains(x));
                let j = choose|j: int| 0 <= j < s.drop_last().len() && s.drop_last()[j] == x;
                assert(s[j] == x);
                assert(s.contains(x));
            }
            if s.contains(x) && other.contains(x) {
                let j = choose|j: int| 0 <= j < s.len() && s[j] == x;
                if j == s.len() - 1 {
                    // x is the last element, but the filter dropped it, so
                    // `other` cannot hold it: contradiction with the case
                    assert(s.last() == x);
                    assert(false);
                } else {
                    assert(s.drop_last()[j] == x);
                    assert(s.drop_last().contains(x));
                }
            }
        }
    }
}

/// The flattened rows hold a value exactly when some row holds it.
pub proof fn lemma_flatten_membership<T>(rows: Seq<Seq<T>>, x: T)
    ensures
        rows.flatten().contains(x) <==> exists|v: int|
            0 <= v < rows.len() && (#[trigger] rows[v]).contains(x),
    decreases rows.len(),
{
    if rows.len() == 0 {
        assert(!rows.flatten().contains(x));
    } else {
        let head = rows.first();
        let tail = rows.drop_first();
        lemma_flatten_membership(tail, x);
        assert(rows.flatten() == head + tail.flatten());
        if rows.flatten().contains(x) {
            let i = choose|i: int| 0 <= i < rows.flatten().len() && rows.flatten()[i] == x;
            if i < head.len() {
                assert(head[i] == x);
                assert(rows[0].contains(x));
            } else {
                assert(tail.flatten()[i - head.len()] == x);
                assert(tail.flatten().contains(x));
                let v = choose|v: int| 0 <= v < tail.len() && (#[trigger] tail[v]).contains(x);
                assert(rows[v + 1] == tail[v]);
                assert(rows[v + 1].contains(x));
            }
        }
        if exists|v: int| 0 <= v < rows.len() && (#[trigger] rows[v]).contains(x) {
            let v = choose|v: int| 0 <= v < rows.len() && (#[trigger] rows[v]).contains(x);
            if v == 0 {
                let i = choose|i: int| 0 <= i < head.len() && head[i] == x;
                assert(rows.flatten()[i] == x);
            } else {
                assert(tail[v - 1] == rows[v]);
                assert(tail.flatten().contains(x));
                let i = choose|i: int| 0 <= i < tail.flatten().len() && tail.flatten()[i] == x;
                assert(rows.flatten()[head.len() + i] == x);
            }
            assert(rows.flatten().contains(x));
        }
    }
}

/// A bound on every element of every row bounds every element of the
/// flattened rows.
pub proof fn lemma_flatten_elements_lt(rows: Seq<Seq<usize>>, bound: usize)
    requires
        forall|v: int, j: int|
            0 <= v < rows.len() && 0 <= j < rows[v].len() ==> (#[trigger] rows[v][j]) < bound,
    ensures
        forall|k: int|
            0 <= k < rows.flatten().len() ==> (#[trigger] rows.flatten()[k]) < bound,
    decreases rows.len(),
{
    if rows.len() > 0 {
        let head = rows.first();
        let tail = rows.drop_first();
        assert(head == rows[0]);
        assert(forall|v: int, j: int|
            0 <= v < tail.len() && 0 <= j < tail[v].len() ==> tail[v][j] == rows[v + 1][j]);
        lemma_flatten_elements_lt(tail, bound);
        assert(rows.flatten() == head + tail.flatten());
        assert forall|k: int|
            0 <= k < rows.flatten().len() implies (#[trigger] rows.flatten()[k]) < bound by {
            if k < head.len() {
                assert(rows.flatten()[k] == head[k]);
            } else {
                assert(rows.flatten()[k] == tail.flatten()[k - head.len()]);
            }
        }
    }
}

/// Nothing is shared with an empty sequence.
pub proof fn lemma_shared_filter_empty_other<T>(s: Seq<T>)
    ensures
        shared_filter(s, Seq::<T>::empty()) == Seq::<T>::empty(),
    decreases s.len(),
{
    if s.len() > 0 {
        lemma_shared_filter_empty_other(s.drop_last());
        assert(!Seq::<T>::empty().contains(s.last()));
    }
}

/// Occurrence counts of each symbol value of a byte sequence, as a table of
/// `UNIQUE_VALUES` counters.
pub fn counts(slice: &[u8]) -> (r: Vec<usize>)
    ensures
        r@.len() == crate::UNIQUE_VALUES,
        forall|v: int| 0 <= v < crate::UNIQUE_VALUES ==> (#[trigger] r@[v]) == count_of(
            slice@,
            v as u8,
        ),
{
    let mut lut: Vec<usize> = vec![0usize; crate::UNIQUE_VALUES];
    let n = slice.len();
    let mut i: usize = 0;
    proof {
        assert(slice@.take(0) =~= Seq::<u8>::empty());
    }
    while i < n
        invariant
            n == slice@.len(),
            0 <= i <= n,
            lut@.len() == crate::UNIQUE_VALUES,
            forall|v: int| 0 <= v < crate::UNIQUE_VALUES ==> (#[trigger] lut@[v]) == count_of(
                slice@.take(i as int),
                v as u8,
            ),
        decreases n - i,
    {
        let idx = slice[i] as usize;
        proof {
            lemma_count_of_le_len(slice@.take(i as int), slice@[i as int]);
        }
        let c = lut[idx];
        lut.set(idx, c + 1);
        proof {
            assert forall|v: int| 0 <= v < crate::UNIQUE_VALUES implies (#[trigger] lut@[v])
                == count_of(slice@.take(i + 1), v as u8) by {
                lemma_count_of_take_step(slice@, i as int, v as u8);
            }
        }
        i += 1;
    }
    proof {
        assert(slice@.take(n as int) =~= slice@);
    }
    lut
}

/// Position lists of each symbol value of a byte sequence: row `v` holds the
/// indices at which `v` occurs, in increasing order.
pub fn indexes(slice: &[u8]) -> (r: Vec<Vec<usize>>)
    ensures
        r@.len() == crate::UNIQUE_VALUES,
        forall|v: int|
            0 <= v < crate::UNIQUE_VALUES ==> (#[trigger] r@[v])@ == positions_of(
                slice@,
                v as u8,
            ),
{
    let mut lut: Vec<Vec<usize>> = Vec::new();
    let mut j: usize = 0;
    while j < crate::UNIQUE_VALUES
        invariant
            0 <= j <= crate::UNIQUE_VALUES,
            lut@.len() == j,
            forall|v: int| 0 <= v < j ==> (#[trigger] lut@[v])@.len() == 0,
        decreases crate::UNIQUE_VALUES - j,
    {
        lut.push(Vec::new());
        j += 1;
    }
    let n = slice.len();
    let mut i: usize = 0;
    proof {
        assert(slice@.take(0) =~= Seq::<u8>::empty());
    }
    while i < n
        invariant
            n == slice@.len(),
            0 <= i <= n,
            lut@.len() == crate::UNIQUE_VALUES,
            forall|v: int|
                0 <= v < crate::UNIQUE_VALUES ==> (#[trigger] lut@[v])@ == positions_of(
                    slice@.take(i as int),
                    v as u8,
                ),
        decreases n - i,
    {
        let idx = slice[i] as usize;
        lut[idx].push(i);
        proof {
            assert forall|v: int| 0 <= v < crate::UNIQUE_VALUES implies (#[trigger] lut@[v])@
                == positions_of(slice@.take(i + 1), v as u8) by {
                lemma_positions_of_take_step(slice@, i as int, v as u8);
            }
        }
        i += 1;
    }
    proof {
        assert(slice@.take(n as int) =~= slice@);
    }
    lut
}

/// Keeps the symbols of `slice` that occur at least once in `other`,
/// preserving order and duplicates.
pub fn filter_shared(slice: &[u8], other: &[u8]) -> (r: Vec<u8>)
    ensures
        r@ == shared_filter(slice@, other@),
{
    let other_count_lut = counts(other);
    let mut result: Vec<u8> = Vec::new();
    let n = slice.len();
    let mut i: usize = 0;
    proof {
        assert(slice@.take(0) =~= Seq::<u8>::empty());
    }
    while i < n
        invariant
            n == slice@.len(),
            0 <= i <= n,
            other_count_lut@.len() == crate::UNIQUE_VALUES,
            forall|v: int|
                0 <= v < crate::UNIQUE_VALUES ==> (#[trigger] other_count_lut@[v]) == count_of(
                    other@,
                    v as u8,
                ),
            result@ == shared_filter(slice@.take(i as int), other@),
        decreases n - i,
    {
        let item = slice[i];
        proof {
            lemma_count_of_contains(other@, slice@[i as int]);
            lemma_shared_filter_take_step(slice@, other@, i as int);
        }
        if other_count_lut[item as usize] != 0 {
            result.push(item);
        }
        i += 1;
    }
    proof {
        assert(slice@.take(n as int) =~= slice@);
    }
    result
}

/// Occurrence counts of each value of an index sequence, as a table sized by
/// the largest value present; empty input gives an empty table.
pub fn value_counts(slice: &[usize]) -> (r: Vec<usize>)
    requires
        forall|k: int| 0 <= k < slice@.len() ==> (#[trigger] slice@[k]) < usize::MAX,
    ensures
        slice@.len() == 0 ==> r@.len() == 0,
        slice@.len() > 0 ==> r@.len() == max_value(slice@) + 1,
        forall|v: int| 0 <= v < r@.len() ==> (#[trigger] r@[v]) == count_of(slice@, v as usize),
{
    let n = slice.len();
    if n == 0 {
        return Vec::new();
    }
    let mut max_seen: usize = slice[0];
    let mut i: usize = 1;
    proof {
        assert(slice@.take(1).len() == 1);
        assert(slice@.take(1)[0] == slice@[0]);
    }
    while i < n
        invariant
            n == slice@.len(),
            1 <= i <= n,
            forall|k: int| 0 <= k < slice@.len() ==> (#[trigger] slice@[k]) < usize::MAX,
            max_seen as int == max_value(slice@.take(i as int)),
            max_seen < usize::MAX,
        decreases n - i,
    {
        proof {
            lemma_max_value_take_step(slice@, i as int);
        }
        if slice[i] > max_seen {
            max_seen = slice[i];
        }
        i += 1;
    }
    proof {
        assert(slice@.take(n as int) =~= slice@);
        lemma_max_value_ge(slice@);
    }
    let mut lut: Vec<usize> = vec![0usize; max_seen + 1];
    let mut i: usize = 0;
    proof {
        assert(slice@.take(0) =~= Seq::<usize>::empty());
    }
    while i < n
        invariant
            n == slice@.len(),
            0 <= i <= n,
            lut@.len() == max_value(slice@) + 1 <= usize::MAX,
            forall|k: int| 0 <= k < slice@.len() ==> (#[trigger] slice@[k]) as int <= max_value(
                slice@,
            ),
            forall|v: int| 0 <= v < lut@.len() ==> (#[trigger] lut@[v]) == count_of(
                slice@.take(i as int),
                v as usize,
            ),
        decreases n - i,
    {
        let idx = slice[i];
        proof {
            lemma_count_of_le_len(slice@.take(i as int), slice@[i as int]);
        }
        let ghost prev_lut = lut@;
        let c = lut[idx];
        lut.set(idx, c + 1);
        proof {
            assert forall|v: int| 0 <= v < lut@.len() implies (#[trigger] lut@[v]) == count_of(
                slice@.take(i + 1),
                v as usize,
            ) by {
                assert(prev_lut[v] == count_of(slice@.take(i as int), v as usize));
                lemma_count_of_take_step(slice@, i as int, v as usize);
            }
        }
        i += 1;
    }
    proof {
        assert(slice@.take(n as int) =~= slice@);
    }
    lut
}

/// Keeps the indices of `slice` that occur at least once in `other`,
/// preserving order and duplicates.
pub fn filter_shared_indexes(slice: &[usize], other: &[usize]) -> (r: Vec<usize>)
    requires
        forall|k: int| 0 <= k < other@.len() ==> (#[trigger] other@[k]) < usize::MAX,
    ensures
        r@ == shared_filter(slice@, other@),
{
    if other.len() == 0 || slice.len() == 0 {
        proof {
            if other@.len() == 0 {
                assert(other@ =~= Seq::<usize>::empty());
                lemma_shared_filter_empty_other(slice@);
            }
            assert(shared_filter(slice@, other@) =~= Seq::<usize>::empty());
        }
        return Vec::new();
    }
    let other_counts = value_counts(other);
    let max_index = other_counts.len();
    let mut result: Vec<usize> = Vec::new();
    let n = slice.len();
    let mut i: usize = 0;
    proof {
        assert(slice@.take(0) =~= Seq::<usize>::empty());
        lemma_max_value_ge(other@);
    }
    while i < n
        invariant
            n == slice@.len(),
            0 <= i <= n,
            other@.len() > 0,
            max_index == other_counts@.len() == max_value(other@) + 1,
            forall|k: int| 0 <= k < other@.len() ==> (#[trigger] other@[k]) as int <= max_value(
                other@,
            ),
            forall|v: int| 0 <= v < max_index ==> (#[trigger] other_counts@[v]) == count_of(
                other@,
                v as usize,
            ),
            result@ == shared_filter(slice@.take(i as int), other@),
        decreases n - i,
    {
        let num = slice[i];
        proof {
            lemma_count_of_contains(other@, slice@[i as int]);
            lemma_shared_filter_take_step(slice@, other@, i as int);
            if other@.contains(slice@[i as int]) {
                let k = choose|k: int| 0 <= k < other@.len() && other@[k] == slice@[i as int];
                assert(other@[k] as int <= max_value(other@));
            }
        }
        if num < max_index && other_counts[num] != 0 {
            result.push(num);
        }
        i += 1;
    }
    proof {
        assert(slice@.take(n as int) =~= slice@);
    }
    result
}

/// What one order-breaking removal leaves behind: the first occurrence of
/// `v`, if any, is overwritten with the last element and the last element is
/// dropped.
pub open spec fn swap_remove_first(s: Seq<usize>, v: usize) -> Seq<usize> {
    match s.index_of_first(v) {
        Some(pos) => s.update(pos, s.last()).drop_last(),
        None => s,
    }
}

/// One such removal for each value of `vs`, applied left to right.
pub open spec fn swap_remove_all(s: Seq<usize>, vs: Seq<usize>) -> Seq<usize>
    decreases vs.len(),
{
    if vs.len() == 0 {
        s
    } else {
        swap_remove_all(swap_remove_first(s, vs.first()), vs.drop_first())
    }
}

/// Removes the first occurrence of `to_remove` by swapping it with the last
/// element and popping: amortised constant time, order-breaking.
pub fn remove_single_value_from_sorted(arr: &mut Vec<usize>, to_remove: &usize)
    ensures
        final(arr)@ == swap_remove_first(old(arr)@, *to_remove),
{
    proof {
        old(arr)@.index_of_first_ensures(*to_remove);
    }
    let n = arr.len();
    let mut j: usize = 0;
    while j < n
        invariant
            n == arr@.len(),
            arr@ == old(arr)@,
            0 <= j <= n,
            forall|k: int| 0 <= k < j ==> arr@[k] != *to_remove,
        decreases n - j,
    {
        if arr[j] == *to_remove {
            let last = arr[n - 1];
            arr.set(j, last);
            let _ = arr.pop();
            proof {
                old(arr)@.index_of_first_ensures(*to_remove);
                assert(arr@ =~= old(arr)@.update(j as int, old(arr)@.last()).drop_last());
            }
            return ;
        }
        j += 1;
    }
}

/// Removes the first occurrence of each value of `to_remove`, left to right.
pub fn remove_values_from_sorted(arr: &mut Vec<usize>, to_remove: &[usize])
    ensures
        final(arr)@ == swap_remove_all(old(arr)@, to_remove@),
{
    let n = to_remove.len();
    let mut i: usize = 0;
    proof {
        assert(to_remove@.skip(0) =~= to_remove@);
    }
    while i < n
        invariant
            n == to_remove@.len(),
            0 <= i <= n,
            swap_remove_all(arr@, to_remove@.skip(i as int)) == swap_remove_all(
                old(arr)@,
                to_remove@,
            ),
        decreases n - i,
    {
        let ghost rest = to_remove@.skip(i as int);
        proof {
            assert(rest.first() == to_remove@[i as int]);
            assert(rest.drop_first() =~= to_remove@.skip(i + 1));
        }
        remove_single_value_from_sorted(arr, &to_remove[i]);
        i += 1;
    }
    proof {
        assert(to_remove@.skip(n as int) =~= Seq::<usize>::empty());
    }
}

/// Index of the first occurrence of `value` in `target`, scanning left to
/// right, or `None` if it does not occur.
pub fn position_of(target: &[u8], value: u8) -> (r: Option<usize>)
    ensures
        match r {
            Some(j) => j as int == first_index_of(target@, value) && (j as int) < target@.len()
                && target@[j as int] == value,
            None => first_index_of(target@, value) == target@.len() && !target@.contains(value),
        },
{
    let ghost t = target@;
    let n = target.len();
    let mut j: usize = 0;
    while j < n
        invariant
            t == target@,
            n == t.len(),
            0 <= j <= n,
            forall|k: int| 0 <= k < j ==> t[k] != value,
        decreases n - j,
    {
        if target[j] == value {
            proof {
                lemma_first_index_of(t, value);
            }
            return Some(j);
        }
        j += 1;
    }
    proof {
        lemma_first_index_of(t, value);
    }
    None
}

} // verus!
