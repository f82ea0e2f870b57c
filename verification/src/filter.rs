//! Narrow-counter look-up tables: frequency and position tables whose
//! entries fit in `u16` and `u8`, for inputs short enough for those widths,
//! and symbol filtering built on them.

use crate::utilities::{
    count_of, lemma_count_of_contains, lemma_count_of_le_len, lemma_count_of_take_step,
    lemma_positions_of_take_step, lemma_shared_filter_take_step, positions_of, shared_filter,
};
use vstd::prelude::*;

verus! {

/// The rows of a narrow position table and their mathematical counterpart
/// hold the same indices.
pub open spec fn byte_positions_match(row: Seq<u8>, ps: Seq<usize>) -> bool {
    &&& row.len() == ps.len()
    &&& forall|k: int| 0 <= k < ps.len() ==> (#[trigger] row[k]) as usize == ps[k]
}

/// Occurrence counts of each symbol value, in `u16` counters; the input must
/// be short enough that no counter can overflow.
pub fn count_lut(slice: &[u8]) -> (r: Vec<u16>)
    requires
        slice@.len() <= u16::MAX,
    ensures
        r@.len() == crate::UNIQUE_VALUES,
        forall|v: int| 0 <= v < crate::UNIQUE_VALUES ==> (#[trigger] r@[v]) == count_of(
            slice@,
            v as u8,
        ),
{
    let mut lut: Vec<u16> = vec![0u16; crate::UNIQUE_VALUES];
    let n = slice.len();
    let mut i: usize = 0;
    proof {
        assert(slice@.take(0) =~= Seq::<u8>::empty());
    }
    while i < n
        invariant
            n == slice@.len() <= u16::MAX,
            0 <= i <= n,
            lut@.len() == crate::UNIQUE_VALUES,
            forall|v: int| 0 <= v < crate::UNIQUE_VALUES ==> (#[trigger] lut@[v]) == count_of(
                slice@.take(i as int),
                v as u8,
            ),
        decreases n - i,
    {
        let idx = slice[i] as usize;
        proof {
            lemma_count_of_le_len(slice@.take(i as int), slice@[i as int]);
        }
        let c = lut[idx];
        lut.set(idx, c + 1);
        proof {
            assert forall|v: int| 0 <= v < crate::UNIQUE_VALUES implies (#[trigger] lut@[v])
                == count_of(slice@.take(i + 1), v as u8) by {
                lemma_count_of_take_step(slice@, i as int, v as u8);
            }
        }
        i += 1;
    }
    proof {
        assert(slice@.take(n as int) =~= slice@);
    }
    lut
}

/// Position lists of each symbol value, with positions stored as `u8`; the
/// input must be short enough for every position to fit.
pub fn index_lut(slice: &[u8]) -> (r: Vec<Vec<u8>>)
    requires
        slice@.len() <= crate::UNIQUE_VALUES,
    ensures
        r@.len() == crate::UNIQUE_VALUES,
        forall|v: int|
            0 <= v < crate::UNIQUE_VALUES ==> byte_positions_match(
                (#[trigger] r@[v])@,
                positions_of(slice@, v as u8),
            ),
{
    let mut lut: Vec<Vec<u8>> = Vec::new();
    let mut j: usize = 0;
    while j < crate::UNIQUE_VALUES
        invariant
            0 <= j <= crate::UNIQUE_VALUES,
            lut@.len() == j,
            forall|v: int| 0 <= v < j ==> (#[trigger] lut@[v])@.len() == 0,
        decreases crate::UNIQUE_VALUES - j,
    {
        lut.push(Vec::new());
        j += 1;
    }
    let n = slice.len();
    let mut i: usize = 0;
    proof {
        assert(slice@.take(0) =~= Seq::<u8>::empty());
    }
    while i < n
        invariant
            n == slice@.len() <= crate::UNIQUE_VALUES,
            0 <= i <= n,
            lut@.len() == crate::UNIQUE_VALUES,
            forall|v: int|
                0 <= v < crate::UNIQUE_VALUES ==> byte_positions_match(
                    (#[trigger] lut@[v])@,
                    positions_of(slice@.take(i as int), v as u8),
                ),
        decreases n - i,
    {
        let idx = slice[i] as usize;
        lut[idx].push(i as u8);
        proof {
            assert forall|v: int| 0 <= v < crate::UNIQUE_VALUES implies byte_positions_match(
                (#[trigger] lut@[v])@,
                positions_of(slice@.take(i + 1), v as u8),
            ) by {
                lemma_positions_of_take_step(slice@, i as int, v as u8);
            }
        }
        i += 1;
    }
    proof {
        assert(slice@.take(n as int) =~= slice@);
    }
    lut
}

/// Keeps the symbols of `slice` that occur at least once in `other`,
/// preserving order and duplicates, counting with the narrow table.
pub fn filter_non_occuring(slice: &[u8], other: &[u8]) -> (r: Vec<u8>)
    requires
        other@.len() <= u16::MAX,
    ensures
        r@ == shared_filter(slice@, other@),
{
    let other_count_lut = count_lut(other);
    let mut result: Vec<u8> = Vec::new();
    let n = slice.len();
    let mut i: usize = 0;
    proof {
        assert(slice@.take(0) =~= Seq::<u8>::empty());
    }
    while i < n
        invariant
            n == slice@.len(),
            0 <= i <= n,
            other_count_lut@.len() == crate::UNIQUE_VALUES,
            forall|v: int|
                0 <= v < crate::UNIQUE_VALUES ==> (#[trigger] other_count_lut@[v]) == count_of(
                    other@,
                    v as u8,
                ),
            result@ == shared_filter(slice@.take(i as int), other@),
        decreases n - i,
    {
        let item = slice[i];
        proof {
            lemma_count_of_contains(other@, slice@[i as int]);
            lemma_shared_filter_take_step(slice@, other@, i as int);
        }
        if other_count_lut[item as usize] != 0 {
            result.push(item);
        }
        i += 1;
    }
    proof {
        assert(slice@.take(n as int) =~= slice@);
    }
    result
}

} // verus!
