//! The candidate-pair engine: enumerates every index pair of equal symbols
//! between the two sequences, grouped by symbol value with the source index
//! in the outer position, and materialises for each pair the set of pairs
//! that may validly follow it in a monotone chain (its unblocked pairs) as a
//! compressed ragged matrix.  Each unblocked row is computed independently
//! from read-only tables, so the rows are computed in parallel.  Selecting
//! the longest chain through this compatibility structure is an open
//! extension point; the engine exposes the structure itself.

use crate::utilities::csr_matrix::CsrMatrix;
use crate::utilities::{
    filter_shared_indexes, indexes, lemma_flatten_elements_lt, lemma_flatten_membership,
    lemma_max_value_ge, lemma_max_value_take_step, lemma_positions_of_complete,
    lemma_positions_of_props, lemma_positions_of_take_step, lemma_shared_filter_membership,
    max_value, positions_of, shared_filter,
};
use crate::UNIQUE_VALUES;
use rayon::iter::{IntoParallelRefIterator, ParallelIterator};
use vstd::prelude::*;
use vstd::slice::slice_to_vec;

verus! {

/// All pairs formed from one source position and each target position of
/// `qs` in order.
pub open spec fn row_pairs(i: usize, qs: Seq<usize>) -> Seq<(usize, usize)> {
    qs.map_values(|j: usize| (i, j))
}

/// The cartesian product of source positions and target positions, source
/// position outer, target position inner.
pub open spec fn pair_product(ps: Seq<usize>, qs: Seq<usize>) -> Seq<(usize, usize)>
    decreases ps.len(),
{
    if ps.len() == 0 {
        Seq::empty()
    } else {
        pair_product(ps.drop_last(), qs) + row_pairs(ps.last(), qs)
    }
}

/// Candidate pairs of the symbol values below `v`, in enumeration order.
pub open spec fn all_pairs_upto(s: Seq<u8>, t: Seq<u8>, v: int) -> Seq<(usize, usize)>
    decreases v,
{
    if v <= 0 {
        Seq::empty()
    } else {
        all_pairs_upto(s, t, v - 1) + pair_product(
            positions_of(s, (v - 1) as u8),
            positions_of(t, (v - 1) as u8),
        )
    }
}

/// The full candidate-pair list: every index pair with equal symbol value,
/// grouped by symbol value, source index outer, target index inner.
pub open spec fn all_pairs(s: Seq<u8>, t: Seq<u8>) -> Seq<(usize, usize)> {
    all_pairs_upto(s, t, UNIQUE_VALUES as int)
}

/// Source coordinates of a pair list.
pub open spec fn source_coords(pairs: Seq<(usize, usize)>) -> Seq<usize> {
    pairs.map_values(|p: (usize, usize)| p.0)
}

/// Target coordinates of a pair list.
pub open spec fn target_coords(pairs: Seq<(usize, usize)>) -> Seq<usize> {
    pairs.map_values(|p: (usize, usize)| p.1)
}

/// Rows of a position table over `values`: one row per value below `nrows`,
/// holding the positions at which the value occurs.
pub open spec fn index_rows(values: Seq<usize>, nrows: int) -> Seq<Seq<usize>> {
    Seq::new(nrows as nat, |v: int| positions_of(values, v as usize))
}

/// Number of rows such a table has: one past the largest value, and a single
/// empty row for an empty value list.
pub open spec fn lut_rows_count(values: Seq<usize>) -> int {
    if values.len() == 0 {
        1int
    } else {
        max_value(values) + 1
    }
}

/// The unblocked row drawn from two position tables: the concatenated table
/// rows strictly after the pair's source index, kept only where they also
/// appear strictly after the pair's target index.
pub open spec fn unblocked_row_spec(
    src_rows: Seq<Seq<usize>>,
    tgt_rows: Seq<Seq<usize>>,
    si: int,
    ti: int,
) -> Seq<usize> {
    shared_filter(
        src_rows.subrange(si + 1, src_rows.len() as int).flatten(),
        tgt_rows.subrange(ti + 1, tgt_rows.len() as int).flatten(),
    )
}

/// The identifiers of the candidate pairs that may follow pair `k` in a
/// monotone chain: both coordinates strictly larger, ordered by source
/// coordinate and then by identifier.
pub open spec fn unblocked_ids(pairs: Seq<(usize, usize)>, k: int) -> Seq<usize> {
    unblocked_row_spec(
        index_rows(source_coords(pairs), lut_rows_count(source_coords(pairs))),
        index_rows(target_coords(pairs), lut_rows_count(target_coords(pairs))),
        pairs[k].0 as int,
        pairs[k].1 as int,
    )
}

/// The unblocking relation, pointwise: the unblocked row of pair `k` holds
/// identifier `q` exactly when pair `q` lies strictly after pair `k` in both
/// the source and the target coordinate.
pub proof fn lemma_unblocked_ids_membership(pairs: Seq<(usize, usize)>, k: int, q: usize)
    requires
        pairs.len() <= usize::MAX,
        0 <= k < pairs.len(),
    ensures
        unblocked_ids(pairs, k).contains(q) <==> (q < pairs.len() && pairs[q as int].0 > pairs[k].0
            && pairs[q as int].1 > pairs[k].1),
{
    let srcs = source_coords(pairs);
    let tgts = target_coords(pairs);
    let nsrc = lut_rows_count(srcs);
    let ntgt = lut_rows_count(tgts);
    let si = pairs[k].0 as int;
    let ti = pairs[k].1 as int;
    let a = index_rows(srcs, nsrc).subrange(si + 1, nsrc);
    let b = index_rows(tgts, ntgt).subrange(ti + 1, ntgt);
    lemma_max_value_ge(srcs);
    lemma_max_value_ge(tgts);
    assert(srcs[k] == pairs[k].0);
    assert(tgts[k] == pairs[k].1);
    lemma_shared_filter_membership(a.flatten(), b.flatten(), q);
    lemma_flatten_membership(a, q);
    lemma_flatten_membership(b, q);
    assert(a.flatten().contains(q) <==> (q < pairs.len() && pairs[q as int].0 > pairs[k].0)) by {
        lemma_coordinate_rows_membership(srcs, si, q);
        if q < srcs.len() {
            assert(srcs[q as int] == pairs[q as int].0);
        }
    }
    assert(b.flatten().contains(q) <==> (q < pairs.len() && pairs[q as int].1 > pairs[k].1)) by {
        lemma_coordinate_rows_membership(tgts, ti, q);
        if q < tgts.len() {
            assert(tgts[q as int] == pairs[q as int].1);
        }
    }
}

/// The rows of a position table strictly after coordinate `c` hold exactly
/// the identifiers whose coordinate is larger than `c`.
proof fn lemma_coordinate_rows_membership(values: Seq<usize>, c: int, q: usize)
    requires
        values.len() <= usize::MAX,
        0 <= c <= max_value(values),
        values.len() > 0,
    ensures
        index_rows(values, lut_rows_count(values)).subrange(
            c + 1,
            lut_rows_count(values),
        ).flatten().contains(q) <==> (q < values.len() && values[q as int] > c),
{
    let n = lut_rows_count(values);
    let rows = index_rows(values, n).subrange(c + 1, n);
    lemma_max_value_ge(values);
    lemma_flatten_membership(rows, q);
    if rows.flatten().contains(q) {
        let v = choose|v: int| 0 <= v < rows.len() && (#[trigger] rows[v]).contains(q);
        assert(c + 1 + v < n <= usize::MAX + 1);
        assert(rows[v] == positions_of(values, (c + 1 + v) as usize));
        lemma_positions_of_props(values, (c + 1 + v) as usize);
        let i = choose|i: int| 0 <= i < rows[v].len() && rows[v][i] == q;
        assert(rows[v][i] < values.len() && values[rows[v][i] as int] == ((c + 1 + v) as usize));
        assert(q < values.len() && values[q as int] > c);
    }
    if q < values.len() && values[q as int] > c {
        let v = values[q as int] as int;
        assert(v <= max_value(values));
        assert(c + 1 <= v < n);
        lemma_positions_of_complete(values, values[q as int], q);
        assert(rows[v - (c + 1)] == positions_of(values, v as usize));
        assert(values[q as int] == (v as usize));
        assert(rows[v - (c + 1)].contains(q));
        assert(rows.flatten().contains(q));
    }
}

/// Every element of the product pairs one source position with one target
/// position.
pub proof fn lemma_pair_product_elements(ps: Seq<usize>, qs: Seq<usize>)
    ensures
        forall|k: int|
            0 <= k < pair_product(ps, qs).len() ==> ps.contains(
                (#[trigger] pair_product(ps, qs)[k]).0,
            ) && qs.contains(pair_product(ps, qs)[k].1),
    decreases ps.len(),
{
    if ps.len() > 0 {
        lemma_pair_product_elements(ps.drop_last(), qs);
        let whole = pair_product(ps, qs);
        let init = pair_product(ps.drop_last(), qs);
        assert forall|k: int|
            0 <= k < whole.len() implies ps.contains((#[trigger] whole[k]).0) && qs.contains(
            whole[k].1,
        ) by {
            if k < init.len() {
                assert(whole[k] == init[k]);
                assert(ps.drop_last().contains(init[k].0));
                let a = choose|a: int|
                    0 <= a < ps.drop_last().len() && ps.drop_last()[a] == init[k].0;
                assert(ps[a] == init[k].0);
            } else {
                assert(whole[k] == row_pairs(ps.last(), qs)[k - init.len()]);
                assert(whole[k].0 == ps.last());
                assert(whole[k].1 == qs[k - init.len()]);
            }
        }
    }
}

/// Every enumerated candidate pair is a genuine match: both coordinates are
/// in range and address equal symbols.
pub proof fn lemma_all_pairs_upto_props(s: Seq<u8>, t: Seq<u8>, v: int)
    requires
        s.len() <= usize::MAX,
        t.len() <= usize::MAX,
        0 <= v <= UNIQUE_VALUES,
    ensures
        forall|k: int|
            0 <= k < all_pairs_upto(s, t, v).len() ==> ((#[trigger] all_pairs_upto(s, t, v)[k]).0
                < s.len() && all_pairs_upto(s, t, v)[k].1 < t.len() && s[all_pairs_upto(
                s,
                t,
                v,
            )[k].0 as int] == t[all_pairs_upto(s, t, v)[k].1 as int]),
    decreases v,
{
    if v > 0 {
        lemma_all_pairs_upto_props(s, t, v - 1);
        let sym = (v - 1) as u8;
        let sp = positions_of(s, sym);
        let tp = positions_of(t, sym);
        lemma_positions_of_props(s, sym);
        lemma_positions_of_props(t, sym);
        lemma_pair_product_elements(sp, tp);
        let whole = all_pairs_upto(s, t, v);
        let init = all_pairs_upto(s, t, v - 1);
        let prod = pair_product(sp, tp);
        assert forall|k: int|
            0 <= k < whole.len() implies ((#[trigger] whole[k]).0 < s.len() && whole[k].1 < t.len()
            && s[whole[k].0 as int] == t[whole[k].1 as int]) by {
            if k < init.len() {
                assert(whole[k] == init[k]);
            } else {
                assert(whole[k] == prod[k - init.len()]);
                assert(sp.contains(prod[k - init.len()].0));
                assert(tp.contains(prod[k - init.len()].1));
                let a = choose|a: int| 0 <= a < sp.len() && sp[a] == prod[k - init.len()].0;
                let b = choose|b: int| 0 <= b < tp.len() && tp[b] == prod[k - init.len()].1;
                assert(s[sp[a] as int] == sym);
                assert(t[tp[b] as int] == sym);
            }
        }
    }
}

/// The product holds every combination of a source and a target position.
pub proof fn lemma_pair_product_complete(ps: Seq<usize>, qs: Seq<usize>, x: usize, y: usize)
    requires
        ps.contains(x),
        qs.contains(y),
    ensures
        pair_product(ps, qs).contains((x, y)),
    decreases ps.len(),
{
    let i = choose|i: int| 0 <= i < ps.len() && ps[i] == x;
    if i == ps.len() - 1 {
        let j = choose|j: int| 0 <= j < qs.len() && qs[j] == y;
        assert(row_pairs(ps.last(), qs)[j] == (x, y));
        assert(pair_product(ps, qs)[pair_product(ps.drop_last(), qs).len() + j] == (x, y));
    } else {
        assert(ps.drop_last()[i] == x);
        assert(ps.drop_last().contains(x));
        lemma_pair_product_complete(ps.drop_last(), qs, x, y);
        let prod = pair_product(ps.drop_last(), qs);
        let k = choose|k: int| 0 <= k < prod.len() && prod[k] == (x, y);
        assert(pair_product(ps, qs)[k] == (x, y));
    }
}

/// Scanning more symbol values never loses an enumerated pair.
pub proof fn lemma_all_pairs_upto_monotone(s: Seq<u8>, t: Seq<u8>, v: int, w: int, p: (usize, usize))
    requires
        0 <= v <= w,
        all_pairs_upto(s, t, v).contains(p),
    ensures
        all_pairs_upto(s, t, w).contains(p),
    decreases w - v,
{
    if w > v {
        lemma_all_pairs_upto_monotone(s, t, v, w - 1, p);
        let prev = all_pairs_upto(s, t, w - 1);
        let k = choose|k: int| 0 <= k < prev.len() && prev[k] == p;
        assert(all_pairs_upto(s, t, w)[k] == p);
    }
}

/// Completeness of the enumeration: every index pair with equal symbols is
/// among the candidate pairs — the full match graph, not a pruned one.
pub proof fn lemma_all_pairs_complete(s: Seq<u8>, t: Seq<u8>, i: usize, j: usize)
    requires
        s.len() <= usize::MAX,
        t.len() <= usize::MAX,
        i < s.len(),
        j < t.len(),
        s[i as int] == t[j as int],
    ensures
        all_pairs(s, t).contains((i, j)),
{
    let v = s[i as int] as int;
    let sp = positions_of(s, v as u8);
    let tp = positions_of(t, v as u8);
    lemma_positions_of_complete(s, s[i as int], i);
    lemma_positions_of_complete(t, t[j as int], j);
    lemma_pair_product_complete(sp, tp, i, j);
    let prod = pair_product(sp, tp);
    let k = choose|k: int| 0 <= k < prod.len() && prod[k] == (i, j);
    assert(all_pairs_upto(s, t, v + 1)[all_pairs_upto(s, t, v).len() + k] == (i, j));
    assert(all_pairs_upto(s, t, v + 1).contains((i, j)));
    lemma_all_pairs_upto_monotone(s, t, v + 1, UNIQUE_VALUES as int, (i, j));
}

/// Every candidate pair of the full list is a genuine match.
pub proof fn lemma_all_pairs_props(s: Seq<u8>, t: Seq<u8>)
    requires
        s.len() <= usize::MAX,
        t.len() <= usize::MAX,
    ensures
        forall|k: int|
            0 <= k < all_pairs(s, t).len() ==> ((#[trigger] all_pairs(s, t)[k]).0 < s.len()
                && all_pairs(s, t)[k].1 < t.len() && s[all_pairs(s, t)[k].0 as int] == t[all_pairs(
                s,
                t,
            )[k].1 as int]),
{
    lemma_all_pairs_upto_props(s, t, UNIQUE_VALUES as int);
}

/// The candidate-pair engine.  Construction enumerates the pairs and builds
/// the unblocking structure eagerly.
#[derive(Debug, PartialEq, Eq)]
pub struct PairScoreLcs {
    source: Vec<u8>,
    target: Vec<u8>,
    pair_indexes: Vec<(usize, usize)>,
    unblocking_lut: CsrMatrix<usize>,
}

impl PairScoreLcs {
    /// The source sequence the engine was built from.
    pub closed spec fn src(&self) -> Seq<u8> {
        self.source@
    }

    /// The target sequence the engine was built from.
    pub closed spec fn tgt(&self) -> Seq<u8> {
        self.target@
    }

    /// The enumerated candidate pairs.
    pub closed spec fn pairs(&self) -> Seq<(usize, usize)> {
        self.pair_indexes@
    }

    /// The unblocking rows, one per candidate pair.
    pub closed spec fn unblocking(&self) -> Seq<Seq<usize>> {
        self.unblocking_lut@
    }

    pub fn new(source: &[u8], target: &[u8]) -> (r: Self)
        ensures
            r.src() == source@,
            r.tgt() == target@,
            r.pairs() == all_pairs(source@, target@),
            r.unblocking().len() == all_pairs(source@, target@).len(),
            forall|k: int|
                0 <= k < all_pairs(source@, target@).len() ==> (#[trigger] r.unblocking()[k])
                    == unblocked_ids(all_pairs(source@, target@), k),
    {
        let source_len = source.len();
        let target_len = target.len();
        let pair_indexes = Self::pair_indexes(source, target);
        proof {
            assert(source@.len() == source_len && target@.len() == target_len);
            lemma_all_pairs_props(source@, target@);
            assert forall|k: int| 0 <= k < pair_indexes@.len() implies ((#[trigger] pair_indexes@[
                k
            ]).0 < usize::MAX && pair_indexes@[k].1 < usize::MAX) by {
                assert(pair_indexes@[k] == all_pairs(source@, target@)[k]);
            }
        }
        let unblocking_lut = Self::unblocking_lut(pair_indexes.as_slice());
        Self {
            source: slice_to_vec(source),
            target: slice_to_vec(target),
            pair_indexes,
            unblocking_lut,
        }
    }

    /// Enumerates every index pair with equal symbol value, grouped by
    /// symbol value, source index outer, target index inner.
    pub fn pair_indexes(source: &[u8], target: &[u8]) -> (r: Vec<(usize, usize)>)
        ensures
            r@ == all_pairs(source@, target@),
    {
        let ghost s = source@;
        let ghost t = target@;
        let source_indexes = indexes(source);
        let target_indexes = indexes(target);
        let mut pair_indexes: Vec<(usize, usize)> = Vec::new();
        let mut v: usize = 0;
        proof {
            assert(pair_indexes@ =~= all_pairs_upto(s, t, 0));
        }
        while v < UNIQUE_VALUES
            invariant
                s == source@,
                t == target@,
                source_indexes@.len() == UNIQUE_VALUES,
                target_indexes@.len() == UNIQUE_VALUES,
                forall|u: int|
                    0 <= u < UNIQUE_VALUES ==> (#[trigger] source_indexes@[u])@ == positions_of(
                        s,
                        u as u8,
                    ),
                forall|u: int|
                    0 <= u < UNIQUE_VALUES ==> (#[trigger] target_indexes@[u])@ == positions_of(
                        t,
                        u as u8,
                    ),
                0 <= v <= UNIQUE_VALUES,
                pair_indexes@ == all_pairs_upto(s, t, v as int),
            decreases UNIQUE_VALUES - v,
        {
            let src_row = &source_indexes[v];
            let tgt_row = &target_indexes[v];
            let ghost sp = positions_of(s, v as u8);
            let ghost tp = positions_of(t, v as u8);
            let ghost base = all_pairs_upto(s, t, v as int);
            let mut a: usize = 0;
            proof {
                assert(sp.take(0) =~= Seq::<usize>::empty());
                assert(base + pair_product(sp.take(0), tp) =~= base);
            }
            while a < src_row.len()
                invariant
                    src_row@ == sp,
                    tgt_row@ == tp,
                    0 <= a <= sp.len(),
                    pair_indexes@ == base + pair_product(sp.take(a as int), tp),
                decreases sp.len() - a,
            {
                let i0 = src_row[a];
                let ghost mid = base + pair_product(sp.take(a as int), tp);
                let mut b: usize = 0;
                proof {
                    assert(row_pairs(i0, tp.take(0)) =~= Seq::<(usize, usize)>::empty());
                    assert(mid + row_pairs(i0, tp.take(0)) =~= mid);
                }
                while b < tgt_row.len()
                    invariant
                        src_row@ == sp,
                        tgt_row@ == tp,
                        0 <= b <= tp.len(),
                        i0 == sp[a as int],
                        0 <= a < sp.len(),
                        pair_indexes@ == mid + row_pairs(i0, tp.take(b as int)),
                    decreases tp.len() - b,
                {
                    pair_indexes.push((i0, tgt_row[b]));
                    proof {
                        assert(row_pairs(i0, tp.take(b + 1)) =~= row_pairs(
                            i0,
                            tp.take(b as int),
                        ).push((i0, tp[b as int])));
                        assert((mid + row_pairs(i0, tp.take(b as int))).push((i0, tp[b as int]))
                            =~= mid + row_pairs(i0, tp.take(b + 1)));
                    }
                    b += 1;
                }
                proof {
                    assert(tp.take(tp.len() as int) =~= tp);
                    assert(sp.take(a + 1).drop_last() =~= sp.take(a as int));
                    assert(sp.take(a + 1).last() == sp[a as int]);
                    assert(pair_product(sp.take(a + 1), tp) == pair_product(sp.take(a as int), tp)
                        + row_pairs(sp[a as int], tp));
                    assert(mid + row_pairs(i0, tp) =~= base + pair_product(sp.take(a + 1), tp));
                }
                a += 1;
            }
            proof {
                assert(sp.take(sp.len() as int) =~= sp);
                assert(all_pairs_upto(s, t, v + 1) == all_pairs_upto(s, t, v as int)
                    + pair_product(sp, tp));
            }
            v += 1;
        }
        pair_indexes
    }

    /// Position table over a list of coordinates: row `v` holds, in
    /// increasing order, the identifiers whose coordinate equals `v`.
    pub fn pair_index_lut(pair_indexes: &[usize]) -> (r: CsrMatrix<usize>)
        requires
            forall|k: int|
                0 <= k < pair_indexes@.len() ==> (#[trigger] pair_indexes@[k]) < usize::MAX,
        ensures
            r.wf(),
            r@ == index_rows(pair_indexes@, lut_rows_count(pair_indexes@)),
    {
        let ghost values = pair_indexes@;
        let n = pair_indexes.len();
        let mut pair_indexes_max: usize = 0;
        let mut k: usize = 0;
        while k < n
            invariant
                values == pair_indexes@,
                n == values.len(),
                0 <= k <= n,
                forall|j: int| 0 <= j < values.len() ==> (#[trigger] values[j]) < usize::MAX,
                k == 0 ==> pair_indexes_max == 0,
                k > 0 ==> pair_indexes_max as int == max_value(values.take(k as int)),
                pair_indexes_max < usize::MAX,
            decreases n - k,
        {
            proof {
                if k == 0 {
                    assert(values.take(1).len() == 1);
                    assert(values.take(1)[0] == values[0]);
                } else {
                    lemma_max_value_take_step(values, k as int);
                }
            }
            if pair_indexes[k] > pair_indexes_max {
                pair_indexes_max = pair_indexes[k];
            }
            k += 1;
        }
        proof {
            if n > 0 {
                assert(values.take(n as int) =~= values);
            }
            lemma_max_value_ge(values);
        }
        let nrows = pair_indexes_max + 1;
        let mut rows: Vec<Vec<usize>> = Vec::new();
        let mut j: usize = 0;
        while j < nrows
            invariant
                0 <= j <= nrows,
                rows@.len() == j,
                forall|u: int| 0 <= u < j ==> (#[trigger] rows@[u])@.len() == 0,
            decreases nrows - j,
        {
            rows.push(Vec::new());
            j += 1;
        }
        let mut k: usize = 0;
        proof {
            assert(values.take(0) =~= Seq::<usize>::empty());
        }
        while k < n
            invariant
                values == pair_indexes@,
                n == values.len(),
                0 <= k <= n,
                rows@.len() == nrows,
                n > 0 ==> nrows == max_value(values) + 1,
                forall|j2: int| 0 <= j2 < values.len() ==> (#[trigger] values[j2]) as int
                    <= max_value(values),
                forall|u: int|
                    0 <= u < nrows ==> (#[trigger] rows@[u])@ == positions_of(
                        values.take(k as int),
                        u as usize,
                    ),
            decreases n - k,
        {
            let idx = pair_indexes[k];
            rows[idx].push(k);
            proof {
                assert forall|u: int| 0 <= u < nrows implies (#[trigger] rows@[u])@ == positions_of(
                    values.take(k + 1),
                    u as usize,
                ) by {
                    lemma_positions_of_take_step(values, k as int, u as usize);
                }
            }
            k += 1;
        }
        let mut matrix: CsrMatrix<usize> = CsrMatrix::new();
        matrix.extend_from_slice(rows.as_slice());
        proof {
            assert(values.take(n as int) =~= values);
            assert(matrix@ =~= index_rows(values, lut_rows_count(values)));
        }
        matrix
    }

    /// One unblocked row: the identifiers after the pair's source coordinate
    /// that also lie after its target coordinate.
    fn unblocked_row(
        source_lut: &CsrMatrix<usize>,
        target_lut: &CsrMatrix<usize>,
        source_index: usize,
        target_index: usize,
    ) -> (r: Vec<usize>)
        requires
            source_lut.wf(),
            target_lut.wf(),
            source_index as int + 1 <= source_lut@.len(),
            target_index as int + 1 <= target_lut@.len(),
            forall|v: int, j: int|
                0 <= v < target_lut@.len() && 0 <= j < target_lut@[v].len() ==> (#[trigger]
                target_lut@[v][j]) < usize::MAX,
        ensures
            r@ == unblocked_row_spec(
                source_lut@,
                target_lut@,
                source_index as int,
                target_index as int,
            ),
    {
        let src_len = source_lut.len();
        let tgt_len = target_lut.len();
        let source_slice = source_lut.get_range(source_index + 1, src_len);
        let target_slice = target_lut.get_range(target_index + 1, tgt_len);
        proof {
            let tail = target_lut@.subrange(target_index as int + 1, target_lut@.len() as int);
            assert(forall|v: int, j: int|
                0 <= v < tail.len() && 0 <= j < tail[v].len() ==> tail[v][j] == target_lut@[v
                    + target_index + 1][j]);
            lemma_flatten_elements_lt(tail, usize::MAX);
        }
        filter_shared_indexes(source_slice, target_slice)
    }

    /// Relies on rayon's `par_iter`/`map`/`collect`: the closure is applied
    /// to every pair independently and the results are collected in input
    /// order; the closure itself only calls the verified `unblocked_row`.
    #[verifier::external_body]
    fn par_unblocked_rows(
        pairs: &[(usize, usize)],
        source_lut: &CsrMatrix<usize>,
        target_lut: &CsrMatrix<usize>,
    ) -> (r: Vec<Vec<usize>>)
        requires
            source_lut.wf(),
            target_lut.wf(),
            forall|k: int|
                0 <= k < pairs@.len() ==> ((#[trigger] pairs@[k]).0 as int + 1 <= source_lut@.len()
                    && pairs@[k].1 as int + 1 <= target_lut@.len()),
            forall|v: int, j: int|
                0 <= v < target_lut@.len() && 0 <= j < target_lut@[v].len() ==> (#[trigger]
                target_lut@[v][j]) < usize::MAX,
        ensures
            r@.len() == pairs@.len(),
            forall|k: int|
                0 <= k < pairs@.len() ==> (#[trigger] r@[k])@ == unblocked_row_spec(
                    source_lut@,
                    target_lut@,
                    pairs@[k].0 as int,
                    pairs@[k].1 as int,
                ),
    {
        pairs.par_iter().map(
            |p: &(usize, usize)| Self::unblocked_row(source_lut, target_lut, p.0, p.1),
        ).collect()
    }

    /// For every candidate pair, the identifiers of the pairs unblocked by
    /// it, as one matrix row per pair in pair order.
    pub fn unblocking_lut(pair_indexes: &[(usize, usize)]) -> (r: CsrMatrix<usize>)
        requires
            forall|k: int|
                0 <= k < pair_indexes@.len() ==> ((#[trigger] pair_indexes@[k]).0 < usize::MAX
                    && pair_indexes@[k].1 < usize::MAX),
        ensures
            r.wf(),
            r@.len() == pair_indexes@.len(),
            forall|k: int|
                0 <= k < pair_indexes@.len() ==> (#[trigger] r@[k]) == unblocked_ids(
                    pair_indexes@,
                    k,
                ),
    {
        let ghost pairs = pair_indexes@;
        let n = pair_indexes.len();
        let mut source_pair_indexes: Vec<usize> = Vec::new();
        let mut target_pair_indexes: Vec<usize> = Vec::new();
        let mut k: usize = 0;
        while k < n
            invariant
                pairs == pair_indexes@,
                n == pairs.len(),
                0 <= k <= n,
                source_pair_indexes@ == source_coords(pairs.take(k as int)),
                target_pair_indexes@ == target_coords(pairs.take(k as int)),
            decreases n - k,
        {
            let pair = pair_indexes[k];
            source_pair_indexes.push(pair.0);
            target_pair_indexes.push(pair.1);
            proof {
                assert(source_coords(pairs.take(k + 1)) =~= source_coords(pairs.take(k as int)).push(
                    pairs[k as int].0,
                ));
                assert(target_coords(pairs.take(k + 1)) =~= target_coords(pairs.take(k as int)).push(
                    pairs[k as int].1,
                ));
            }
            k += 1;
        }
        proof {
            assert(pairs.take(n as int) =~= pairs);
            assert(source_coords(pairs).len() == pairs.len());
            assert(target_coords(pairs).len() == pairs.len());
        }
        let source_pair_indexes_lut = Self::pair_index_lut(source_pair_indexes.as_slice());
        let target_pair_indexes_lut = Self::pair_index_lut(target_pair_indexes.as_slice());
        proof {
            let srcs = source_coords(pairs);
            let tgts = target_coords(pairs);
            lemma_max_value_ge(srcs);
            lemma_max_value_ge(tgts);
            assert forall|v: int, j: int|
                0 <= v < target_pair_indexes_lut@.len() && 0 <= j
                    < target_pair_indexes_lut@[v].len() implies (#[trigger]
            target_pair_indexes_lut@[v][j]) < usize::MAX by {
                assert(target_pair_indexes_lut@[v] == positions_of(tgts, v as usize));
                lemma_positions_of_props(tgts, v as usize);
            }
            assert forall|k2: int| 0 <= k2 < pairs.len() implies ((#[trigger] pairs[k2]).0 as int
                + 1 <= source_pair_indexes_lut@.len() && pairs[k2].1 as int + 1
                <= target_pair_indexes_lut@.len()) by {
                assert(srcs[k2] == pairs[k2].0);
                assert(tgts[k2] == pairs[k2].1);
            }
        }
        let rows = Self::par_unblocked_rows(
            pair_indexes,
            &source_pair_indexes_lut,
            &target_pair_indexes_lut,
        );
        let mut matrix: CsrMatrix<usize> = CsrMatrix::new();
        matrix.extend_from_slice(rows.as_slice());
        proof {
            assert forall|k2: int| 0 <= k2 < pairs.len() implies (#[trigger] matrix@[k2])
                == unblocked_ids(pairs, k2) by {
                assert(matrix@[k2] == rows@[k2]@);
            }
            assert(matrix@.len() == pairs.len());
        }
        matrix
    }
}

} // verus!
