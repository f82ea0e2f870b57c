//! Mathematical model of longest common subsequences: what it means for one
//! sequence to be a subsequence of another, the optimal LCS length, and the
//! canonical backtraced witness the exact engine produces.

use vstd::prelude::*;

verus! {

/// `a` can be obtained from `b` by deleting zero or more elements.
pub open spec fn is_subsequence_of(a: Seq<u8>, b: Seq<u8>) -> bool
    decreases a.len() + b.len(),
{
    if a.len() == 0 {
        true
    } else if b.len() == 0 {
        false
    } else {
        is_subsequence_of(a, b.drop_last()) || (a.last() == b.last()
            && is_subsequence_of(a.drop_last(), b.drop_last()))
    }
}

/// A common subsequence of both `s` and `t`.
pub open spec fn is_common_subsequence(c: Seq<u8>, s: Seq<u8>, t: Seq<u8>) -> bool {
    is_subsequence_of(c, s) && is_subsequence_of(c, t)
}

/// Length of the longest common subsequence of `s` and `t`.
pub open spec fn lcs_len(s: Seq<u8>, t: Seq<u8>) -> nat
    decreases s.len() + t.len(),
{
    if s.len() == 0 || t.len() == 0 {
        0
    } else if s.last() == t.last() {
        lcs_len(s.drop_last(), t.drop_last()) + 1
    } else {
        let a = lcs_len(s.drop_last(), t);
        let b = lcs_len(s, t.drop_last());
        if a >= b {
            a
        } else {
            b
        }
    }
}

/// A subsequence is never longer than the sequence it came from.
pub proof fn lemma_subsequence_len(a: Seq<u8>, b: Seq<u8>)
    requires
        is_subsequence_of(a, b),
    ensures
        a.len() <= b.len(),
    decreases a.len() + b.len(),
{
    if a.len() == 0 {
    } else {
        if is_subsequence_of(a, b.drop_last()) {
            lemma_subsequence_len(a, b.drop_last());
        } else {
            lemma_subsequence_len(a.drop_last(), b.drop_last());
        }
    }
}

/// Every sequence is a subsequence of itself.
pub proof fn lemma_subsequence_refl(a: Seq<u8>)
    ensures
        is_subsequence_of(a, a),
    decreases a.len(),
{
    if a.len() > 0 {
        lemma_subsequence_refl(a.drop_last());
    }
}

/// Dropping the last element of a sequence leaves a subsequence of it.
pub proof fn lemma_drop_last_subsequence(a: Seq<u8>)
    requires
        a.len() > 0,
    ensures
        is_subsequence_of(a.drop_last(), a),
{
    lemma_subsequence_refl(a.drop_last());
}

/// The subsequence relation is transitive.
pub proof fn lemma_subsequence_trans(a: Seq<u8>, b: Seq<u8>, c: Seq<u8>)
    requires
        is_subsequence_of(a, b),
        is_subsequence_of(b, c),
    ensures
        is_subsequence_of(a, c),
    decreases a.len() + b.len() + c.len(),
{
    if a.len() == 0 {
    } else {
        lemma_subsequence_len(a, b);
        if is_subsequence_of(b, c.drop_last()) {
            lemma_subsequence_trans(a, b, c.drop_last());
        } else {
            // b.last() == c.last() and b.drop_last() is a subsequence of c.drop_last()
            if is_subsequence_of(a, b.drop_last()) {
                lemma_subsequence_trans(a, b.drop_last(), c.drop_last());
            } else {
                // a.last() == b.last() == c.last()
                lemma_subsequence_trans(a.drop_last(), b.drop_last(), c.drop_last());
            }
        }
    }
}

/// If a subsequence ends with the same element as its source, the shortened
/// pair are again in the subsequence relation.
pub proof fn lemma_subsequence_drop_both(a: Seq<u8>, b: Seq<u8>)
    requires
        is_subsequence_of(a, b),
        a.len() > 0,
        a.last() == b.last(),
    ensures
        is_subsequence_of(a.drop_last(), b.drop_last()),
{
    lemma_subsequence_len(a, b);
    if is_subsequence_of(a, b.drop_last()) {
        lemma_drop_last_subsequence(a);
        lemma_subsequence_trans(a.drop_last(), a, b.drop_last());
    }
}

/// A common subsequence of full length forces equality.
pub proof fn lemma_subsequence_full_len(a: Seq<u8>, b: Seq<u8>)
    requires
        is_subsequence_of(a, b),
        a.len() == b.len(),
    ensures
        a == b,
    decreases a.len(),
{
    if a.len() == 0 {
        assert(a =~= b);
    } else {
        if is_subsequence_of(a, b.drop_last()) {
            lemma_subsequence_len(a, b.drop_last());
            assert(false);
        } else {
            lemma_subsequence_full_len(a.drop_last(), b.drop_last());
            assert(a =~= a.drop_last().push(a.last()));
            assert(b =~= b.drop_last().push(b.last()));
        }
    }
}

/// The LCS length never exceeds either input's length.
pub proof fn lemma_lcs_len_bound(s: Seq<u8>, t: Seq<u8>)
    ensures
        lcs_len(s, t) <= s.len(),
        lcs_len(s, t) <= t.len(),
    decreases s.len() + t.len(),
{
    if s.len() == 0 || t.len() == 0 {
    } else if s.last() == t.last() {
        lemma_lcs_len_bound(s.drop_last(), t.drop_last());
    } else {
        lemma_lcs_len_bound(s.drop_last(), t);
        lemma_lcs_len_bound(s, t.drop_last());
    }
}

/// The LCS length is symmetric in its two arguments.
pub proof fn lemma_lcs_len_symmetric(s: Seq<u8>, t: Seq<u8>)
    ensures
        lcs_len(s, t) == lcs_len(t, s),
    decreases s.len() + t.len(),
{
    if s.len() == 0 || t.len() == 0 {
    } else if s.last() == t.last() {
        lemma_lcs_len_symmetric(s.drop_last(), t.drop_last());
    } else {
        lemma_lcs_len_symmetric(s.drop_last(), t);
        lemma_lcs_len_symmetric(s, t.drop_last());
    }
}

/// On identical inputs the LCS is the whole sequence.
pub proof fn lemma_lcs_len_self(s: Seq<u8>)
    ensures
        lcs_len(s, s) == s.len(),
    decreases s.len(),
{
    if s.len() > 0 {
        lemma_lcs_len_self(s.drop_last());
    }
}

/// No common subsequence is longer than the LCS length: `lcs_len` is optimal.
pub proof fn lemma_common_subsequence_le_lcs(c: Seq<u8>, s: Seq<u8>, t: Seq<u8>)
    requires
        is_subsequence_of(c, s),
        is_subsequence_of(c, t),
    ensures
        c.len() <= lcs_len(s, t),
    decreases s.len() + t.len(),
{
    if c.len() == 0 {
    } else {
        lemma_subsequence_len(c, s);
        lemma_subsequence_len(c, t);
        if s.last() == t.last() {
            if c.last() == s.last() {
                lemma_subsequence_drop_both(c, s);
                lemma_subsequence_drop_both(c, t);
                lemma_common_subsequence_le_lcs(c.drop_last(), s.drop_last(), t.drop_last());
            } else {
                // c cannot use the final elements, so it lives in the shortened pair
                lemma_common_subsequence_le_lcs(c, s.drop_last(), t.drop_last());
            }
        } else if c.last() != s.last() {
            lemma_common_subsequence_le_lcs(c, s.drop_last(), t);
        } else {
            lemma_common_subsequence_le_lcs(c, s, t.drop_last());
        }
    }
}

/// A prefix of a sequence is a subsequence of it.
pub proof fn lemma_take_subsequence(s: Seq<u8>, x: int)
    requires
        0 <= x <= s.len(),
    ensures
        is_subsequence_of(s.take(x), s),
    decreases s.len(),
{
    if x == s.len() {
        assert(s.take(x) =~= s);
        lemma_subsequence_refl(s);
    } else {
        lemma_take_subsequence(s.drop_last(), x);
        assert(s.drop_last().take(x) =~= s.take(x));
    }
}

/// A suffix of a sequence is a subsequence of it.
pub proof fn lemma_skip_subsequence(s: Seq<u8>, x: int)
    requires
        0 <= x <= s.len(),
    ensures
        is_subsequence_of(s.skip(x), s),
    decreases s.len(),
{
    if x == 0 {
        assert(s.skip(0) =~= s);
        lemma_subsequence_refl(s);
    } else if x == s.len() {
        assert(s.skip(x).len() == 0);
    } else {
        lemma_skip_subsequence(s.drop_last(), x);
        assert(s.drop_last().skip(x) =~= s.skip(x).drop_last());
        assert(s.skip(x).last() == s.last());
    }
}

/// A shorter prefix is a subsequence of a longer one.
pub proof fn lemma_take_take_subsequence(s: Seq<u8>, a: int, b: int)
    requires
        0 <= a <= b <= s.len(),
    ensures
        is_subsequence_of(s.take(a), s.take(b)),
{
    lemma_take_subsequence(s.take(b), a);
    assert(s.take(b).take(a) =~= s.take(a));
}

/// A single element of a sequence is a subsequence of the prefix ending at it.
pub proof fn lemma_singleton_subsequence(s: Seq<u8>, i: int)
    requires
        0 <= i < s.len(),
    ensures
        is_subsequence_of(seq![s[i]], s.take(i + 1)),
{
    let a = seq![s[i]];
    let b = s.take(i + 1);
    assert(b.last() == s[i]);
    assert(a.drop_last() =~= Seq::<u8>::empty());
    assert(is_subsequence_of(a.drop_last(), b.drop_last()));
}

/// Joining a subsequence of a prefix with a subsequence of the matching
/// suffix gives a subsequence of the whole sequence.
pub proof fn lemma_concat_subsequence(a: Seq<u8>, b: Seq<u8>, s: Seq<u8>, m: int)
    requires
        0 <= m <= s.len(),
        is_subsequence_of(a, s.take(m)),
        is_subsequence_of(b, s.skip(m)),
    ensures
        is_subsequence_of(a + b, s),
    decreases b.len() + s.len(),
{
    if b.len() == 0 {
        assert(a + b =~= a);
        lemma_take_subsequence(s, m);
        lemma_subsequence_trans(a, s.take(m), s);
    } else {
        let sd = s.drop_last();
        assert(sd.take(m) =~= s.take(m));
        assert(s.skip(m).drop_last() =~= sd.skip(m));
        if is_subsequence_of(b, s.skip(m).drop_last()) {
            lemma_concat_subsequence(a, b, sd, m);
        } else {
            assert(b.last() == s.skip(m).last());
            assert(s.skip(m).last() == s.last());
            lemma_concat_subsequence(a, b.drop_last(), sd, m);
            assert((a + b).drop_last() =~= a + b.drop_last());
            assert((a + b).last() == b.last());
        }
    }
}

/// One unfolding of `lcs_len` stated over prefixes, matching the cell
/// relation of the dynamic-programming table.
pub proof fn lemma_lcs_len_take_step(s: Seq<u8>, t: Seq<u8>, x: int, y: int)
    requires
        1 <= x <= s.len(),
        1 <= y <= t.len(),
    ensures
        s[x - 1] == t[y - 1] ==> lcs_len(s.take(x), t.take(y)) == lcs_len(
            s.take(x - 1),
            t.take(y - 1),
        ) + 1,
        s[x - 1] != t[y - 1] ==> lcs_len(s.take(x), t.take(y)) == if lcs_len(
            s.take(x - 1),
            t.take(y),
        ) >= lcs_len(s.take(x), t.take(y - 1)) {
            lcs_len(s.take(x - 1), t.take(y))
        } else {
            lcs_len(s.take(x), t.take(y - 1))
        },
{
    assert(s.take(x).last() == s[x - 1]);
    assert(t.take(y).last() == t[y - 1]);
    assert(s.take(x).drop_last() =~= s.take(x - 1));
    assert(t.take(y).drop_last() =~= t.take(y - 1));
}

/// The subsequence the exact engine reads back out of the table, starting
/// from cell `(x, y)`: on a symbol match both prefixes shrink and the symbol
/// is emitted; otherwise the walk follows the larger neighbouring cell,
/// preferring the target step on ties.
pub open spec fn lcs_backtrace(s: Seq<u8>, t: Seq<u8>, x: int, y: int) -> Seq<u8>
    decreases x + y,
{
    if x <= 0 || y <= 0 {
        Seq::empty()
    } else if s[x - 1] == t[y - 1] {
        lcs_backtrace(s, t, x - 1, y - 1).push(s[x - 1])
    } else if lcs_len(s.take(x - 1), t.take(y)) > lcs_len(s.take(x), t.take(y - 1)) {
        lcs_backtrace(s, t, x - 1, y)
    } else {
        lcs_backtrace(s, t, x, y - 1)
    }
}

/// The backtraced sequence is a common subsequence of the two prefixes and
/// has exactly the optimal length.
pub proof fn lemma_backtrace_props(s: Seq<u8>, t: Seq<u8>, x: int, y: int)
    requires
        0 <= x <= s.len(),
        0 <= y <= t.len(),
    ensures
        lcs_backtrace(s, t, x, y).len() == lcs_len(s.take(x), t.take(y)),
        is_subsequence_of(lcs_backtrace(s, t, x, y), s.take(x)),
        is_subsequence_of(lcs_backtrace(s, t, x, y), t.take(y)),
    decreases x + y,
{
    if x <= 0 || y <= 0 {
        assert(s.take(x).len() == 0 || t.take(y).len() == 0);
    } else if s[x - 1] == t[y - 1] {
        lemma_backtrace_props(s, t, x - 1, y - 1);
        lemma_lcs_len_take_step(s, t, x, y);
        let bt = lcs_backtrace(s, t, x - 1, y - 1);
        let r = bt.push(s[x - 1]);
        assert(s.take(x).last() == s[x - 1]);
        assert(s.take(x).drop_last() =~= s.take(x - 1));
        assert(t.take(y).last() == t[y - 1]);
        assert(t.take(y).drop_last() =~= t.take(y - 1));
        assert(r.drop_last() =~= bt);
        assert(r.last() == s[x - 1]);
    } else {
        lemma_lcs_len_take_step(s, t, x, y);
        if lcs_len(s.take(x - 1), t.take(y)) > lcs_len(s.take(x), t.take(y - 1)) {
            lemma_backtrace_props(s, t, x - 1, y);
            lemma_take_take_subsequence(s, x - 1, x);
            lemma_subsequence_trans(lcs_backtrace(s, t, x - 1, y), s.take(x - 1), s.take(x));
        } else {
            lemma_backtrace_props(s, t, x, y - 1);
            lemma_take_take_subsequence(t, y - 1, y);
            lemma_subsequence_trans(lcs_backtrace(s, t, x, y - 1), t.take(y - 1), t.take(y));
        }
    }
}

/// The exact engine's answer for the full inputs.
pub open spec fn exact_lcs(s: Seq<u8>, t: Seq<u8>) -> Seq<u8> {
    lcs_backtrace(s, t, s.len() as int, t.len() as int)
}

/// The exact engine's subsequence is a common subsequence of both inputs and
/// its length is the LCS length.
pub proof fn lemma_exact_lcs_common(s: Seq<u8>, t: Seq<u8>)
    ensures
        is_common_subsequence(exact_lcs(s, t), s, t),
        exact_lcs(s, t).len() == lcs_len(s, t),
{
    lemma_backtrace_props(s, t, s.len() as int, t.len() as int);
    assert(s.take(s.len() as int) =~= s);
    assert(t.take(t.len() as int) =~= t);
}

/// On identical inputs the exact engine returns the input itself, whose
/// length is the input's length.
pub proof fn lemma_exact_lcs_identical(s: Seq<u8>)
    ensures
        lcs_len(s, s) == s.len(),
        exact_lcs(s, s) == s,
{
    lemma_lcs_len_self(s);
    lemma_exact_lcs_common(s, s);
    lemma_subsequence_full_len(exact_lcs(s, s), s);
}

/// With an empty input on either side there is no common symbol at all.
pub proof fn lemma_exact_lcs_empty(s: Seq<u8>)
    ensures
        lcs_len(s, Seq::<u8>::empty()) == 0,
        lcs_len(Seq::<u8>::empty(), s) == 0,
        exact_lcs(s, Seq::<u8>::empty()) == Seq::<u8>::empty(),
        exact_lcs(Seq::<u8>::empty(), s) == Seq::<u8>::empty(),
{
}

} // verus!
