//! The exact LCS engine with a compact table: counters are `u16` and the
//! inputs are capped at `CHUNK_SIZE` elements, checked at construction.

use crate::lcs_spec::{
    exact_lcs, is_subsequence_of, lcs_backtrace, lcs_len, lemma_exact_lcs_common,
    lemma_lcs_len_bound, lemma_lcs_len_take_step,
};
use vstd::prelude::*;
use vstd::slice::slice_to_vec;

verus! {

/// Largest input length the `u16`-counter table accepts.
pub const CHUNK_SIZE: usize = 2000;

/// Exact engine over a dynamic-programming table of `u16` counters.
pub struct Lcs {
    source: Vec<u8>,
    target: Vec<u8>,
    table: Vec<Vec<u16>>,
}

/// The compact table holds, in cell `(x, y)`, the LCS length of the
/// length-`x` prefix of `s` and the length-`y` prefix of `t`.
pub open spec fn is_compact_lcs_table(table: Seq<Vec<u16>>, s: Seq<u8>, t: Seq<u8>) -> bool {
    &&& table.len() == s.len() + 1
    &&& forall|x: int| 0 <= x <= s.len() ==> (#[trigger] table[x])@.len() == t.len() + 1
    &&& forall|x: int, y: int|
        0 <= x <= s.len() && 0 <= y <= t.len() ==> (#[trigger] table[x]@[y]) == lcs_len(
            s.take(x),
            t.take(y),
        )
}

impl Lcs {
    #[verifier::type_invariant]
    spec fn wf(self) -> bool {
        &&& self.source@.len() <= CHUNK_SIZE
        &&& self.target@.len() <= CHUNK_SIZE
        &&& is_compact_lcs_table(self.table@, self.source@, self.target@)
    }

    /// The source sequence this engine was built from.
    pub closed spec fn src(&self) -> Seq<u8> {
        self.source@
    }

    /// The target sequence this engine was built from.
    pub closed spec fn tgt(&self) -> Seq<u8> {
        self.target@
    }

    /// The subsequence this engine produces: the canonical backtrace.
    pub open spec fn result_seq(&self) -> Seq<u8> {
        exact_lcs(self.src(), self.tgt())
    }

    /// Inputs longer than `CHUNK_SIZE` overflow the `u16` counters and are
    /// rejected up front by this precondition.
    pub fn new(source: &[u8], target: &[u8]) -> (r: Self)
        requires
            source@.len() <= CHUNK_SIZE,
            target@.len() <= CHUNK_SIZE,
        ensures
            r.src() == source@,
            r.tgt() == target@,
    {
        let source_length = source.len();
        let target_length = target.len();
        let mut table: Vec<Vec<u16>> = Vec::new();
        let mut x: usize = 0;
        while x <= source_length
            invariant
                source_length == source@.len() <= CHUNK_SIZE,
                target_length == target@.len() <= CHUNK_SIZE,
                0 <= x <= source_length + 1,
                table@.len() == x,
                forall|i: int| 0 <= i < x ==> (#[trigger] table@[i])@.len() == target_length + 1,
                forall|i: int, j: int|
                    0 <= i < x && 0 <= j <= target_length ==> (#[trigger] table@[i]@[j])
                        == lcs_len(source@.take(i), target@.take(j)),
            decreases source_length + 1 - x,
        {
            let mut row: Vec<u16> = Vec::new();
            let mut y: usize = 0;
            while y <= target_length
                invariant
                    source_length == source@.len() <= CHUNK_SIZE,
                    target_length == target@.len() <= CHUNK_SIZE,
                    0 <= x <= source_length,
                    0 <= y <= target_length + 1,
                    table@.len() == x,
                    forall|i: int| 0 <= i < x ==> (#[trigger] table@[i])@.len() == target_length
                        + 1,
                    forall|i: int, j: int|
                        0 <= i < x && 0 <= j <= target_length ==> (#[trigger] table@[i]@[j])
                            == lcs_len(source@.take(i), target@.take(j)),
                    row@.len() == y,
                    forall|j: int|
                        0 <= j < y ==> (#[trigger] row@[j]) == lcs_len(
                            source@.take(x as int),
                            target@.take(j),
                        ),
                decreases target_length + 1 - y,
            {
                let v: u16;
                if x == 0 || y == 0 {
                    proof {
                        assert(source@.take(x as int).len() == 0 || target@.take(y as int).len()
                            == 0);
                    }
                    v = 0;
                } else if source[x - 1] == target[y - 1] {
                    proof {
                        lemma_lcs_len_take_step(source@, target@, x as int, y as int);
                        lemma_lcs_len_bound(source@.take(x - 1), target@.take(y - 1));
                    }
                    v = table[x - 1][y - 1] + 1;
                } else {
                    proof {
                        lemma_lcs_len_take_step(source@, target@, x as int, y as int);
                    }
                    let a = table[x - 1][y];
                    let b = row[y - 1];
                    v = if a > b {
                        a
                    } else {
                        b
                    };
                }
                row.push(v);
                y += 1;
            }
            table.push(row);
            x += 1;
        }
        Self { table, source: slice_to_vec(source), target: slice_to_vec(target) }
    }

    /// Returns the length of the longest common subsequence, NOT the amount
    /// of values in the table.
    pub fn len(&self) -> (r: usize)
        ensures
            r == lcs_len(self.src(), self.tgt()),
            r == self.result_seq().len(),
    {
        proof {
            use_type_invariant(&*self);
            lemma_exact_lcs_common(self.source@, self.target@);
            assert(self.source@.take(self.source@.len() as int) =~= self.source@);
            assert(self.target@.take(self.target@.len() as int) =~= self.target@);
        }
        let source_length = self.source.len();
        let target_length = self.target.len();
        self.table[source_length][target_length] as usize
    }

    pub fn is_empty(&self) -> (r: bool)
        ensures
            r == (lcs_len(self.src(), self.tgt()) == 0),
    {
        self.len() == 0
    }

    /// Returns the longest common subsequence of source and target.
    pub fn subsequence(&self) -> (r: Vec<u8>)
        ensures
            r@ == self.result_seq(),
            is_subsequence_of(r@, self.src()),
            is_subsequence_of(r@, self.tgt()),
            r@.len() == lcs_len(self.src(), self.tgt()),
    {
        let length = self.len();
        let ghost s = self.source@;
        let ghost t = self.target@;
        proof {
            lemma_exact_lcs_common(s, t);
        }
        let mut index = length;
        let mut subsequence: Vec<u8> = vec![0u8; length];
        subsequence.push(0u8);
        let mut x = self.source.len();
        let mut y = self.target.len();
        proof {
            use_type_invariant(&*self);
            assert(s.take(s.len() as int) =~= s);
            assert(t.take(t.len() as int) =~= t);
            assert(subsequence@.subrange(length as int, length as int) =~= Seq::<u8>::empty());
            assert(lcs_backtrace(s, t, x as int, y as int) + Seq::<u8>::empty() =~= lcs_backtrace(
                s,
                t,
                x as int,
                y as int,
            ));
        }
        while x > 0 && y > 0
            invariant
                self.wf(),
                s == self.source@,
                t == self.target@,
                0 <= x <= s.len(),
                0 <= y <= t.len(),
                length == lcs_len(s, t),
                index == lcs_len(s.take(x as int), t.take(y as int)),
                index <= length,
                subsequence@.len() == length + 1,
                lcs_backtrace(s, t, s.len() as int, t.len() as int) == lcs_backtrace(
                    s,
                    t,
                    x as int,
                    y as int,
                ) + subsequence@.subrange(index as int, length as int),
            decreases x + y,
        {
            if self.source[x - 1] == self.target[y - 1] {
                proof {
                    lemma_lcs_len_take_step(s, t, x as int, y as int);
                }
                let ghost old_sub = subsequence@;
                subsequence.set(index - 1, self.source[x - 1]);
                proof {
                    let bt = lcs_backtrace(s, t, x - 1, y - 1);
                    assert(subsequence@.subrange(index - 1, length as int) =~= seq![s[x - 1]]
                        + old_sub.subrange(index as int, length as int));
                    assert(bt.push(s[x - 1]) + old_sub.subrange(index as int, length as int) =~= bt
                        + subsequence@.subrange(index - 1, length as int));
                }
                x -= 1;
                y -= 1;
                index -= 1;
            } else if self.table[x - 1][y] > self.table[x][y - 1] {
                proof {
                    lemma_lcs_len_take_step(s, t, x as int, y as int);
                }
                x -= 1;
            } else {
                proof {
                    lemma_lcs_len_take_step(s, t, x as int, y as int);
                }
                y -= 1;
            }
        }
        proof {
            assert(s.take(x as int).len() == 0 || t.take(y as int).len() == 0);
            assert(index == 0);
            assert(lcs_backtrace(s, t, x as int, y as int) =~= Seq::<u8>::empty());
        }
        subsequence.pop();
        proof {
            assert(subsequence@ =~= Seq::<u8>::empty() + subsequence@.subrange(0, length as int));
        }
        subsequence
    }
}

} // verus!
