//! Shared capability interface of the LCS engines: every engine answers
//! `subsequence`, `len` and `is_empty` queries about the pair of sequences it
//! was built from, and always returns a common subsequence of that pair.

use crate::lcs_spec::{
    is_common_subsequence, lcs_len, lemma_common_subsequence_le_lcs, lemma_subsequence_len,
};
use vstd::prelude::*;

verus! {

/// An engine built from a source and a target sequence that produces one
/// common subsequence of the two.  Which subsequence it produces is the
/// engine's own affair (`result_seq`); only the exact engine promises an
/// optimal one.
pub trait Lcs {
    /// The source sequence the engine was built from.
    spec fn src(&self) -> Seq<u8>;

    /// The target sequence the engine was built from.
    spec fn tgt(&self) -> Seq<u8>;

    /// The subsequence this engine produces for its inputs.
    spec fn result_seq(&self) -> Seq<u8>;

    /// Whatever an engine produces is a common subsequence of its inputs.
    proof fn result_is_common(&self)
        ensures
            is_common_subsequence(self.result_seq(), self.src(), self.tgt()),
    ;

    fn subsequence(&self) -> (r: Vec<u8>)
        ensures
            r@ == self.result_seq(),
    ;

    fn len(&self) -> (r: usize)
        ensures
            r == self.result_seq().len(),
    ;

    fn is_empty(&self) -> (r: bool)
        ensures
            r == (self.result_seq().len() == 0),
    ;
}

/// No engine can beat the optimal length: every produced subsequence is at
/// most `lcs_len` long.  This is what makes heuristic divergence one-sided.
pub proof fn lemma_engine_le_lcs_len<E: Lcs>(e: &E)
    ensures
        e.result_seq().len() <= lcs_len(e.src(), e.tgt()),
{
    e.result_is_common();
    lemma_common_subsequence_le_lcs(e.result_seq(), e.src(), e.tgt());
}

/// When either input is empty, every engine answers with the empty
/// subsequence, and so reports length zero.
pub proof fn lemma_engine_empty_input<E: Lcs>(e: &E)
    requires
        e.src().len() == 0 || e.tgt().len() == 0,
    ensures
        e.result_seq() == Seq::<u8>::empty(),
{
    e.result_is_common();
    if e.src().len() == 0 {
        lemma_subsequence_len(e.result_seq(), e.src());
    } else {
        lemma_subsequence_len(e.result_seq(), e.tgt());
    }
    assert(e.result_seq() =~= Seq::<u8>::empty());
}

} // verus!
