//! Longest-common-subsequence algorithms over byte sequences.
//!
//! The crate offers one exact dynamic-programming engine and several
//! heuristic engines that trade exactness for speed by exploiting the
//! bounded (0..=255) symbol alphabet, together with the look-up-table and
//! compressed ragged-matrix utilities they are built on.

pub mod filter;
pub mod lcs;
pub mod lcs_spec;
pub mod lcs_trait;
pub mod new_algos;
pub mod offset_spec;
pub mod slow_lcs;
pub mod utilities;

use vstd::prelude::*;

verus! {

/// Number of distinct symbol values a byte sequence can hold.
pub const UNIQUE_VALUES: usize = 256;

/// Counter type wide enough for the position and length bookkeeping of the
/// compact exact engine.
pub type MaxInputLengthType = u16;

/// Failures the engines can signal.  Capacity violations are ruled out up
/// front by preconditions, so the one observable failure is asking for the
/// chain-selection extension that is not implemented.
#[derive(Debug, Clone, Copy, PartialEq, Eq, Structural)]
pub enum LcsError {
    Unimplemented,
}

} // verus!
