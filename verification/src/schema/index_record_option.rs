//! How much of each occurrence of a term an index records.

use vstd::prelude::*;

verus! {

/// What is recorded, or asked for, of the postings of a term.
#[derive(Clone, Copy, Debug, PartialEq, Eq, Structural)]
pub enum IndexRecordOption {
    /// The docs only.
    Basic,
    /// The docs, and how often the term occurs in each.
    WithFreqs,
    /// The docs, the frequencies, and where the term occurs.
    WithFreqsAndPositions,
}

impl IndexRecordOption {
    /// Whether term frequencies are part of the option.
    pub fn has_freq(&self) -> (has: bool)
        ensures
            has == !(*self is Basic),
    {
        match self {
            IndexRecordOption::Basic => false,
            _ => true,
        }
    }

    /// Whether positions are part of the option.
    pub fn has_positions(&self) -> (has: bool)
        ensures
            has == (*self is WithFreqsAndPositions),
    {
        match self {
            IndexRecordOption::WithFreqsAndPositions => true,
            _ => false,
        }
    }
}

} // verus!
