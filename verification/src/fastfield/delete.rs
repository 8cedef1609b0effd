//! The set of the deleted docs of a segment.

use vstd::prelude::*;
use crate::postings::docset::DocId;

verus! {

/// A bit per doc: set for a deleted doc.
pub struct DeleteBitSet {
    bits: Vec<u8>,
}

impl DeleteBitSet {
    /// The bytes of the bit set, the lowest bit of each byte standing for
    /// the lowest doc.
    pub closed spec fn bytes(&self) -> Seq<u8> {
        self.bits@
    }

    /// Whether `doc` is deleted.
    pub open spec fn deleted(&self, doc: DocId) -> bool {
        doc / 8 < self.bytes().len() && (self.bytes()[doc as int / 8] >> ((doc % 8) as u8)) & 1 == 1
    }

    /// The bit set in which no doc is deleted.
    pub fn empty() -> (set: DeleteBitSet)
        ensures
            set.bytes().len() == 0,
    {
        DeleteBitSet { bits: Vec::new() }
    }

    /// The bit set that `bits` holds.
    pub fn open(bits: Vec<u8>) -> (set: DeleteBitSet)
        ensures
            set.bytes() == bits@,
    {
        DeleteBitSet { bits }
    }

    /// Whether `doc` is deleted. A doc past the end of the bit set is not.
    pub fn is_deleted(&self, doc: DocId) -> (deleted: bool)
        ensures
            deleted == self.deleted(doc),
    {
        let slot = (doc / 8) as usize;
        if slot >= self.bits.len() {
            return false;
        }
        let shift = (doc % 8) as u8;
        (self.bits[slot] >> shift) & 1 == 1
    }
}

} // verus!
