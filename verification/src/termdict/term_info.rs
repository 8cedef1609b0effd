//! What the term dictionary records of a term.

use vstd::prelude::*;
use crate::common::serialize::{BinarySerializable, CodecError};

verus! {

/// Where the postings of a term stand, and in how many docs it occurs.
#[derive(Debug, Clone, Copy, PartialEq, Eq, Structural)]
pub struct TermInfo {
    /// Number of documents that hold the term.
    pub doc_freq: u32,
    /// Offset of the postings of the term in the postings file.
    pub postings_offset: u64,
    /// Offset of the positions of the term in the positions file.
    pub positions_offset: u64,
    /// Number of positions to skip from that offset on.
    pub positions_inner_offset: u64,
}

impl View for TermInfo {
    type V = TermInfo;

    open spec fn view(&self) -> TermInfo {
        *self
    }
}

impl Default for TermInfo {
    fn default() -> (info: TermInfo)
        ensures
            info == (TermInfo { doc_freq: 0, postings_offset: 0, positions_offset: 0, positions_inner_offset: 0 }),
    {
        TermInfo { doc_freq: 0, postings_offset: 0, positions_offset: 0, positions_inner_offset: 0 }
    }
}

impl BinarySerializable for TermInfo {
    open spec fn encodable(v: TermInfo) -> bool {
        true
    }

    open spec fn encode(v: TermInfo) -> Seq<u8> {
        u32::encode(v.doc_freq) + u64::encode(v.postings_offset) + u64::encode(v.positions_offset) + u64::encode(
            v.positions_inner_offset,
        )
    }

    open spec fn decode(bytes: Seq<u8>) -> Result<(TermInfo, int), CodecError> {
        if bytes.len() < 28 {
            Err(CodecError::UnexpectedEof)
        } else {
            Ok(
                (
                    TermInfo {
                        doc_freq: u32::decode(bytes)->Ok_0.0,
                        postings_offset: u64::decode(bytes.skip(4))->Ok_0.0,
                        positions_offset: u64::decode(bytes.skip(12))->Ok_0.0,
                        positions_inner_offset: u64::decode(bytes.skip(20))->Ok_0.0,
                    },
                    28,
                ),
            )
        }
    }

    proof fn lemma_decode_encode(v: TermInfo, rest: Seq<u8>) {
        let a = u32::encode(v.doc_freq);
        let b = u64::encode(v.postings_offset);
        let c = u64::encode(v.positions_offset);
        let d = u64::encode(v.positions_inner_offset);
        let all = Self::encode(v) + rest;
        u32::lemma_decode_encode(v.doc_freq, b + c + d + rest);
        u64::lemma_decode_encode(v.postings_offset, c + d + rest);
        u64::lemma_decode_encode(v.positions_offset, d + rest);
        u64::lemma_decode_encode(v.positions_inner_offset, rest);
        vstd::bytes::lemma_auto_spec_u32_to_from_le_bytes();
        vstd::bytes::lemma_auto_spec_u64_to_from_le_bytes();
        assert(all == a + (b + c + d + rest));
        assert(all.skip(4) == b + (c + d + rest));
        assert(all.skip(12) == c + (d + rest));
        assert(all.skip(20) == d + rest);
    }

    fn serialize(&self, out: &mut Vec<u8>) {
        let ghost start = out@;
        self.doc_freq.serialize(out);
        self.postings_offset.serialize(out);
        self.positions_offset.serialize(out);
        self.positions_inner_offset.serialize(out);
        proof {
            assert(out@ == start + Self::encode(*self));
        }
    }

    fn deserialize(bytes: &[u8], pos: usize) -> (res: Result<(TermInfo, usize), CodecError>) {
        if bytes.len() - pos < 28 {
            return Err(CodecError::UnexpectedEof);
        }
        proof {
            let rest = bytes@.skip(pos as int);
            assert(rest.skip(4) == bytes@.skip(pos + 4));
            assert(rest.skip(12) == bytes@.skip(pos + 12));
            assert(rest.skip(20) == bytes@.skip(pos + 20));
        }
        let doc_freq = match u32::deserialize(bytes, pos) {
            Ok((v, _)) => v,
            Err(e) => {
                return Err(e);
            },
        };
        let postings_offset = match u64::deserialize(bytes, pos + 4) {
            Ok((v, _)) => v,
            Err(e) => {
                return Err(e);
            },
        };
        let positions_offset = match u64::deserialize(bytes, pos + 12) {
            Ok((v, _)) => v,
            Err(e) => {
                return Err(e);
            },
        };
        let positions_inner_offset = match u64::deserialize(bytes, pos + 20) {
            Ok((v, _)) => v,
            Err(e) => {
                return Err(e);
            },
        };
        Ok((TermInfo { doc_freq, postings_offset, positions_offset, positions_inner_offset }, pos + 28))
    }
}

} // verus!
