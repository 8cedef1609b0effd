//! The layout of the document store: compressed blocks of length-prefixed
//! documents, then the index of the blocks, then the footer.

use vstd::prelude::*;
use vstd::bytes::{
    lemma_auto_spec_u32_to_from_le_bytes, spec_u32_from_le_bytes, spec_u32_to_le_bytes, spec_u64_from_le_bytes,
    u32_from_le_bytes,
};
use vstd::slice::slice_subrange;

verus! {

/// The size past which the block being filled is compressed and written.
pub const BLOCK_SIZE: usize = 16384;

/// The size of the footer: the offset of the index, then the number of docs.
pub const STORE_FOOTER_LEN: usize = 12;

/// What an lz4 frame decodes to, as `lz4::Decoder` reads it; `None` for bytes
/// that the decoder refuses.
pub uninterp spec fn lz4_decoded(bytes: Seq<u8>) -> Option<Seq<u8>>;

/// The lz4 frame that `lz4::Encoder` writes for a block with its default
/// settings; `None` for a block that the encoder refuses.
pub uninterp spec fn lz4_frame(block: Seq<u8>) -> Option<Seq<u8>>;

/// Calls `lz4::EncoderBuilder::build`, `Write::write_all` and
/// `Encoder::finish`. The contract names the frame that comes back, which
/// depends on the block alone, and claims that this frame decodes to the
/// block again.
#[verifier::external_body]
pub(crate) fn lz4_compress(block: &[u8]) -> (res: Option<Vec<u8>>)
    ensures
        res is Some <==> lz4_frame(block@) is Some,
        res matches Some(frame) ==> lz4_frame(block@) == Some(frame@),
        res matches Some(frame) ==> lz4_decoded(frame@) == Some(block@),
{
    match lz4::EncoderBuilder::new().build(Vec::new()) {
        Ok(mut encoder) => match std::io::Write::write_all(&mut encoder, block) {
            Ok(()) => match encoder.finish() {
                (frame, Ok(())) => Some(frame),
                (_, Err(_)) => None,
            },
            Err(_) => None,
        },
        Err(_) => None,
    }
}

/// Calls `lz4::Decoder::new` and `Read::read_to_end`. The contract names what
/// the frame decodes to, which depends on the frame alone: the block, or
/// `None` where the decoder reports an error.
#[verifier::external_body]
pub(crate) fn lz4_decompress(frame: &[u8]) -> (res: Option<Vec<u8>>)
    ensures
        res is Some <==> lz4_decoded(frame@) is Some,
        res matches Some(block) ==> lz4_decoded(frame@) == Some(block@),
{
    match lz4::Decoder::new(frame) {
        Ok(mut decoder) => {
            let mut block = Vec::new();
            match std::io::Read::read_to_end(&mut decoder, &mut block) {
                Ok(_) => Some(block),
                Err(_) => None,
            }
        },
        Err(_) => None,
    }
}

/// A document behind its length.
pub open spec fn framed(doc: Seq<u8>) -> Seq<u8> {
    spec_u32_to_le_bytes(doc.len() as u32) + doc
}

/// The documents of a block, each behind its length, one after the other.
pub open spec fn block_of(docs: Seq<Seq<u8>>) -> Seq<u8>
    decreases docs.len(),
{
    if docs.len() == 0 {
        Seq::empty()
    } else {
        block_of(docs.drop_last()) + framed(docs.last())
    }
}

/// The `n`-th document of an uncompressed block, counting from 0.
pub open spec fn nth_doc(block: Seq<u8>, n: nat) -> Option<Seq<u8>>
    decreases n,
{
    if block.len() < 4 {
        None
    } else {
        let len = spec_u32_from_le_bytes(block.take(4)) as int;
        if block.len() - 4 < len {
            None
        } else if n == 0 {
            Some(block.subrange(4, 4 + len))
        } else {
            nth_doc(block.skip(4 + len), (n - 1) as nat)
        }
    }
}

/// Every document is short enough for a 32-bit length.
pub open spec fn docs_fit(docs: Seq<Seq<u8>>) -> bool {
    forall|i: int| 0 <= i < docs.len() ==> (#[trigger] docs[i]).len() <= u32::MAX
}

/// A block starts with its first document, and goes on with the others.
pub proof fn lemma_block_front(docs: Seq<Seq<u8>>)
    requires
        docs.len() >= 1,
    ensures
        block_of(docs) == framed(docs[0]) + block_of(docs.skip(1)),
    decreases docs.len(),
{
    if docs.len() == 1 {
        assert(docs.drop_last().len() == 0);
        assert(docs.skip(1).len() == 0);
        assert(block_of(docs.drop_last()) == Seq::<u8>::empty());
        assert(block_of(docs) == framed(docs[0]));
        assert(framed(docs[0]) + Seq::<u8>::empty() == framed(docs[0]));
    } else {
        lemma_block_front(docs.drop_last());
        assert(docs.drop_last().skip(1) == docs.skip(1).drop_last());
        assert(docs.drop_last()[0] == docs[0]);
        assert(docs.skip(1).last() == docs.last());
        assert(block_of(docs) == (framed(docs[0]) + block_of(docs.skip(1).drop_last())) + framed(docs.last()));
        assert(block_of(docs) == framed(docs[0]) + (block_of(docs.skip(1).drop_last()) + framed(docs.last())));
    }
}

/// The `n`-th document of a block is read back from it.
pub proof fn lemma_nth_doc(docs: Seq<Seq<u8>>, n: nat)
    requires
        n < docs.len(),
        docs_fit(docs),
    ensures
        nth_doc(block_of(docs), n) == Some(docs[n as int]),
    decreases n,
{
    lemma_block_front(docs);
    lemma_auto_spec_u32_to_from_le_bytes();
    let block = block_of(docs);
    let first = docs[0];
    let rest = block_of(docs.skip(1));
    assert(first.len() <= u32::MAX);
    assert(block.take(4) == spec_u32_to_le_bytes(first.len() as u32));
    assert(block.subrange(4, 4 + first.len() as int) == first);
    assert(block.skip(4 + first.len() as int) == rest);
    if n > 0 {
        assert(docs_fit(docs.skip(1))) by {
            assert forall|i: int| 0 <= i < docs.skip(1).len() implies (#[trigger] docs.skip(1)[i]).len()
                <= u32::MAX by {
                assert(docs[i + 1].len() <= u32::MAX);
            }
        }
        lemma_nth_doc(docs.skip(1), (n - 1) as nat);
        assert(docs.skip(1)[n - 1] == docs[n as int]);
    }
}

/// The `n`-th document of an uncompressed block.
pub fn read_nth_doc(block: &[u8], n: u32) -> (doc: Option<Vec<u8>>)
    ensures
        match nth_doc(block@, n as nat) {
            Some(d) => doc matches Some(read) && read@ == d,
            None => doc is None,
        },
{
    let mut pos: usize = 0;
    let mut left: u32 = n;
    proof {
        assert(block@.skip(0) == block@);
    }
    loop
        invariant
            pos <= block@.len(),
            left <= n,
            nth_doc(block@, n as nat) == nth_doc(block@.skip(pos as int), left as nat),
        decreases left,
    {
        let rest = block.len() - pos;
        if rest < 4 {
            return None;
        }
        let field = slice_subrange(block, pos, pos + 4);
        proof {
            assert(field@ == block@.skip(pos as int).take(4));
        }
        let len = u32_from_le_bytes(field) as usize;
        if rest - 4 < len {
            return None;
        }
        if left == 0 {
            let doc = slice_subrange(block, pos + 4, pos + 4 + len);
            proof {
                assert(doc@ == block@.skip(pos as int).subrange(4, 4 + len));
            }
            return Some(vstd::slice::slice_to_vec(doc));
        }
        proof {
            assert(block@.skip(pos as int).skip(4 + len) == block@.skip(pos + 4 + len));
        }
        pos = pos + 4 + len;
        left = left - 1;
    }
}

/// One entry of the block index: the first doc of a block, and the offset at
/// which the block ends.
pub struct Checkpoint {
    /// The first doc of the block.
    pub doc: u32,
    /// The offset of the first byte after the block.
    pub offset: u64,
}

/// The index of the last block that starts at or before doc `d`, if any.
pub open spec fn block_index(index: Seq<Checkpoint>, d: u32) -> Option<int>
    decreases index.len(),
{
    if index.len() == 0 {
        None
    } else if index.last().doc <= d {
        Some(index.len() - 1)
    } else {
        block_index(index.drop_last(), d)
    }
}

/// The index of the last block that starts at or before doc `d`.
pub fn find_block(index: &Vec<Checkpoint>, d: u32) -> (found: Option<usize>)
    ensures
        match block_index(index@, d) {
            Some(k) => found == Some(k as usize) && 0 <= k < index@.len(),
            None => found is None,
        },
{
    let mut k: usize = index.len();
    proof {
        assert(index@.take(k as int) == index@);
    }
    while k > 0
        invariant
            k <= index@.len(),
            block_index(index@, d) == block_index(index@.take(k as int), d),
        decreases k,
    {
        proof {
            assert(index@.take(k as int).drop_last() == index@.take(k - 1));
        }
        if index[k - 1].doc <= d {
            return Some(k - 1);
        }
        k = k - 1;
    }
    None
}

/// A block that is found lies within the index and starts at or before the
/// doc, and every later block starts behind the doc.
pub proof fn lemma_block_index_bound(index: Seq<Checkpoint>, d: u32)
    requires
        block_index(index, d) is Some,
    ensures
        0 <= block_index(index, d)->0 < index.len(),
        index[block_index(index, d)->0].doc <= d,
        forall|j: int| block_index(index, d)->0 < j < index.len() ==> (#[trigger] index[j]).doc > d,
    decreases index.len(),
{
    if index.len() > 0 && index.last().doc > d {
        lemma_block_index_bound(index.drop_last(), d);
        let k = block_index(index, d)->0;
        assert(index.drop_last()[k] == index[k]);
        assert forall|j: int| k < j < index.len() implies (#[trigger] index[j]).doc > d by {
            if j < index.len() - 1 {
                assert(index.drop_last()[j].doc > d);
            }
        }
    }
}

/// Where a block starts at or before the doc, a block is found.
pub proof fn lemma_block_index_some(index: Seq<Checkpoint>, d: u32, j: int)
    requires
        0 <= j < index.len(),
        index[j].doc <= d,
    ensures
        block_index(index, d) is Some,
    decreases index.len(),
{
    if index.last().doc > d {
        assert(index.drop_last()[j] == index[j]);
        lemma_block_index_some(index.drop_last(), d, j);
    }
}

/// Why the store could not be written or read.
#[derive(Clone, Copy, Debug, PartialEq, Eq, Structural)]
pub enum StoreError {
    /// A document is too long for its 32-bit length.
    DocumentTooLarge,
    /// There is no doc id left for another document.
    TooManyDocs,
    /// A compressed block is too long for its 32-bit length.
    BlockTooLarge,
    /// The compressor or the decompressor failed.
    Compression,
    /// The store holds no such doc.
    DocNotFound,
    /// The bytes are not those of a store.
    Corrupted,
}

/// The binary form of the block index: for each entry the first doc and the
/// offset.
pub open spec fn index_bytes(index: Seq<Checkpoint>) -> Seq<u8>
    decreases index.len(),
{
    if index.len() == 0 {
        Seq::empty()
    } else {
        index_bytes(index.drop_last()) + spec_u32_to_le_bytes(index.last().doc) + vstd::bytes::spec_u64_to_le_bytes(
            index.last().offset,
        )
    }
}

/// Entry `i` of the block index that `bytes` holds.
pub open spec fn index_entry(bytes: Seq<u8>, i: int) -> Checkpoint {
    Checkpoint {
        doc: spec_u32_from_le_bytes(bytes.subrange(12 * i, 12 * i + 4)),
        offset: spec_u64_from_le_bytes(bytes.subrange(12 * i + 4, 12 * i + 12)),
    }
}

/// The block index that `bytes` holds, if they are whole entries.
pub open spec fn decode_index(bytes: Seq<u8>) -> Option<Seq<Checkpoint>> {
    if bytes.len() % 12 == 0 {
        Some(Seq::new(bytes.len() / 12, |i: int| index_entry(bytes, i)))
    } else {
        None
    }
}

/// A block index is read back from its binary form.
pub proof fn lemma_decode_index(index: Seq<Checkpoint>)
    ensures
        index_bytes(index).len() == 12 * index.len(),
        decode_index(index_bytes(index)) == Some(index),
    decreases index.len(),
{
    lemma_auto_spec_u32_to_from_le_bytes();
    vstd::bytes::lemma_auto_spec_u64_to_from_le_bytes();
    if index.len() > 0 {
        let front = index.drop_last();
        lemma_decode_index(front);
        let bytes = index_bytes(index);
        let head = index_bytes(front);
        let n = front.len() as int;
        assert(bytes.len() == 12 * index.len());
        let decoded = decode_index(bytes)->0;
        assert forall|i: int| 0 <= i < index.len() implies decoded[i] == index[i] by {
            if i < n {
                assert(bytes.subrange(12 * i, 12 * i + 4) == head.subrange(12 * i, 12 * i + 4));
                assert(bytes.subrange(12 * i + 4, 12 * i + 12) == head.subrange(12 * i + 4, 12 * i + 12));
                assert(decode_index(head)->0[i] == front[i]);
            } else {
                assert(bytes.subrange(12 * i, 12 * i + 4) == spec_u32_to_le_bytes(index.last().doc));
                assert(bytes.subrange(12 * i + 4, 12 * i + 12) == vstd::bytes::spec_u64_to_le_bytes(
                    index.last().offset,
                ));
            }
        }
        assert(decoded =~= index);
    } else {
        assert(decode_index(index_bytes(index))->0 =~= index);
    }
}

/// The offset of the block index, as the footer gives it.
pub open spec fn store_index_offset(file: Seq<u8>) -> u64 {
    spec_u64_from_le_bytes(file.subrange(file.len() - 12, file.len() - 4))
}

/// The number of docs, as the footer gives it.
pub open spec fn store_num_docs(file: Seq<u8>) -> u32 {
    spec_u32_from_le_bytes(file.subrange(file.len() - 4, file.len() as int))
}

/// Where doc `d` is to be found: the offset and the length of the frame of
/// its block, and its rank inside the block.
pub open spec fn locate(file: Seq<u8>, d: u32) -> Result<(int, int, u32), StoreError> {
    if file.len() < 12 {
        Err(StoreError::Corrupted)
    } else if d >= store_num_docs(file) {
        Err(StoreError::DocNotFound)
    } else if store_index_offset(file) > file.len() - 12 {
        Err(StoreError::Corrupted)
    } else {
        let index_offset = store_index_offset(file) as int;
        match decode_index(file.subrange(index_offset, file.len() - 12)) {
            None => Err(StoreError::Corrupted),
            Some(index) => match block_index(index, d) {
                None => Err(StoreError::Corrupted),
                Some(k) => {
                    let start = if k == 0 {
                        0int
                    } else {
                        index[k - 1].offset as int
                    };
                    let first = index[k].doc;
                    if start > index_offset - 4 {
                        Err(StoreError::Corrupted)
                    } else {
                        let len = spec_u32_from_le_bytes(file.subrange(start, start + 4)) as int;
                        if len > index_offset - 4 - start {
                            Err(StoreError::Corrupted)
                        } else {
                            Ok((start + 4, len, (d - first) as u32))
                        }
                    }
                },
            },
        }
    }
}

/// What reading doc `d` from `file` gives: the document, or why there is
/// none.
pub open spec fn fetched(file: Seq<u8>, d: u32) -> Result<Seq<u8>, StoreError> {
    match locate(file, d) {
        Err(e) => Err(e),
        Ok((start, len, rank)) => match lz4_decoded(file.subrange(start, start + len)) {
            None => Err(StoreError::Compression),
            Some(block) => match nth_doc(block, rank as nat) {
                Some(doc) => Ok(doc),
                None => Err(StoreError::Corrupted),
            },
        },
    }
}

/// The file of a store: the blocks, the index of the blocks, and the footer
/// with the offset of the index and the number of docs.
pub open spec fn store_file(blocks: Seq<u8>, index: Seq<Checkpoint>, num_docs: nat) -> Seq<u8> {
    blocks + index_bytes(index) + vstd::bytes::spec_u64_to_le_bytes(blocks.len() as u64) + spec_u32_to_le_bytes(
        num_docs as u32,
    )
}

/// What writing out a block gives: the bytes written so far and the index,
/// both with the block added, or why the block cannot be written. The block
/// holds the docs from `first` on.
pub open spec fn flush_outcome(block: Seq<u8>, written: Seq<u8>, index: Seq<Checkpoint>, first: nat) -> Result<
    (Seq<u8>, Seq<Checkpoint>),
    StoreError,
> {
    match lz4_frame(block) {
        None => Err(StoreError::Compression),
        Some(frame) => if frame.len() > u32::MAX {
            Err(StoreError::BlockTooLarge)
        } else {
            let grown = written + spec_u32_to_le_bytes(frame.len() as u32) + frame;
            Ok((grown, index.push(Checkpoint { doc: first as u32, offset: grown.len() as u64 })))
        },
    }
}

/// `file` is a store that holds exactly `docs`: reading doc `d` gives the
/// document `d`, and there are no other docs.
pub open spec fn holds_store(file: Seq<u8>, docs: Seq<Seq<u8>>) -> bool {
    &&& file.len() >= 12
    &&& store_num_docs(file) == docs.len()
    &&& forall|d: u32| d < docs.len() ==> #[trigger] fetched(file, d) == Ok::<Seq<u8>, StoreError>(docs[d as int])
}

} // verus!
