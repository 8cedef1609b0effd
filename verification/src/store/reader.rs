//! The reader of the document store.

use vstd::prelude::*;
use vstd::bytes::{spec_u32_from_le_bytes, spec_u64_from_le_bytes, u32_from_le_bytes, u64_from_le_bytes};
use vstd::slice::slice_subrange;
use crate::store::layout::{
    Checkpoint, STORE_FOOTER_LEN, StoreError, block_index, decode_index, fetched, find_block, holds_store,
    index_entry, lemma_block_index_bound, locate, lz4_decoded, lz4_decompress, nth_doc, read_nth_doc,
    store_index_offset, store_num_docs,
};

verus! {

/// The block index that `bytes` holds, if they are whole entries.
pub fn read_index(bytes: &[u8]) -> (index: Option<Vec<Checkpoint>>)
    ensures
        match decode_index(bytes@) {
            Some(decoded) => index matches Some(read) && read@ == decoded,
            None => index is None,
        },
{
    if bytes.len() % 12 != 0 {
        return None;
    }
    let total = bytes.len();
    let count = total / 12;
    let mut index: Vec<Checkpoint> = Vec::new();
    let mut i: usize = 0;
    assert(12 * count == total);
    while i < count
        invariant
            i <= count,
            12 * count == total,
            total == bytes@.len(),
            count == bytes@.len() / 12,
            bytes@.len() % 12 == 0,
            index@.len() == i,
            forall|j: int| 0 <= j < i ==> #[trigger] index@[j] == index_entry(bytes@, j),
        decreases count - i,
    {
        let doc = u32_from_le_bytes(slice_subrange(bytes, 12 * i, 12 * i + 4));
        let offset = u64_from_le_bytes(slice_subrange(bytes, 12 * i + 4, 12 * i + 12));
        index.push(Checkpoint { doc, offset });
        i = i + 1;
    }
    proof {
        assert(index@ =~= decode_index(bytes@)->0);
    }
    Some(index)
}

/// The document that decoding the frame of a block has brought to light, at
/// rank `rank` of the block; `Compression` where decoding failed.
pub fn doc_of_block(decoded: Option<Vec<u8>>, rank: u32) -> (res: Result<Vec<u8>, StoreError>)
    ensures
        match decoded {
            None => res == Err::<Vec<u8>, StoreError>(StoreError::Compression),
            Some(block) => match nth_doc(block@, rank as nat) {
                Some(doc) => res matches Ok(read) && read@ == doc,
                None => res == Err::<Vec<u8>, StoreError>(StoreError::Corrupted),
            },
        },
{
    match decoded {
        None => Err(StoreError::Compression),
        Some(block) => match read_nth_doc(block.as_slice(), rank) {
            Some(doc) => Ok(doc),
            None => Err(StoreError::Corrupted),
        },
    }
}

/// Reads documents back from the file of a store.
pub struct StoreReader {
    file: Vec<u8>,
}

impl StoreReader {
    /// The bytes of the file.
    pub closed spec fn source(&self) -> Seq<u8> {
        self.file@
    }

    /// A reader over the file of a store.
    pub fn from_source(file: Vec<u8>) -> (reader: StoreReader)
        ensures
            reader.source() == file@,
    {
        StoreReader { file }
    }

    /// The number of docs that the footer announces; 0 where there is no
    /// footer.
    pub fn num_docs(&self) -> (count: u32)
        ensures
            count == (if self.source().len() >= 12 {
                store_num_docs(self.source())
            } else {
                0
            }),
    {
        let len = self.file.len();
        if len < STORE_FOOTER_LEN {
            return 0;
        }
        u32_from_le_bytes(slice_subrange(self.file.as_slice(), len - 4, len))
    }

    /// Where doc `doc_id` is to be found: the offset and the length of the
    /// frame of its block, and its rank inside the block.
    pub fn locate(&self, doc_id: u32) -> (res: Result<(usize, usize, u32), StoreError>)
        ensures
            match res {
                Ok((start, len, rank)) => locate(self.source(), doc_id) == Ok::<(int, int, u32), StoreError>(
                    (start as int, len as int, rank),
                ) && start + len <= self.source().len(),
                Err(e) => locate(self.source(), doc_id) == Err::<(int, int, u32), StoreError>(e),
            },
    {
        let file = self.file.as_slice();
        let total = file.len();
        if total < STORE_FOOTER_LEN {
            return Err(StoreError::Corrupted);
        }
        let num_docs = u32_from_le_bytes(slice_subrange(file, total - 4, total));
        if doc_id >= num_docs {
            return Err(StoreError::DocNotFound);
        }
        let index_offset = u64_from_le_bytes(slice_subrange(file, total - 12, total - 4));
        if index_offset > (total - STORE_FOOTER_LEN) as u64 {
            return Err(StoreError::Corrupted);
        }
        let index_offset = index_offset as usize;
        let index = match read_index(slice_subrange(file, index_offset, total - STORE_FOOTER_LEN)) {
            Some(index) => index,
            None => {
                return Err(StoreError::Corrupted);
            },
        };
        let k = match find_block(&index, doc_id) {
            Some(k) => k,
            None => {
                return Err(StoreError::Corrupted);
            },
        };
        let start = if k == 0 {
            0u64
        } else {
            index[k - 1].offset
        };
        let first = index[k].doc;
        proof {
            lemma_block_index_bound(index@, doc_id);
        }
        if index_offset < 4 || start > (index_offset - 4) as u64 {
            return Err(StoreError::Corrupted);
        }
        let start = start as usize;
        let len = u32_from_le_bytes(slice_subrange(file, start, start + 4)) as u64;
        if len > (index_offset - 4 - start) as u64 {
            return Err(StoreError::Corrupted);
        }
        Ok((start + 4, len as usize, doc_id - first))
    }

    /// The document of doc `doc_id`, in its serialized form.
    pub fn get(&self, doc_id: u32) -> (res: Result<Vec<u8>, StoreError>)
        ensures
            match fetched(self.source(), doc_id) {
                Ok(doc) => res matches Ok(read) && read@ == doc,
                Err(e) => res == Err::<Vec<u8>, StoreError>(e),
            },
    {
        let (start, len, rank) = match self.locate(doc_id) {
            Ok(place) => place,
            Err(e) => {
                return Err(e);
            },
        };
        let total = self.file.len();
        let frame = slice_subrange(self.file.as_slice(), start, start + len);
        doc_of_block(lz4_decompress(frame), rank)
    }
}

/// Reading doc `d` of a store that holds `docs` gives document `d` back.
pub proof fn lemma_store_round_trip(file: Seq<u8>, docs: Seq<Seq<u8>>, d: u32)
    requires
        holds_store(file, docs),
        d < docs.len(),
    ensures
        fetched(file, d) == Ok::<Seq<u8>, StoreError>(docs[d as int]),
{
}

} // verus!
