//! The writer of the document store.

use vstd::prelude::*;
use vstd::bytes::{
    lemma_auto_spec_u32_to_from_le_bytes, lemma_auto_spec_u64_to_from_le_bytes, spec_u32_from_le_bytes,
    spec_u32_to_le_bytes, spec_u64_to_le_bytes, u32_to_le_bytes, u64_to_le_bytes,
};
use vstd::slice::slice_to_vec;
use crate::store::layout::{
    BLOCK_SIZE, Checkpoint, StoreError, block_index, block_of, docs_fit, fetched, flush_outcome, framed,
    holds_store, index_bytes, lemma_block_index_bound, lemma_block_index_some, lemma_decode_index, lemma_nth_doc,
    lz4_compress, lz4_decoded, lz4_frame, store_file,
};

verus! {

/// Where block `k` starts.
pub open spec fn block_start(index: Seq<Checkpoint>, k: int) -> int {
    if k == 0 {
        0
    } else {
        index[k - 1].offset as int
    }
}

/// The doc behind the last doc of block `k`, where the blocks hold the first
/// `flushed` docs.
pub open spec fn block_bound(index: Seq<Checkpoint>, flushed: int, k: int) -> int {
    if k + 1 < index.len() {
        index[k + 1].doc as int
    } else {
        flushed
    }
}

/// Block `k` stands in the file as the index says: behind its length, a
/// frame that decodes to the documents of the block.
pub open spec fn block_ok(file: Seq<u8>, index: Seq<Checkpoint>, docs: Seq<Seq<u8>>, flushed: int, k: int) -> bool {
    let start = block_start(index, k);
    let first = index[k].doc as int;
    let bound = block_bound(index, flushed, k);
    let end = index[k].offset as int;
    &&& first < bound <= docs.len()
    &&& start + 4 <= end <= file.len()
    &&& spec_u32_from_le_bytes(file.subrange(start, start + 4)) == end - start - 4
    &&& lz4_decoded(file.subrange(start + 4, end)) == Some(block_of(docs.subrange(first, bound)))
}

/// The blocks written so far hold the first `flushed` docs; they stand in the
/// file one after the other, and fill it.
pub open spec fn blocks_ok(file: Seq<u8>, index: Seq<Checkpoint>, docs: Seq<Seq<u8>>, flushed: int) -> bool {
    &&& 0 <= flushed <= docs.len()
    &&& forall|k: int| 0 <= k < index.len() ==> #[trigger] block_ok(file, index, docs, flushed, k)
    &&& index.len() > 0 ==> index[0].doc == 0 && index.last().offset == file.len()
    &&& index.len() == 0 ==> file.len() == 0 && flushed == 0
}

/// Writes the store of a segment: documents are gathered in a block, which
/// is compressed and written once it outgrows the block size. The index of
/// the blocks is kept in memory until the store is closed.
pub struct StoreWriter {
    doc: u32,
    block_first: u32,
    offset_index: Vec<Checkpoint>,
    file: Vec<u8>,
    current_block: Vec<u8>,
    docs: Ghost<Seq<Seq<u8>>>,
}

impl StoreWriter {
    /// The documents stored so far, by doc id.
    pub closed spec fn docs(&self) -> Seq<Seq<u8>> {
        self.docs@
    }

    /// The number of docs that stand in written blocks; the later docs wait
    /// in the block being filled.
    pub closed spec fn flushed(&self) -> nat {
        self.block_first as nat
    }

    /// The bytes written so far: the blocks, each behind its length.
    pub closed spec fn written(&self) -> Seq<u8> {
        self.file@
    }

    /// The index of the blocks written so far.
    pub closed spec fn index(&self) -> Seq<Checkpoint> {
        self.offset_index@
    }

    /// The block being filled: the docs that wait, each behind its length.
    pub open spec fn block(&self) -> Seq<u8> {
        block_of(self.docs().subrange(self.flushed() as int, self.docs().len() as int))
    }

    /// Validity of the writer.
    pub closed spec fn wf(&self) -> bool {
        &&& self.doc == self.docs@.len()
        &&& docs_fit(self.docs@)
        &&& blocks_ok(self.file@, self.offset_index@, self.docs@, self.block_first as int)
        &&& self.current_block@ == self.block()
    }

    /// A valid writer has flushed no more docs than it has stored.
    pub proof fn lemma_wf(&self)
        requires
            self.wf(),
        ensures
            self.flushed() <= self.docs().len() <= u32::MAX,
            self.written().len() == 0 <==> self.index().len() == 0,
            self.index().len() == 0 ==> self.flushed() == 0,
    {
        if self.offset_index@.len() > 0 {
            assert(block_ok(self.file@, self.offset_index@, self.docs@, self.block_first as int, 0));
        }
    }

    /// What storing `doc` makes of the writer `before`. A document too long
    /// for its length field, or one for which no doc id is left, is refused
    /// and changes nothing. Any other document joins the block being filled;
    /// where the block thereby outgrows the block size it is written out,
    /// and the call fails exactly where that block cannot be written.
    pub open spec fn stored(before: StoreWriter, doc: Seq<u8>, after: StoreWriter, res: Result<(), StoreError>) -> bool {
        if doc.len() > u32::MAX {
            res == Err::<(), StoreError>(StoreError::DocumentTooLarge) && after == before
        } else if before.docs().len() >= u32::MAX {
            res == Err::<(), StoreError>(StoreError::TooManyDocs) && after == before
        } else {
            let block = before.block() + framed(doc);
            &&& after.wf()
            &&& after.docs() == before.docs().push(doc)
            &&& if block.len() <= BLOCK_SIZE {
                &&& res is Ok
                &&& after.flushed() == before.flushed()
                &&& after.written() == before.written()
                &&& after.index() == before.index()
            } else {
                match flush_outcome(block, before.written(), before.index(), before.flushed()) {
                    Err(e) => {
                        &&& res == Err::<(), StoreError>(e)
                        &&& after.flushed() == before.flushed()
                        &&& after.written() == before.written()
                        &&& after.index() == before.index()
                    },
                    Ok((written, index)) => {
                        &&& res is Ok
                        &&& after.flushed() == after.docs().len()
                        &&& after.written() == written
                        &&& after.index() == index
                    },
                }
            }
        }
    }

    /// What closing the writer gives: the blocks and their index once the
    /// block being filled, if it holds a doc, is written out; or why that
    /// block cannot be written.
    pub open spec fn closing(&self) -> Result<(Seq<u8>, Seq<Checkpoint>), StoreError> {
        if self.flushed() == self.docs().len() {
            Ok((self.written(), self.index()))
        } else {
            flush_outcome(self.block(), self.written(), self.index(), self.flushed())
        }
    }

    /// Create a store writer.
    pub fn new() -> (writer: StoreWriter)
        ensures
            writer.wf(),
            writer.docs().len() == 0,
            writer.flushed() == 0,
            writer.written().len() == 0,
            writer.index().len() == 0,
    {
        let writer = StoreWriter {
            doc: 0,
            block_first: 0,
            offset_index: Vec::new(),
            file: Vec::new(),
            current_block: Vec::new(),
            docs: Ghost(Seq::empty()),
        };
        proof {
            assert(writer.docs@.subrange(0, 0).len() == 0);
        }
        writer
    }

    /// Compresses the block being filled, writes it behind its length, and
    /// enters it in the index. Where the block cannot be written the writer
    /// stays as it is.
    fn write_and_compress_block(&mut self) -> (res: Result<(), StoreError>)
        requires
            old(self).wf(),
            old(self).block_first < old(self).doc,
        ensures
            final(self).wf(),
            final(self).docs() == old(self).docs(),
            match flush_outcome(old(self).block(), old(self).written(), old(self).index(), old(self).flushed()) {
                Err(e) => res == Err::<(), StoreError>(e) && *final(self) == *old(self),
                Ok((written, index)) => {
                    &&& res is Ok
                    &&& final(self).flushed() == final(self).docs().len()
                    &&& final(self).written() == written
                    &&& final(self).index() == index
                },
            },
    {
        let frame = match lz4_compress(self.current_block.as_slice()) {
            Some(frame) => frame,
            None => {
                return Err(StoreError::Compression);
            },
        };
        if frame.len() > u32::MAX as usize {
            return Err(StoreError::BlockTooLarge);
        }
        let ghost file = self.file@;
        let ghost index = self.offset_index@;
        let ghost flushed = self.block_first as int;
        let ghost body = frame@;
        let mut frame = frame;
        let mut head = u32_to_le_bytes(frame.len() as u32);
        self.file.append(&mut head);
        self.file.append(&mut frame);
        let end = self.file.len() as u64;
        self.offset_index.push(Checkpoint { doc: self.block_first, offset: end });
        self.block_first = self.doc;
        self.current_block.clear();
        proof {
            lemma_auto_spec_u32_to_from_le_bytes();
            let after = self.file@;
            let grown = self.offset_index@;
            let k = index.len() as int;
            let start = file.len() as int;
            let docs = self.docs@;
            assert(after == file + spec_u32_to_le_bytes(body.len() as u32) + body);
            assert(block_start(grown, k) == start) by {
                if k > 0 {
                    assert(grown[k - 1] == index[k - 1]);
                }
            }
            assert(after.subrange(start, start + 4) == spec_u32_to_le_bytes(body.len() as u32));
            assert(after.subrange(start + 4, end as int) == body);
            assert forall|j: int| 0 <= j < grown.len() implies #[trigger] block_ok(
                after,
                grown,
                docs,
                self.doc as int,
                j,
            ) by {
                if j < k {
                    assert(block_ok(file, index, docs, flushed, j));
                    assert(grown[j] == index[j]);
                    if j > 0 {
                        assert(grown[j - 1] == index[j - 1]);
                    }
                    if j + 1 < k {
                        assert(grown[j + 1] == index[j + 1]);
                    }
                    assert(block_bound(grown, self.doc as int, j) == block_bound(index, flushed, j));
                    let s = block_start(index, j);
                    let e = index[j].offset as int;
                    assert(after.subrange(s, s + 4) == file.subrange(s, s + 4));
                    assert(after.subrange(s + 4, e) == file.subrange(s + 4, e));
                }
            }
            if k > 0 {
                assert(grown[0] == index[0]);
            }
            assert(docs.subrange(self.doc as int, self.doc as int).len() == 0);
        }
        Ok(())
    }

    /// Stores a new document, given in its serialized form. Its doc id is
    /// the number of documents stored before it.
    pub fn store(&mut self, stored_document: &[u8]) -> (res: Result<(), StoreError>)
        requires
            old(self).wf(),
        ensures
            Self::stored(*old(self), stored_document@, *final(self), res),
    {
        if stored_document.len() > u32::MAX as usize {
            return Err(StoreError::DocumentTooLarge);
        }
        if self.doc == u32::MAX {
            return Err(StoreError::TooManyDocs);
        }
        let ghost before = self.docs@;
        let ghost flushed = self.block_first as int;
        let mut head = u32_to_le_bytes(stored_document.len() as u32);
        self.current_block.append(&mut head);
        let mut body = slice_to_vec(stored_document);
        self.current_block.append(&mut body);
        self.doc = self.doc + 1;
        self.docs = Ghost(before.push(stored_document@));
        proof {
            let after = self.docs@;
            assert(blocks_ok(self.file@, self.offset_index@, before, flushed));
            assert(after.subrange(flushed, self.doc as int).drop_last() == before.subrange(flushed, self.doc - 1));
            assert(after.subrange(flushed, self.doc as int).last() == stored_document@);
            assert(self.current_block@ == old(self).current_block@ + framed(stored_document@));
            assert(self.current_block@ == block_of(after.subrange(flushed, self.doc as int)));
            assert(docs_fit(after)) by {
                assert forall|i: int| 0 <= i < after.len() implies (#[trigger] after[i]).len() <= u32::MAX by {
                    if i < before.len() {
                        assert(before[i].len() <= u32::MAX);
                    }
                }
            }
            assert forall|k: int| 0 <= k < self.offset_index@.len() implies #[trigger] block_ok(
                self.file@,
                self.offset_index@,
                after,
                flushed,
                k,
            ) by {
                assert(block_ok(self.file@, self.offset_index@, before, flushed, k));
                let first = self.offset_index@[k].doc as int;
                let bound = block_bound(self.offset_index@, flushed, k);
                assert(after.subrange(first, bound) == before.subrange(first, bound));
            }
        }
        if self.current_block.len() > BLOCK_SIZE {
            self.write_and_compress_block()
        } else {
            Ok(())
        }
    }

    /// Finalizes the store: compresses the last unfinished block if any,
    /// writes the index of the blocks and the footer, and returns the file.
    pub fn close(self) -> (res: Result<Vec<u8>, StoreError>)
        requires
            self.wf(),
        ensures
            match self.closing() {
                Err(e) => res == Err::<Vec<u8>, StoreError>(e),
                Ok((blocks, index)) => {
                    &&& res matches Ok(file)
                    &&& file@ == store_file(blocks, index, self.docs().len())
                    &&& holds_store(file@, self.docs())
                },
            },
    {
        let mut this = self;
        if this.block_first < this.doc {
            match this.write_and_compress_block() {
                Ok(()) => {},
                Err(e) => {
                    return Err(e);
                },
            }
        }
        let ghost blocks = this.file@;
        let ghost index = this.offset_index@;
        let ghost docs = this.docs@;
        let header_offset = this.file.len() as u64;
        let mut i: usize = 0;
        proof {
            assert(index.take(0).len() == 0);
            assert(blocks + index_bytes(index.take(0)) == blocks);
        }
        while i < this.offset_index.len()
            invariant
                i <= this.offset_index@.len(),
                this.offset_index@ == index,
                this.doc == docs.len(),
                this.file@ == blocks + index_bytes(index.take(i as int)),
            decreases this.offset_index@.len() - i,
        {
            let mut doc_field = u32_to_le_bytes(this.offset_index[i].doc);
            let mut offset_field = u64_to_le_bytes(this.offset_index[i].offset);
            this.file.append(&mut doc_field);
            this.file.append(&mut offset_field);
            proof {
                assert(index.take(i + 1).drop_last() == index.take(i as int));
                assert(index.take(i + 1).last() == index[i as int]);
                assert(this.file@ == blocks + index_bytes(index.take(i + 1)));
            }
            i = i + 1;
        }
        let mut offset_field = u64_to_le_bytes(header_offset);
        let mut count_field = u32_to_le_bytes(this.doc);
        this.file.append(&mut offset_field);
        this.file.append(&mut count_field);
        proof {
            assert(index.take(i as int) == index);
            assert(this.file@ == store_file(blocks, index, docs.len()));
            lemma_finished_store(blocks, index, docs);
        }
        Ok(this.file)
    }
}

/// Once every doc stands in a block, the blocks with their index and the
/// footer behind them are a store of the documents.
pub proof fn lemma_finished_store(blocks: Seq<u8>, index: Seq<Checkpoint>, docs: Seq<Seq<u8>>)
    requires
        blocks_ok(blocks, index, docs, docs.len() as int),
        docs_fit(docs),
        docs.len() <= u32::MAX,
        blocks.len() <= u64::MAX,
    ensures
        holds_store(store_file(blocks, index, docs.len()), docs),
{
    lemma_auto_spec_u32_to_from_le_bytes();
    lemma_auto_spec_u64_to_from_le_bytes();
    lemma_decode_index(index);
    let file = store_file(blocks, index, docs.len());
    let n = file.len() as int;
    let index_offset = blocks.len() as int;
    assert(file.subrange(n - 12, n - 4) == spec_u64_to_le_bytes(blocks.len() as u64));
    assert(file.subrange(n - 4, n) == spec_u32_to_le_bytes(docs.len() as u32));
    assert(file.subrange(index_offset, n - 12) == index_bytes(index));
    assert forall|d: u32| d < docs.len() implies #[trigger] fetched(file, d) == Ok::<Seq<u8>, StoreError>(
        docs[d as int],
    ) by {
        assert(index.len() > 0);
        lemma_block_index_some(index, d, 0);
        lemma_block_index_bound(index, d);
        let k = block_index(index, d)->0;
        assert(block_ok(blocks, index, docs, docs.len() as int, k));
        let start = block_start(index, k);
        let first = index[k].doc as int;
        let bound = block_bound(index, docs.len() as int, k);
        let end = index[k].offset as int;
        if k + 1 < index.len() {
            assert(index[k + 1].doc > d);
        }
        assert(file.subrange(start, start + 4) == blocks.subrange(start, start + 4));
        assert(file.subrange(start + 4, end) == blocks.subrange(start + 4, end));
        let held = docs.subrange(first, bound);
        assert(docs_fit(held)) by {
            assert forall|i: int| 0 <= i < held.len() implies (#[trigger] held[i]).len() <= u32::MAX by {
                assert(docs[first + i].len() <= u32::MAX);
            }
        }
        lemma_nth_doc(held, (d - first) as nat);
        assert(held[d - first] == docs[d as int]);
    }
}

} // verus!
