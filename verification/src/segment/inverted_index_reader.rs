//! Access to the inverted index of one field of a segment.

use vstd::prelude::*;
use vstd::bytes::{spec_u64_from_le_bytes, u64_from_le_bytes};
use vstd::slice::slice_subrange;
use crate::compression::stream::{CompressedIntStream, skip_vints};
use crate::fastfield::delete::DeleteBitSet;
use crate::postings::block_segment_postings::{
    BlockSegmentPostings, FreqReadingOption, holds_postings, records,
};
use crate::postings::docset::{Cursor, DocSet};
use crate::postings::segment_postings::{SegmentPostings, live_docs};
use crate::schema::index_record_option::IndexRecordOption;
use crate::schema::term::Term;
use crate::termdict::dictionary::TermDictionaryImpl;
use crate::termdict::term_info::TermInfo;

verus! {

/// What a reader does with the term frequencies, given what the field
/// records and what is asked for: a field that records docs only holds no
/// frequencies; frequencies that are not asked for are passed over.
pub fn freq_reading_option(indexed: IndexRecordOption, requested: IndexRecordOption) -> (option: FreqReadingOption)
    ensures
        option == (if indexed is Basic {
            FreqReadingOption::NoFreq
        } else if requested is Basic {
            FreqReadingOption::SkipFreq
        } else {
            FreqReadingOption::ReadFreq
        }),
{
    match (indexed, requested) {
        (IndexRecordOption::Basic, _) => FreqReadingOption::NoFreq,
        (_, IndexRecordOption::Basic) => FreqReadingOption::SkipFreq,
        (_, _) => FreqReadingOption::ReadFreq,
    }
}

/// Why the postings of a term could not be read.
#[derive(Clone, Copy, Debug, PartialEq, Eq, Structural)]
pub enum PostingsError {
    /// The dictionary points to bytes that are no postings.
    Corrupted,
}

/// The inverted index reader is in charge of accessing the inverted index
/// associated to a specific field.
pub struct InvertedIndexReader {
    termdict: TermDictionaryImpl,
    postings_source: Vec<u8>,
    positions_source: Vec<u8>,
    delete_bitset: DeleteBitSet,
    record_option: IndexRecordOption,
}

impl InvertedIndexReader {
    /// The term dictionary.
    pub closed spec fn dict(&self) -> TermDictionaryImpl {
        self.termdict
    }

    /// The bytes of the postings file.
    pub closed spec fn postings(&self) -> Seq<u8> {
        self.postings_source@
    }

    /// The bytes of the positions file.
    pub closed spec fn positions(&self) -> Seq<u8> {
        self.positions_source@
    }

    /// The deleted docs.
    pub closed spec fn deleted(&self) -> DeleteBitSet {
        self.delete_bitset
    }

    /// What the field records.
    pub closed spec fn record_option(&self) -> IndexRecordOption {
        self.record_option
    }

    /// The postings that `term_info` points to can be read.
    pub open spec fn readable(&self, term_info: TermInfo) -> bool {
        &&& term_info.postings_offset <= self.postings().len()
        &&& term_info.positions_offset <= self.positions().len()
        &&& term_info.doc_freq <= usize::MAX
        &&& term_info.positions_inner_offset <= usize::MAX
        &&& records(
            self.postings().skip(term_info.postings_offset as int),
            term_info.doc_freq as nat,
            !(self.record_option() is Basic),
            None,
        ) is Some
    }

    /// The postings of `term_info`: each doc with its term frequency.
    pub open spec fn postings_of(&self, term_info: TermInfo) -> Seq<(u32, u32)> {
        records(
            self.postings().skip(term_info.postings_offset as int),
            term_info.doc_freq as nat,
            !(self.record_option() is Basic),
            None,
        )->0
    }

    /// Validity: the dictionary is valid, and the postings of every term can
    /// be read.
    pub closed spec fn wf(&self) -> bool {
        &&& self.termdict.wf()
        &&& forall|k: Seq<u8>| #[trigger]
            self.termdict.infos().dom().contains(k) ==> self.readable(self.termdict.infos()[k])
    }

    /// The reader over the files of a field.
    pub fn new(
        termdict: TermDictionaryImpl,
        postings_source: Vec<u8>,
        positions_source: Vec<u8>,
        delete_bitset: DeleteBitSet,
        record_option: IndexRecordOption,
    ) -> (reader: InvertedIndexReader)
        ensures
            reader.dict() == termdict,
            reader.postings() == postings_source@,
            reader.positions() == positions_source@,
            reader.deleted() == delete_bitset,
            reader.record_option() == record_option,
    {
        InvertedIndexReader { termdict, postings_source, positions_source, delete_bitset, record_option }
    }

    /// Returns the term info associated with the term.
    pub fn get_term_info(&self, term: &Term) -> (info: Option<TermInfo>)
        requires
            self.dict().wf(),
        ensures
            match info {
                Some(i) => self.dict().infos().dom().contains(term.value_spec()) && self.dict().infos()[term.value_spec()]
                    == i,
                None => !self.dict().infos().dom().contains(term.value_spec()),
            },
    {
        self.termdict.get(term.value_bytes())
    }

    /// Return the term dictionary datastructure.
    pub fn terms(&self) -> (dict: &TermDictionaryImpl)
        ensures
            *dict == self.dict(),
    {
        &self.termdict
    }

    /// Resets the block segment to another position of the postings file.
    /// The stream of positions stays where it is.
    pub fn reset_block_postings_from_terminfo<'a>(
        &'a self,
        term_info: &TermInfo,
        block_postings: &mut BlockSegmentPostings<'a>,
    )
        requires
            self.readable(*term_info),
            old(block_postings).with_freq() == !(self.record_option() is Basic),
        ensures
            final(block_postings).wf(),
            final(block_postings).option() == old(block_postings).option(),
            final(block_postings).all() == self.postings_of(*term_info),
            final(block_postings).loaded() == 0,
    {
        let offset = term_info.postings_offset as usize;
        let end_source = self.postings_source.len();
        let postings_slice = slice_subrange(self.postings_source.as_slice(), offset, end_source);
        proof {
            assert(postings_slice@ == self.postings_source@.skip(offset as int));
        }
        block_postings.reset(term_info.doc_freq as usize, postings_slice);
    }

    /// Returns a block postings given a `term_info`.
    pub fn read_block_postings_from_terminfo<'a>(
        &'a self,
        term_info: &TermInfo,
        requested_option: IndexRecordOption,
    ) -> (block_postings: BlockSegmentPostings<'a>)
        requires
            self.readable(*term_info),
        ensures
            block_postings.wf(),
            block_postings.option() == (if self.record_option() is Basic {
                FreqReadingOption::NoFreq
            } else if requested_option is Basic {
                FreqReadingOption::SkipFreq
            } else {
                FreqReadingOption::ReadFreq
            }),
            block_postings.all() == self.postings_of(*term_info),
            block_postings.loaded() == 0,
    {
        let offset = term_info.postings_offset as usize;
        let end_source = self.postings_source.len();
        let postings_data = slice_subrange(self.postings_source.as_slice(), offset, end_source);
        proof {
            assert(postings_data@ == self.postings_source@.skip(offset as int));
        }
        let freq_reading_option = freq_reading_option(self.record_option, requested_option);
        BlockSegmentPostings::from_data(term_info.doc_freq as usize, postings_data, freq_reading_option)
    }

    /// Returns a posting object given a `term_info`: the docs of the term
    /// that are not deleted, with the stream of positions where positions
    /// are asked for and recorded.
    pub fn read_postings_from_terminfo<'a>(&'a self, term_info: &TermInfo, option: IndexRecordOption) -> (postings:
        SegmentPostings<'a>)
        requires
            self.readable(*term_info),
        ensures
            postings.wf(),
            postings.cursor() == Cursor::Start,
            postings.docs() == live_docs(self.postings_of(*term_info), self.deleted()),
            postings.blocks().all() == self.postings_of(*term_info),
            postings.blocks().option() == (if self.record_option() is Basic {
                FreqReadingOption::NoFreq
            } else if option is Basic {
                FreqReadingOption::SkipFreq
            } else {
                FreqReadingOption::ReadFreq
            }),
            postings.positions() is Some <==> option is WithFreqsAndPositions && self.record_option()
                is WithFreqsAndPositions,
            postings.positions() matches Some(stream) ==> stream.wf() && stream.data() == self.positions().skip(
                term_info.positions_offset as int,
            ) && stream.pos() == skip_vints(stream.data(), 0, term_info.positions_inner_offset as nat),
    {
        let block_postings = self.read_block_postings_from_terminfo(term_info, option);
        let position_stream = if option.has_positions() && self.record_option.has_positions() {
            let position_offset = term_info.positions_offset as usize;
            let end_source = self.positions_source.len();
            let positions_source = slice_subrange(self.positions_source.as_slice(), position_offset, end_source);
            proof {
                assert(positions_source@ == self.positions_source@.skip(position_offset as int));
            }
            let mut stream = CompressedIntStream::wrap(positions_source);
            stream.skip(term_info.positions_inner_offset as usize);
            Some(stream)
        } else {
            None
        };
        SegmentPostings::from_block_postings(block_postings, &self.delete_bitset, position_stream)
    }

    /// Returns the total number of tokens recorded for all documents
    /// (including deleted documents): the first eight bytes of the postings
    /// file, or 0 where the file is shorter.
    pub fn total_num_tokens(&self) -> (total: u64)
        ensures
            total == (if self.postings().len() >= 8 {
                spec_u64_from_le_bytes(self.postings().subrange(0, 8))
            } else {
                0
            }),
    {
        if self.postings_source.len() < 8 {
            return 0;
        }
        u64_from_le_bytes(slice_subrange(self.postings_source.as_slice(), 0, 8))
    }

    /// Returns the segment postings associated with the term, and with the
    /// given option, or `None` if the term has never been encountered and
    /// indexed.
    pub fn read_postings<'a>(&'a self, term: &Term, option: IndexRecordOption) -> (postings: Option<
        SegmentPostings<'a>,
    >)
        requires
            self.wf(),
        ensures
            postings is Some <==> self.dict().infos().dom().contains(term.value_spec()),
            postings matches Some(p) ==> p.wf() && p.cursor() == Cursor::Start && p.docs() == live_docs(
                self.postings_of(self.dict().infos()[term.value_spec()]),
                self.deleted(),
            ),
    {
        let term_info = match self.get_term_info(term) {
            Some(term_info) => term_info,
            None => {
                return None;
            },
        };
        Some(self.read_postings_from_terminfo(&term_info, option))
    }

    /// Whether the postings that `term_info` points to can be read.
    pub fn is_readable(&self, term_info: &TermInfo) -> (ok: bool)
        ensures
            ok == self.readable(*term_info),
    {
        let end_source = self.postings_source.len();
        if term_info.postings_offset > end_source as u64 || term_info.positions_offset
            > self.positions_source.len() as u64 || term_info.positions_inner_offset > usize::MAX as u64 {
            return false;
        }
        let offset = term_info.postings_offset as usize;
        let postings_data = slice_subrange(self.postings_source.as_slice(), offset, end_source);
        proof {
            assert(postings_data@ == self.postings_source@.skip(offset as int));
        }
        let with_freq = match self.record_option {
            IndexRecordOption::Basic => false,
            _ => true,
        };
        holds_postings(postings_data, term_info.doc_freq as usize, with_freq)
    }

    /// Returns the segment postings associated with the term, after testing
    /// that the bytes the dictionary points to are postings: `Ok(None)` for
    /// a term that the dictionary lacks, `Corrupted` where the test fails.
    pub fn read_postings_checked<'a>(&'a self, term: &Term, option: IndexRecordOption) -> (res: Result<
        Option<SegmentPostings<'a>>,
        PostingsError,
    >)
        requires
            self.dict().wf(),
        ensures
            match res {
                Ok(None) => !self.dict().infos().dom().contains(term.value_spec()),
                Ok(Some(p)) => {
                    &&& self.dict().infos().dom().contains(term.value_spec())
                    &&& self.readable(self.dict().infos()[term.value_spec()])
                    &&& p.wf()
                    &&& p.cursor() == Cursor::Start
                    &&& p.docs() == live_docs(
                        self.postings_of(self.dict().infos()[term.value_spec()]),
                        self.deleted(),
                    )
                },
                Err(_) => self.dict().infos().dom().contains(term.value_spec()) && !self.readable(
                    self.dict().infos()[term.value_spec()],
                ),
            },
    {
        let term_info = match self.get_term_info(term) {
            Some(term_info) => term_info,
            None => {
                return Ok(None);
            },
        };
        if !self.is_readable(&term_info) {
            return Err(PostingsError::Corrupted);
        }
        Ok(Some(self.read_postings_from_terminfo(&term_info, option)))
    }

    /// Returns the number of documents containing the term.
    pub fn doc_freq(&self, term: &Term) -> (doc_freq: u32)
        requires
            self.dict().wf(),
        ensures
            doc_freq == (if self.dict().infos().dom().contains(term.value_spec()) {
                self.dict().infos()[term.value_spec()].doc_freq
            } else {
                0
            }),
    {
        match self.get_term_info(term) {
            Some(term_info) => term_info.doc_freq,
            None => 0,
        }
    }
}

} // verus!
