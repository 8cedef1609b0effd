//! The term dictionary of one field: term bytes to term information, with
//! ordinals and range streams.

use vstd::prelude::*;
use vstd::slice::slice_to_vec;
use crate::datastruct::fst_block::{Entries, entries_view, keys_increase};
use crate::common::serialize::BinarySerializable;
use crate::datastruct::fst_builder::{FstMapBuilder, LevelView, cascade, closing, keyed};
use crate::datastruct::fst_stream::{BoundView, FstMapStreamBuilder, FstMapStreamer};
use crate::datastruct::fstmap::{DictionaryError, FstMap};
use crate::datastruct::lex::above;
use crate::termdict::term_info::TermInfo;

verus! {

/// A stream of terms in order, each with its ordinal and its information.
pub type TermStreamer<'a> = FstMapStreamer<'a, TermInfo>;

/// A range of terms, with bounds still to be set.
pub type TermStreamerBuilder<'a> = FstMapStreamBuilder<'a, TermInfo>;

/// The dictionary of the terms of one field. The ordinal of a term is its
/// rank among the terms in byte order.
pub struct TermDictionaryImpl {
    fst: FstMap<TermInfo>,
    /// The terms in order: the side column behind the ordinals.
    terms: Vec<(Vec<u8>, u64)>,
}

impl TermDictionaryImpl {
    /// The term information under each term.
    pub closed spec fn infos(&self) -> Map<Seq<u8>, TermInfo> {
        self.fst@
    }

    /// The terms in order.
    pub closed spec fn terms(&self) -> Seq<Seq<u8>> {
        Seq::new(self.terms@.len(), |i: int| self.terms@[i].0@)
    }

    /// The map underneath.
    pub closed spec fn map(&self) -> FstMap<TermInfo> {
        self.fst
    }

    /// Validity: the side column lists the terms of the map.
    pub closed spec fn wf(&self) -> bool {
        &&& self.fst.wf()
        &&& entries_view(self.terms@) == self.fst.all_entries()
    }

    /// The terms rise, are the keys of the map, and stand in the side column
    /// in the order in which the map streams them.
    pub proof fn lemma_terms(&self)
        requires
            self.wf(),
        ensures
            self.map().wf(),
            self.terms().len() == self.map().all_entries().len(),
            forall|i: int| 0 <= i < self.terms().len() ==> #[trigger] self.terms()[i] == self.map().all_entries()[i].0,
            keys_increase(self.map().all_entries()),
            forall|k: Seq<u8>| #[trigger]
                self.infos().dom().contains(k) <==> exists|i: int|
                    0 <= i < self.terms().len() && #[trigger] self.terms()[i] == k,
    {
        self.fst.lemma_all_entries();
        let e = self.fst.all_entries();
        assert forall|i: int| 0 <= i < self.terms().len() implies #[trigger] self.terms()[i] == e[i].0 by {
            assert(e[i] == (self.terms@[i].0@, self.terms@[i].1));
        }
        assert forall|k: Seq<u8>| #[trigger]
            self.infos().dom().contains(k) <==> exists|i: int|
                0 <= i < self.terms().len() && #[trigger] self.terms()[i] == k by {
            if self.infos().dom().contains(k) {
                let i = choose|i: int| 0 <= i < e.len() && (#[trigger] e[i]).0 == k;
                assert(self.terms()[i] == k);
            }
            if exists|i: int| 0 <= i < self.terms().len() && #[trigger] self.terms()[i] == k {
                let i = choose|i: int| 0 <= i < self.terms().len() && #[trigger] self.terms()[i] == k;
                assert(e[i].0 == k);
            }
        }
    }

    /// The dictionary over an opened map.
    pub fn from_map(fst: FstMap<TermInfo>) -> (dictionary: TermDictionaryImpl)
        requires
            fst.wf(),
        ensures
            dictionary.wf(),
            dictionary.map() == fst,
            dictionary.infos() == fst@,
    {
        let terms = fst.entries();
        TermDictionaryImpl { fst, terms }
    }

    /// The information recorded for `key`, if it is a term of the
    /// dictionary.
    pub fn get(&self, key: &[u8]) -> (info: Option<TermInfo>)
        requires
            self.wf(),
        ensures
            match info {
                Some(i) => self.infos().dom().contains(key@) && self.infos()[key@] == i,
                None => !self.infos().dom().contains(key@),
            },
    {
        self.fst.get(key)
    }

    /// The number of terms.
    pub fn num_terms(&self) -> (count: usize)
        ensures
            count == self.terms().len(),
    {
        self.terms.len()
    }

    /// Fills `bytes` with the term of ordinal `ord`; `false`, and `bytes`
    /// emptied, where the dictionary has no such ordinal.
    pub fn ord_to_term(&self, ord: u64, bytes: &mut Vec<u8>) -> (found: bool)
        ensures
            found == (ord < self.terms().len()),
            found ==> final(bytes)@ == self.terms()[ord as int],
            !found ==> final(bytes)@.len() == 0,
    {
        bytes.clear();
        if ord < self.terms.len() as u64 {
            let mut term = slice_to_vec(self.terms[ord as usize].0.as_slice());
            bytes.append(&mut term);
            true
        } else {
            false
        }
    }

    /// A range over the terms, to be narrowed by bounds.
    pub fn range<'a>(&'a self) -> (builder: TermStreamerBuilder<'a>)
        ensures
            builder.map() == self.map(),
            builder.lower() == BoundView::Unbounded,
            builder.upper() == BoundView::Unbounded,
    {
        self.fst.range()
    }
}

/// Builds the file of a term dictionary. Terms come in strictly rising
/// order.
pub struct TermDictionaryBuilderImpl {
    inner: FstMapBuilder<TermInfo>,
}

impl TermDictionaryBuilderImpl {
    /// The terms inserted so far, each with its information.
    pub closed spec fn infos(&self) -> Map<Seq<u8>, TermInfo> {
        self.inner.entries()
    }

    /// The last term inserted.
    pub closed spec fn last_term(&self) -> Option<Seq<u8>> {
        self.inner.last_key()
    }

    /// The builder of the file underneath.
    pub closed spec fn builder(&self) -> FstMapBuilder<TermInfo> {
        self.inner
    }

    /// Validity of the builder.
    pub closed spec fn wf(&self) -> bool {
        self.inner.wf() && !self.inner.awaits_value()
    }

    /// A valid builder stands on a valid builder of the file, which waits for
    /// no value and holds the same terms.
    pub proof fn lemma_wf(&self)
        requires
            self.wf(),
        ensures
            self.builder().wf(),
            !self.builder().awaits_value(),
            self.builder().entries() == self.infos(),
            self.builder().last_key() == self.last_term(),
    {
    }

    /// A builder that holds no term. Blocks are written out once they take
    /// more than `block_size` bytes.
    pub fn new(block_size: usize) -> (builder: TermDictionaryBuilderImpl)
        ensures
            builder.wf(),
            builder.infos() == Map::<Seq<u8>, TermInfo>::empty(),
            builder.last_term() is None,
            builder.builder().block_size() == block_size,
            builder.builder().written() == 0,
            builder.builder().levels() == seq![LevelView { entries: Seq::empty(), floor: None }],
    {
        TermDictionaryBuilderImpl { inner: FstMapBuilder::with_block_size(block_size) }
    }

    /// Takes a term, which comes after every term inserted before, and its
    /// information. The call fails exactly where a block that it has to write
    /// out is too long.
    pub fn insert(&mut self, key: &[u8], value: &TermInfo) -> (res: Result<(), DictionaryError>)
        requires
            old(self).wf(),
            above(old(self).last_term(), key@),
        ensures
            match cascade(
                keyed(old(self).builder().levels(), key@, old(self).builder().written()),
                0,
                old(self).builder().block_size(),
                old(self).builder().written() + TermInfo::encode(*value).len(),
            ) {
                Err(e) => res == Err::<(), DictionaryError>(e),
                Ok((levels, written)) => {
                    &&& res is Ok
                    &&& final(self).wf()
                    &&& final(self).last_term() == Some(key@)
                    &&& final(self).infos() == old(self).infos().insert(key@, *value)
                    &&& final(self).builder().levels() == levels
                    &&& final(self).builder().written() == written
                    &&& final(self).builder().block_size() == old(self).builder().block_size()
                },
            },
    {
        self.inner.insert(key, value)
    }

    /// The finished dictionary, opened. The call fails exactly where a block
    /// that is still to be written is too long.
    pub fn into_dictionary(self) -> (res: Result<TermDictionaryImpl, DictionaryError>)
        requires
            self.wf(),
        ensures
            match closing(self.builder().levels(), 0, self.builder().written()) {
                Err(e) => res == Err::<TermDictionaryImpl, DictionaryError>(e),
                Ok(_) => res matches Ok(dictionary) && dictionary.wf() && dictionary.infos() == self.infos(),
            },
    {
        match self.inner.into_map() {
            Ok(map) => Ok(TermDictionaryImpl::from_map(map)),
            Err(e) => Err(e),
        }
    }

    /// The finished file of the dictionary. The call fails exactly where a
    /// block that is still to be written is too long.
    pub fn finish(self) -> (res: Result<Vec<u8>, DictionaryError>)
        requires
            self.wf(),
        ensures
            match closing(self.builder().levels(), 0, self.builder().written()) {
                Err(e) => res == Err::<Vec<u8>, DictionaryError>(e),
                Ok((top, depth, written)) => {
                    &&& res matches Ok(file)
                    &&& file@.len() == written + 9
                    &&& crate::datastruct::fstmap::holds_dictionary::<TermInfo>(file@, self.infos())
                    &&& FstMap::<TermInfo>::refused(file@) is None
                },
            },
    {
        self.inner.finish()
    }
}

} // verus!
