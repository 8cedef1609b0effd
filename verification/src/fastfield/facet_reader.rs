//! The facets of one field of a segment: which facets each doc holds, and
//! the dictionary that names them.

use vstd::prelude::*;
use crate::fastfield::multivalued::reader::MultiValueIntFastFieldReader;
use crate::schema::facet::Facet;
use crate::termdict::dictionary::TermDictionaryImpl;

verus! {

/// Reads the facet ordinals of the docs of a segment and turns ordinals
/// back into facets.
pub struct FacetReader {
    term_ords: MultiValueIntFastFieldReader,
    term_dict: TermDictionaryImpl,
    facet: Facet,
}

impl FacetReader {
    /// The dictionary of the facets.
    pub closed spec fn dict(&self) -> TermDictionaryImpl {
        self.term_dict
    }

    /// The column of facet ordinals.
    pub closed spec fn ords(&self) -> MultiValueIntFastFieldReader {
        self.term_ords
    }

    /// The facet read last.
    pub closed spec fn facet(&self) -> Facet {
        self.facet
    }

    /// Validity of the reader.
    pub closed spec fn wf(&self) -> bool {
        self.term_ords.wf() && self.term_dict.wf()
    }

    /// The parts are valid.
    pub proof fn lemma_wf(&self)
        requires
            self.wf(),
        ensures
            self.dict().wf(),
            self.ords().wf(),
    {
    }

    /// Binds the column of ordinals to the dictionary of the same field.
    pub fn new(term_ords: MultiValueIntFastFieldReader, term_dict: TermDictionaryImpl) -> (reader: FacetReader)
        requires
            term_ords.wf(),
            term_dict.wf(),
        ensures
            reader.wf(),
            reader.dict() == term_dict,
            reader.ords() == term_ords,
    {
        FacetReader { term_ords, term_dict, facet: Facet::new() }
    }

    /// The number of facets of the segment, ancestors included.
    pub fn num_facets(&self) -> (count: usize)
        ensures
            count == self.dict().terms().len(),
    {
        self.term_dict.num_terms()
    }

    /// The number of docs of the segment.
    pub fn num_docs(&self) -> (count: usize)
        requires
            self.wf(),
        ensures
            count == self.ords().num_docs(),
    {
        self.term_ords.len()
    }

    /// The dictionary of the facets, for range streams.
    pub fn facet_dict(&self) -> (dict: &TermDictionaryImpl)
        ensures
            *dict == self.dict(),
    {
        &self.term_dict
    }

    /// The facet of ordinal `term_ord`, the root where there is no such
    /// ordinal. It stays readable until the next call.
    pub fn facet_from_ord(&mut self, term_ord: usize) -> (facet: &Facet)
        ensures
            final(self).dict() == old(self).dict(),
            final(self).ords() == old(self).ords(),
            term_ord < old(self).dict().terms().len() ==> facet@ == old(self).dict().terms()[term_ord as int],
            term_ord >= old(self).dict().terms().len() ==> facet@.len() == 0,
    {
        let mut bytes: Vec<u8> = Vec::new();
        let found = self.term_dict.ord_to_term(term_ord as u64, &mut bytes);
        self.facet = Facet::from_encoded(bytes);
        &self.facet
    }

    /// Fills `out` with the ordinals of the facets of `doc`, in the order in
    /// which they were recorded.
    pub fn facet_ords(&self, doc: u32, out: &mut Vec<u64>)
        requires
            self.wf(),
            doc < self.ords().num_docs(),
        ensures
            final(out)@ == self.ords().values_of(doc as int),
    {
        self.term_ords.get_vals_into(doc, out);
    }

    /// The ordinals of the facets of `doc`.
    pub fn term_ords(&mut self, doc: u32) -> (ords: &[u64])
        requires
            old(self).wf(),
            doc < old(self).ords().num_docs(),
        ensures
            ords@ == old(self).ords().values_of(doc as int),
    {
        self.term_ords.get_vals(doc)
    }
}

} // verus!
