//! The query that matches every document of a segment.

use vstd::prelude::*;
use crate::postings::docset::{Cursor, DocId, DocSet, SkipResult, skip_outcome, steps_to};

verus! {

/// The doc ids below `max_doc`.
pub open spec fn docs_below(max_doc: DocId) -> Set<DocId> {
    Set::new(|x: DocId| x < max_doc)
}

/// There are finitely many doc ids below any bound.
pub proof fn lemma_docs_below_finite(max_doc: DocId)
    ensures
        docs_below(max_doc).finite(),
    decreases max_doc,
{
    if max_doc == 0 {
        assert(docs_below(max_doc) =~= Set::empty());
    } else {
        let below = (max_doc - 1) as DocId;
        lemma_docs_below_finite(below);
        assert(docs_below(max_doc) =~= docs_below(below).insert(below));
    }
}

/// Query that matches all of the documents.
#[derive(Debug)]
pub struct AllQuery;

impl AllQuery {
    /// The weight of this query; it depends on nothing.
    pub fn weight(&self) -> (weight: AllWeight) {
        AllWeight
    }
}

/// Weight of [`AllQuery`].
pub struct AllWeight;

impl AllWeight {
    /// A scorer over a segment whose doc ids are the ones below `max_doc`.
    pub fn scorer(&self, max_doc: DocId) -> (scorer: AllScorer)
        ensures
            scorer.wf(),
            scorer.docs() == docs_below(max_doc),
            scorer.cursor() == Cursor::Start,
            scorer.hint() == max_doc as usize,
    {
        AllScorer { started: false, doc: 0, max_doc }
    }
}

/// Doc set over every doc id of a segment.
pub struct AllScorer {
    started: bool,
    doc: DocId,
    max_doc: DocId,
}

impl DocSet for AllScorer {
    closed spec fn docs(&self) -> Set<DocId> {
        docs_below(self.max_doc)
    }

    closed spec fn cursor(&self) -> Cursor {
        if !self.started {
            Cursor::Start
        } else if self.doc < self.max_doc {
            Cursor::At(self.doc)
        } else {
            Cursor::End
        }
    }

    closed spec fn hint(&self) -> usize {
        self.max_doc as usize
    }

    closed spec fn wf(&self) -> bool {
        &&& self.doc <= self.max_doc
        &&& !self.started ==> self.doc == 0
    }

    proof fn lemma_wf(&self) {
        lemma_docs_below_finite(self.max_doc);
    }

    fn advance(&mut self) -> (more: bool) {
        if !self.started {
            self.started = true;
        } else if self.doc < self.max_doc {
            self.doc = self.doc + 1;
        }
        self.doc < self.max_doc
    }

    fn skip_next(&mut self, target: DocId) -> (res: SkipResult) {
        if !self.advance() {
            return SkipResult::End;
        }
        if self.doc < target {
            self.doc = if target < self.max_doc {
                target
            } else {
                self.max_doc
            };
        }
        if self.doc >= self.max_doc {
            SkipResult::End
        } else if self.doc == target {
            SkipResult::Reached
        } else {
            SkipResult::OverStep
        }
    }

    fn doc(&self) -> (doc: DocId) {
        self.doc
    }

    fn size_hint(&self) -> (hint: usize) {
        self.max_doc as usize
    }
}

} // verus!
