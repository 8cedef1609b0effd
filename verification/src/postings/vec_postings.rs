//! A doc set over an in-memory list of doc ids.

use vstd::prelude::*;
use crate::postings::docset::{Cursor, DocId, DocSet, SkipResult, skip_outcome, steps_to, strictly_increasing};

verus! {

/// A posting list held as a vector of ascending doc ids.
pub struct VecPostings {
    doc_ids: Vec<DocId>,
    /// How many docs have been stepped onto.
    cursor: usize,
    finished: bool,
}

impl VecPostings {
    /// The doc ids, in the order they are yielded.
    pub closed spec fn doc_ids(&self) -> Seq<DocId> {
        self.doc_ids@
    }

    /// Wraps `doc_ids`, which must rise strictly.
    pub fn from(doc_ids: Vec<DocId>) -> (postings: VecPostings)
        requires
            strictly_increasing(doc_ids@),
        ensures
            postings.wf(),
            postings.doc_ids() == doc_ids@,
            postings.docs() == doc_ids@.to_set(),
            postings.cursor() == Cursor::Start,
            postings.hint() == doc_ids.len(),
    {
        VecPostings { doc_ids, cursor: 0, finished: false }
    }
}

impl DocSet for VecPostings {
    closed spec fn docs(&self) -> Set<DocId> {
        self.doc_ids@.to_set()
    }

    closed spec fn cursor(&self) -> Cursor {
        if self.finished {
            Cursor::End
        } else if self.cursor == 0 {
            Cursor::Start
        } else {
            Cursor::At(self.doc_ids@[self.cursor - 1])
        }
    }

    closed spec fn hint(&self) -> usize {
        self.doc_ids.len()
    }

    closed spec fn wf(&self) -> bool {
        &&& strictly_increasing(self.doc_ids@)
        &&& self.cursor <= self.doc_ids@.len()
    }

    proof fn lemma_wf(&self) {
        vstd::seq_lib::seq_to_set_is_finite(self.doc_ids@);
    }

    fn advance(&mut self) -> (more: bool) {
        if self.finished {
            return false;
        }
        if self.cursor < self.doc_ids.len() {
            self.cursor = self.cursor + 1;
            true
        } else {
            self.finished = true;
            false
        }
    }

    fn skip_next(&mut self, target: DocId) -> (res: SkipResult) {
        let ghost start = self.cursor();
        if self.finished {
            return SkipResult::End;
        }
        while self.cursor < self.doc_ids.len() && self.doc_ids[self.cursor] < target
            invariant
                self.wf(),
                !self.finished,
                self.doc_ids == old(self).doc_ids,
                old(self).cursor <= self.cursor,
                forall|k: int| old(self).cursor <= k < self.cursor ==> self.doc_ids@[k] < target,
            decreases self.doc_ids.len() - self.cursor,
        {
            self.cursor = self.cursor + 1;
        }
        if self.cursor < self.doc_ids.len() {
            let doc = self.doc_ids[self.cursor];
            self.cursor = self.cursor + 1;
            if doc == target {
                SkipResult::Reached
            } else {
                SkipResult::OverStep
            }
        } else {
            self.finished = true;
            SkipResult::End
        }
    }

    fn doc(&self) -> (doc: DocId) {
        self.doc_ids[self.cursor - 1]
    }

    fn size_hint(&self) -> (hint: usize) {
        self.doc_ids.len()
    }
}

} // verus!
