//! The docs of one term that are not deleted, as a doc set.

use vstd::prelude::*;
use crate::compression::stream::CompressedIntStream;
use crate::fastfield::delete::DeleteBitSet;
use crate::postings::block_segment_postings::{BlockSegmentPostings, FreqReadingOption};
use crate::postings::docset::{
    Cursor, DocId, DocSet, SkipResult, docs_ahead, lemma_step_shrinks_ahead, skip_outcome, steps_to,
};

verus! {

/// The docs among `all` that `deleted` does not hold.
pub open spec fn live_docs(all: Seq<(u32, u32)>, deleted: DeleteBitSet) -> Set<DocId> {
    Set::new(|d: DocId| !deleted.deleted(d) && exists|i: int| 0 <= i < all.len() && (#[trigger] all[i]).0 == d)
}

/// The postings of a term in a segment: block postings, without the docs
/// that are deleted, and with the stream of positions where it was asked
/// for.
pub struct SegmentPostings<'a> {
    block_cursor: BlockSegmentPostings<'a>,
    cur: usize,
    delete_bitset: &'a DeleteBitSet,
    position_stream: Option<CompressedIntStream<'a>>,
    started: bool,
    finished: bool,
}

impl<'a> SegmentPostings<'a> {
    /// The block postings underneath.
    pub closed spec fn blocks(&self) -> BlockSegmentPostings<'a> {
        self.block_cursor
    }

    /// The deleted docs.
    pub closed spec fn deleted(&self) -> DeleteBitSet {
        *self.delete_bitset
    }

    /// The stream of positions, if there is one.
    pub closed spec fn positions(&self) -> Option<CompressedIntStream<'a>> {
        self.position_stream
    }

    /// How many postings have been looked at.
    pub closed spec fn seen(&self) -> int {
        if self.finished {
            self.block_cursor.all().len() as int
        } else if !self.started {
            0
        } else {
            self.block_cursor.loaded() - self.block_cursor.block_docs().len() + self.cur + 1
        }
    }

    /// The postings of a term, from its block postings.
    pub fn from_block_postings(
        segment_block_postings: BlockSegmentPostings<'a>,
        delete_bitset: &'a DeleteBitSet,
        position_stream: Option<CompressedIntStream<'a>>,
    ) -> (postings: SegmentPostings<'a>)
        requires
            segment_block_postings.wf(),
            segment_block_postings.loaded() == 0,
        ensures
            postings.wf(),
            postings.cursor() == Cursor::Start,
            postings.blocks() == segment_block_postings,
            postings.deleted() == *delete_bitset,
            postings.positions() == position_stream,
            postings.docs() == live_docs(segment_block_postings.all(), *delete_bitset),
    {
        proof {
            segment_block_postings.lemma_wf();
        }
        SegmentPostings {
            block_cursor: segment_block_postings,
            cur: 0,
            delete_bitset,
            position_stream,
            started: false,
            finished: false,
        }
    }

    /// How often the term occurs in the doc the postings stand on: the
    /// recorded frequency where frequencies are read, 1 otherwise.
    pub fn term_freq(&self) -> (tf: u32)
        requires
            self.wf(),
            self.cursor() is At,
        ensures
            tf == (if self.blocks().option() is ReadFreq {
                self.blocks().all()[self.seen() - 1].1
            } else {
                1u32
            }),
    {
        proof {
            self.block_cursor.lemma_wf();
        }
        let freqs = self.block_cursor.freqs();
        if self.cur < freqs.len() {
            freqs[self.cur]
        } else {
            1
        }
    }
}

impl<'a> DocSet for SegmentPostings<'a> {
    closed spec fn docs(&self) -> Set<DocId> {
        live_docs(self.block_cursor.all(), *self.delete_bitset)
    }

    closed spec fn cursor(&self) -> Cursor {
        if self.finished {
            Cursor::End
        } else if !self.started {
            Cursor::Start
        } else {
            Cursor::At(self.block_cursor.block_docs()[self.cur as int])
        }
    }

    closed spec fn hint(&self) -> usize {
        self.block_cursor.all().len() as usize
    }

    closed spec fn wf(&self) -> bool {
        &&& self.block_cursor.wf()
        &&& self.block_cursor.all().len() <= usize::MAX
        &&& !self.started ==> !self.finished && self.block_cursor.loaded() == 0
        &&& self.started && !self.finished ==> self.cur < self.block_cursor.block_docs().len() && !self.delete_bitset.deleted(
            self.block_cursor.block_docs()[self.cur as int],
        )
    }

    proof fn lemma_wf(&self) {
        let all = self.block_cursor.all();
        let docs = Seq::new(all.len(), |i: int| all[i].0);
        vstd::seq_lib::seq_to_set_is_finite(docs);
        assert(self.docs().subset_of(docs.to_set())) by {
            assert forall|d: DocId| self.docs().contains(d) implies docs.to_set().contains(d) by {
                let i = choose|i: int| 0 <= i < all.len() && (#[trigger] all[i]).0 == d;
                assert(docs[i] == d);
            }
        }
        vstd::set_lib::lemma_len_subset(self.docs(), docs.to_set());
        self.block_cursor.lemma_wf();
        if self.cursor() is At {
            let g = self.seen() - 1;
            assert(all[g].0 == self.block_cursor.block_docs()[self.cur as int]);
        }
    }

    fn advance(&mut self) -> (more: bool) {
        if self.finished {
            return false;
        }
        let ghost all = self.block_cursor.all();
        let ghost origin = self.cursor();
        let ghost first = self.seen();
        proof {
            self.block_cursor.lemma_wf();
        }
        loop
            invariant
                self.block_cursor.wf(),
                self.block_cursor.all() == all,
                all == old(self).block_cursor.all(),
                self.delete_bitset == old(self).delete_bitset,
                origin == old(self).cursor(),
                !(origin is End),
                all.len() <= usize::MAX,
                !self.finished,
                !self.started ==> self.block_cursor.loaded() == 0,
                self.started ==> self.cur < self.block_cursor.block_docs().len(),
                first <= self.seen() <= all.len(),
                first == old(self).seen(),
                origin matches Cursor::At(d) ==> first >= 1 && all[first - 1].0 == d,
                origin is Start ==> first == 0,
                forall|i: int, j: int| 0 <= i < j < all.len() ==> all[i].0 < all[j].0,
                forall|i: int| first <= i < self.seen() ==> self.delete_bitset.deleted(#[trigger] all[i].0),
            decreases all.len() - self.seen(),
        {
            proof {
                self.block_cursor.lemma_wf();
            }
            if self.started {
                self.cur = self.cur + 1;
            } else {
                self.started = true;
                self.cur = 0;
            }
            if self.cur >= self.block_cursor.docs().len() {
                if !self.block_cursor.advance() {
                    self.finished = true;
                    proof {
                        assert forall|x: DocId| #[trigger] self.docs().contains(x) && origin.before(x) implies false by {
                            let i = choose|i: int| 0 <= i < all.len() && (#[trigger] all[i]).0 == x;
                            if origin is At {
                                if i < first - 1 {
                                    assert(all[i].0 < all[first - 1].0);
                                }
                            }
                            assert(self.delete_bitset.deleted(all[i].0));
                        }
                    }
                    return false;
                }
                self.cur = 0;
            }
            proof {
                self.block_cursor.lemma_wf();
            }
            let doc = self.block_cursor.docs()[self.cur];
            if !self.delete_bitset.is_deleted(doc) {
                proof {
                    let g = self.seen() - 1;
                    assert(all[g].0 == doc);
                    assert(self.docs().contains(doc));
                    if origin is At {
                        assert(all[first - 1].0 < all[g].0);
                    }
                    assert forall|x: DocId| #[trigger] self.docs().contains(x) && origin.before(x) implies doc
                        <= x by {
                        let i = choose|i: int| 0 <= i < all.len() && (#[trigger] all[i]).0 == x;
                        if i < g {
                            if origin is At {
                                if i < first - 1 {
                                    assert(all[i].0 < all[first - 1].0);
                                }
                            }
                            assert(self.delete_bitset.deleted(all[i].0));
                        } else if i > g {
                            assert(all[g].0 < all[i].0);
                        }
                    }
                }
                return true;
            }
            proof {
                let g = self.seen() - 1;
                assert(all[g].0 == doc);
            }
        }
    }

    fn skip_next(&mut self, target: DocId) -> (res: SkipResult) {
        let ghost docs = self.docs();
        let ghost origin = self.cursor();
        if !self.advance() {
            return SkipResult::End;
        }
        loop
            invariant
                self.wf(),
                self.docs() == docs,
                docs == old(self).docs(),
                origin == old(self).cursor(),
                self.hint() == old(self).hint(),
                self.cursor() is At,
                origin.before(self.cursor()->At_0),
                forall|x: DocId| #[trigger] docs.contains(x) && origin.before(x) && target <= x ==> self.cursor()->At_0
                    <= x,
            decreases docs_ahead(docs, self.cursor()).len(),
        {
            let ghost here = self.cursor();
            proof {
                self.lemma_wf();
            }
            let doc = self.doc();
            if doc == target {
                return SkipResult::Reached;
            }
            if doc > target {
                return SkipResult::OverStep;
            }
            if !self.advance() {
                return SkipResult::End;
            }
            proof {
                lemma_step_shrinks_ahead(docs, here, 0, self.cursor());
            }
        }
    }

    fn doc(&self) -> (doc: DocId) {
        self.block_cursor.docs()[self.cur]
    }

    fn size_hint(&self) -> (hint: usize) {
        self.block_cursor.doc_freq()
    }
}

} // verus!
