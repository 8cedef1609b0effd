//! The union of several doc sets, each doc once.

use vstd::prelude::*;
use crate::postings::docset::{Cursor, DocId, DocSet, SkipResult, skip_outcome, steps_to};
use crate::postings::union_all::{
    UnionAllDocSet, ahead_or_on, all_docs, kept, lemma_all_docs_contains, lemma_pending_positive,
    pending_in, total_hint,
};

verus! {

/// Iterates through the distinct docs of two or more doc sets in ascending
/// order.
pub struct UnionDocSet<TDocSet: DocSet> {
    inner: UnionAllDocSet<TDocSet>,
    current: Option<DocId>,
}

impl<TDocSet: DocSet> UnionDocSet<TDocSet> {
    /// The doc sets being merged.
    pub closed spec fn children(&self) -> Seq<TDocSet> {
        self.inner.children()
    }

    /// Ahead of the cursor, a doc is pending exactly when it belongs to the
    /// union; nothing below the cursor is pending.
    pub closed spec fn linked(&self) -> bool {
        &&& forall|x: DocId|
            self.inner.cursor().before(x) ==> (#[trigger] self.inner.pending(x) > 0
                <==> self.inner.universe().contains(x))
        &&& forall|x: DocId|
            #[trigger] self.inner.pending(x) > 0 ==> (self.inner.cursor() matches Cursor::At(d) ==> d <= x)
    }

    /// Merges `docsets`, none of which has been advanced yet.
    pub fn from(docsets: Vec<TDocSet>) -> (union: Self)
        requires
            docsets@.len() >= 2,
            forall|i: int| 0 <= i < docsets@.len() ==> (#[trigger] docsets@[i]).wf() && docsets@[i].cursor() is Start,
        ensures
            union.wf(),
            union.cursor() == Cursor::Start,
            union.docs() == all_docs(docsets@),
            union.hint() == (if total_hint(docsets@) <= usize::MAX {
                total_hint(docsets@) as usize
            } else {
                usize::MAX
            }),
            union.children().len() == docsets@.len(),
            forall|i: int| 0 <= i < docsets@.len() ==> (#[trigger] union.children()[i]).docs() == docsets@[i].docs(),
    {
        let inner = UnionAllDocSet::from(docsets);
        proof {
            assert forall|x: DocId| #[trigger] inner.pending(x) > 0 <==> inner.universe().contains(x) by {
                lemma_pending_positive(docsets@, x);
                lemma_all_docs_contains(docsets@, x);
                if pending_in(docsets@, x) > 0 {
                    let i = choose|i: int| 0 <= i < docsets@.len() && ahead_or_on(#[trigger] docsets@[i], x);
                    assert(docsets@[i].docs().contains(x));
                }
                if all_docs(docsets@).contains(x) {
                    let i = choose|i: int| 0 <= i < docsets@.len() && (#[trigger] docsets@[i]).docs().contains(x);
                    assert(ahead_or_on(docsets@[i], x));
                }
            }
        }
        UnionDocSet { inner, current: None }
    }

    /// The doc sets being merged.
    pub fn docsets(&self) -> (docsets: &[TDocSet])
        ensures
            docsets@ == self.children(),
    {
        self.inner.docsets()
    }
}

impl<TDocSet: DocSet> DocSet for UnionDocSet<TDocSet> {
    closed spec fn docs(&self) -> Set<DocId> {
        self.inner.universe()
    }

    closed spec fn cursor(&self) -> Cursor {
        self.inner.cursor()
    }

    closed spec fn hint(&self) -> usize {
        self.inner.hint()
    }

    closed spec fn wf(&self) -> bool {
        &&& self.inner.wf()
        &&& self.linked()
        &&& self.inner.cursor() matches Cursor::At(d) ==> self.inner.universe().contains(d) && self.current
            == Some(d)
        &&& self.inner.cursor() is Start ==> self.current is None
    }

    proof fn lemma_wf(&self) {
        self.inner.lemma_wf();
    }

    fn advance(&mut self) -> (more: bool) {
        let ghost start = self.inner;
        proof {
            start.lemma_wf();
        }
        if !self.inner.advance() {
            proof {
                assert forall|x: DocId| #[trigger]
                    start.universe().contains(x) && start.cursor().before(x) implies false by {
                    assert(start.pending(x) > 0);
                }
            }
            return false;
        }
        let doc = self.inner.doc();
        let ghost stepped = self.inner;
        let repeated = match self.current {
            Some(current) => current == doc,
            None => false,
        };
        proof {
            assert(stepped.pending(doc) + 1 == start.pending(doc));
            assert forall|x: DocId| #[trigger] start.pending(x) > 0 implies doc <= x by {}
        }
        if repeated {
            let res = match doc.checked_add(1) {
                Some(next) => self.inner.skip_next(next),
                None => {
                    self.inner.stop();
                    SkipResult::End
                },
            };
            proof {
                assert forall|x: DocId| doc < x implies #[trigger] stepped.pending(x) == start.pending(x) by {
                    assert(stepped.pending(x) + 0 == start.pending(x));
                }
            }
            match res {
                SkipResult::End => {
                    proof {
                        assert forall|x: DocId| #[trigger]
                            start.universe().contains(x) && start.cursor().before(x) implies false by {
                            assert(start.pending(x) > 0);
                            assert(stepped.pending(x) == start.pending(x));
                            if doc < u32::MAX {
                                assert(kept(stepped.pending(x), x, (doc + 1) as u32) == 0);
                            }
                        }
                    }
                    return false;
                },
                _ => {},
            }
            proof {
                let next = (doc + 1) as u32;
                let low = self.inner.cursor()->At_0;
                assert(stepped.pending(low) == start.pending(low));
                assert forall|x: DocId| #[trigger]
                    start.universe().contains(x) && start.cursor().before(x) implies low <= x by {
                    assert(start.pending(x) > 0);
                    assert(stepped.pending(x) == start.pending(x));
                    assert(kept(stepped.pending(x), x, next) > 0);
                }
                assert forall|x: DocId| self.inner.cursor().before(x) implies (#[trigger] self.inner.pending(
                    x,
                ) > 0 <==> self.inner.universe().contains(x)) by {
                    assert(stepped.pending(x) == start.pending(x));
                    assert(self.inner.pending(x) == kept(stepped.pending(x), x, next));
                    assert(start.cursor().before(x));
                }
                assert forall|x: DocId| #[trigger] self.inner.pending(x) > 0 implies low <= x by {
                    assert(kept(stepped.pending(x), x, next) > 0);
                }
            }
        } else {
            proof {
                assert forall|x: DocId| #[trigger]
                    start.universe().contains(x) && start.cursor().before(x) implies doc <= x by {
                    assert(start.pending(x) > 0);
                }
                assert forall|x: DocId| self.inner.cursor().before(x) implies (#[trigger] self.inner.pending(
                    x,
                ) > 0 <==> self.inner.universe().contains(x)) by {
                    assert(self.inner.pending(x) + 0 == start.pending(x));
                    assert(start.cursor().before(x));
                }
                assert forall|x: DocId| #[trigger] self.inner.pending(x) > 0 implies doc <= x by {
                    assert(self.inner.pending(x) <= start.pending(x));
                }
            }
        }
        self.current = Some(self.inner.doc());
        true
    }

    fn skip_next(&mut self, target: DocId) -> (res: SkipResult) {
        let ghost start = self.inner;
        proof {
            start.lemma_wf();
        }
        match self.current {
            Some(current) => {
                if target <= current {
                    return if self.advance() {
                        SkipResult::OverStep
                    } else {
                        SkipResult::End
                    };
                }
            },
            None => {},
        }
        let res = self.inner.skip_next(target);
        match res {
            SkipResult::End => {
                proof {
                    assert forall|x: DocId| #[trigger]
                        start.universe().contains(x) && start.cursor().before(x) implies x < target by {
                        if start.pending(x) > 0 {
                            assert(kept(start.pending(x), x, target) == 0);
                        }
                    }
                }
            },
            _ => {
                proof {
                    let low = self.inner.cursor()->At_0;
                    assert forall|x: DocId| #[trigger]
                        start.universe().contains(x) && start.cursor().before(x) && target <= x implies low
                        <= x by {
                        assert(start.pending(x) > 0);
                        assert(kept(start.pending(x), x, target) > 0);
                    }
                    assert forall|x: DocId| self.inner.cursor().before(x) implies (
                    #[trigger] self.inner.pending(x) > 0 <==> self.inner.universe().contains(x)) by {
                        assert(kept(start.pending(x), x, target) == start.pending(x));
                        assert(start.cursor().before(x));
                    }
                    assert forall|x: DocId| #[trigger] self.inner.pending(x) > 0 implies low <= x by {
                        assert(kept(start.pending(x), x, target) > 0);
                    }
                    assert(start.pending(low) > 0);
                    assert(start.cursor().before(low));
                }
                self.current = Some(self.inner.doc());
            },
        }
        res
    }

    fn doc(&self) -> (doc: DocId) {
        self.inner.doc()
    }

    fn size_hint(&self) -> (hint: usize) {
        self.inner.size_hint()
    }
}

} // verus!
