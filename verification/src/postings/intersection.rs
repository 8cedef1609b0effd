//! The docs that every one of several doc sets holds.

use vstd::prelude::*;
use crate::postings::docset::{Cursor, DocId, DocSet, SkipResult, skip_outcome, steps_to};

verus! {

/// The docs that all of `children` hold.
pub open spec fn common_docs<T: DocSet>(children: Seq<T>) -> Set<DocId> {
    Set::new(|x: DocId| forall|i: int| 0 <= i < children.len() ==> (#[trigger] children[i]).docs().contains(x))
}

/// Iterates through the docs common to one or more doc sets in ascending
/// order.
pub struct IntersectionDocSet<TDocSet: DocSet> {
    docsets: Vec<TDocSet>,
    finished: bool,
    started: bool,
    doc: DocId,
}

impl<TDocSet: DocSet> IntersectionDocSet<TDocSet> {
    /// The doc sets being intersected.
    pub closed spec fn children(&self) -> Seq<TDocSet> {
        self.docsets@
    }

    /// Intersects `docsets`, none of which has been advanced yet.
    pub fn from(docsets: Vec<TDocSet>) -> (intersection: Self)
        requires
            docsets@.len() >= 1,
            forall|i: int| 0 <= i < docsets@.len() ==> (#[trigger] docsets@[i]).wf() && docsets@[i].cursor() is Start,
        ensures
            intersection.wf(),
            intersection.cursor() == Cursor::Start,
            intersection.docs() == common_docs(docsets@),
            intersection.children() == docsets@,
    {
        IntersectionDocSet { docsets, finished: false, started: false, doc: 0 }
    }

    /// The doc sets being intersected.
    pub fn docsets(&self) -> (docsets: &[TDocSet])
        ensures
            docsets@ == self.children(),
    {
        self.docsets.as_slice()
    }
}

/// Children that hold the same docs have the same common docs.
pub proof fn lemma_common_docs_same<T: DocSet>(a: Seq<T>, b: Seq<T>)
    requires
        a.len() == b.len(),
        forall|i: int| 0 <= i < a.len() ==> (#[trigger] a[i]).docs() == b[i].docs(),
    ensures
        common_docs(a) == common_docs(b),
{
    assert forall|x: DocId| common_docs(a).contains(x) <==> common_docs(b).contains(x) by {
        if common_docs(a).contains(x) {
            assert forall|i: int| 0 <= i < b.len() implies (#[trigger] b[i]).docs().contains(x) by {
                assert(a[i].docs().contains(x));
            }
        }
        if common_docs(b).contains(x) {
            assert forall|i: int| 0 <= i < a.len() implies (#[trigger] a[i]).docs().contains(x) by {
                assert(b[i].docs().contains(x));
            }
        }
    }
    assert(common_docs(a) =~= common_docs(b));
}

impl<TDocSet: DocSet> DocSet for IntersectionDocSet<TDocSet> {
    closed spec fn docs(&self) -> Set<DocId> {
        common_docs(self.docsets@)
    }

    closed spec fn cursor(&self) -> Cursor {
        if self.finished {
            Cursor::End
        } else if !self.started {
            Cursor::Start
        } else {
            Cursor::At(self.doc)
        }
    }

    closed spec fn hint(&self) -> usize {
        self.docsets@[0].hint()
    }

    closed spec fn wf(&self) -> bool {
        &&& self.docsets@.len() >= 1
        &&& forall|i: int| 0 <= i < self.docsets@.len() ==> (#[trigger] self.docsets@[i]).wf()
        &&& !self.finished && !self.started ==> forall|i: int|
            0 <= i < self.docsets@.len() ==> (#[trigger] self.docsets@[i]).cursor() is Start
        &&& !self.finished && self.started ==> forall|i: int|
            0 <= i < self.docsets@.len() ==> (#[trigger] self.docsets@[i]).cursor() == Cursor::At(self.doc)
    }

    proof fn lemma_wf(&self) {
        let first = self.docsets@[0];
        assert(first.wf());
        first.lemma_wf();
        assert(common_docs(self.docsets@).subset_of(first.docs()));
        vstd::set_lib::lemma_len_subset(common_docs(self.docsets@), first.docs());
        if self.cursor() is At {
            assert forall|i: int| 0 <= i < self.docsets@.len() implies (#[trigger] self.docsets@[i]).docs().contains(
                self.doc,
            ) by {
                assert(self.docsets@[i].wf());
                self.docsets@[i].lemma_wf();
            }
        }
    }

    fn advance(&mut self) -> (more: bool) {
        match self.skip_next(0) {
            SkipResult::End => false,
            _ => true,
        }
    }

    fn skip_next(&mut self, target: DocId) -> (res: SkipResult) {
        if self.finished {
            return SkipResult::End;
        }
        let ghost origin = self.cursor();
        let ghost before = self.docsets@;
        let n = self.docsets.len();
        assert(n >= 1);
        let mut candidate: DocId = target;
        if self.started {
            match self.docsets[0].skip_next(target) {
                SkipResult::End => {
                    self.finished = true;
                    proof {
                        lemma_common_docs_same(self.docsets@, before);
                        assert forall|x: DocId| #[trigger]
                            common_docs(before).contains(x) && origin.before(x) implies x < target by {
                            assert(before[0].docs().contains(x));
                        }
                    }
                    return SkipResult::End;
                },
                _ => {},
            }
            candidate = self.docsets[0].doc();
            proof {
                assert forall|x: DocId| #[trigger]
                    common_docs(before).contains(x) && origin.before(x) && target <= x implies candidate
                    <= x by {
                    assert(before[0].docs().contains(x));
                }
                assert forall|i: int, x: DocId|
                    0 <= i < n && origin.before(x) && target <= x && common_docs(before).contains(x)
                        && #[trigger] before[i].docs().contains(x) implies self.docsets@[i].cursor()->At_0
                    <= x by {
                    assert(before[i].cursor() == Cursor::At(self.doc));
                    assert(before[0].docs().contains(x));
                }
            }
        } else {
            let mut ord: usize = 0;
            while ord < n
                invariant
                    n == before.len(),
                    before == old(self).docsets@,
                origin == old(self).cursor(),
                    origin == old(self).cursor(),
                    n >= 1,
                    self.docsets@.len() == n,
                    ord <= n,
                    !self.finished,
                    !self.started,
                    origin is Start,
                    target <= candidate,
                    forall|i: int| 0 <= i < n ==> (#[trigger] self.docsets@[i]).wf(),
                    forall|i: int| 0 <= i < n ==> (#[trigger] self.docsets@[i]).docs() == before[i].docs(),
                    forall|i: int| 0 <= i < n ==> (#[trigger] self.docsets@[i]).hint() == before[i].hint(),
                    forall|i: int| ord <= i < n ==> (#[trigger] self.docsets@[i]).cursor() is Start,
                    forall|i: int|
                        0 <= i < ord ==> ((#[trigger] self.docsets@[i]).cursor() matches Cursor::At(d) && target
                            <= d <= candidate),
                    forall|i: int, x: DocId|
                        0 <= i < ord && target <= x && #[trigger] before[i].docs().contains(x)
                            ==> self.docsets@[i].cursor()->At_0 <= x,
                    ord > 0 ==> exists|i: int|
                        0 <= i < ord && (#[trigger] self.docsets@[i]).cursor() == Cursor::At(candidate),
                decreases n - ord,
            {
                let ghost stale = self.docsets@;
                match self.docsets[ord].skip_next(target) {
                    SkipResult::End => {
                        self.finished = true;
                        proof {
                            assert(self.docsets@ =~= stale.update(ord as int, self.docsets@[ord as int]));
                            lemma_common_docs_same(self.docsets@, before);
                            assert forall|x: DocId| #[trigger]
                                common_docs(before).contains(x) && origin.before(x) implies x < target by {
                                assert(before[ord as int].docs().contains(x));
                            }
                        }
                        return SkipResult::End;
                    },
                    _ => {},
                }
                let head = self.docsets[ord].doc();
                proof {
                    assert(self.docsets@ =~= stale.update(ord as int, self.docsets@[ord as int]));
                    if head <= candidate && ord > 0 {
                        let k = choose|k: int|
                            0 <= k < ord && (#[trigger] stale[k]).cursor() == Cursor::At(candidate);
                        assert(self.docsets@[k].cursor() == Cursor::At(candidate));
                    }
                }
                if head > candidate || ord == 0 {
                    candidate = head;
                }
                ord = ord + 1;
            }
            self.started = true;
            proof {
                let k = choose|k: int|
                    0 <= k < n && (#[trigger] self.docsets@[k]).cursor() == Cursor::At(candidate);
                assert forall|x: DocId| #[trigger]
                    common_docs(before).contains(x) && origin.before(x) && target <= x implies candidate
                    <= x by {
                    assert(before[k].docs().contains(x));
                }
            }
        }
        loop
            invariant
                n == before.len(),
                before == old(self).docsets@,
                origin == old(self).cursor(),
                self.docsets@.len() == n,
                n >= 1,
                self.started,
                !self.finished,
                !(origin is End),
                target <= candidate,
                origin.before(candidate),
                forall|i: int| 0 <= i < n ==> (#[trigger] self.docsets@[i]).wf(),
                forall|i: int| 0 <= i < n ==> (#[trigger] self.docsets@[i]).docs() == before[i].docs(),
                forall|i: int| 0 <= i < n ==> (#[trigger] self.docsets@[i]).hint() == before[i].hint(),
                forall|i: int|
                    0 <= i < n ==> ((#[trigger] self.docsets@[i]).cursor() matches Cursor::At(d) && d <= candidate),
                forall|x: DocId| #[trigger]
                    common_docs(before).contains(x) && origin.before(x) && target <= x ==> candidate <= x,
                forall|i: int, x: DocId|
                    0 <= i < n && origin.before(x) && target <= x && common_docs(before).contains(x)
                        && #[trigger] before[i].docs().contains(x) ==> self.docsets@[i].cursor()->At_0 <= x,
            ensures
                forall|i: int| 0 <= i < n ==> (#[trigger] self.docsets@[i]).cursor() == Cursor::At(candidate),
            decreases u32::MAX - candidate,
        {
            let ghost round_start = candidate;
            let mut changed = false;
            let mut ord: usize = 0;
            while ord < n
                invariant
                    n == before.len(),
                    before == old(self).docsets@,
                origin == old(self).cursor(),
                    origin == old(self).cursor(),
                    n >= 1,
                    self.docsets@.len() == n,
                    ord <= n,
                    self.started,
                    !self.finished,
                    !(origin is End),
                    target <= candidate,
                    origin.before(candidate),
                    round_start <= candidate,
                    changed ==> round_start < candidate,
                    forall|i: int| 0 <= i < n ==> (#[trigger] self.docsets@[i]).wf(),
                    forall|i: int| 0 <= i < n ==> (#[trigger] self.docsets@[i]).docs() == before[i].docs(),
                    forall|i: int| 0 <= i < n ==> (#[trigger] self.docsets@[i]).hint() == before[i].hint(),
                    forall|i: int|
                        0 <= i < n ==> ((#[trigger] self.docsets@[i]).cursor() matches Cursor::At(d) && d
                            <= candidate),
                    !changed ==> forall|i: int|
                        0 <= i < ord ==> (#[trigger] self.docsets@[i]).cursor() == Cursor::At(candidate),
                    forall|x: DocId| #[trigger]
                        common_docs(before).contains(x) && origin.before(x) && target <= x ==> candidate <= x,
                    forall|i: int, x: DocId|
                        0 <= i < n && origin.before(x) && target <= x && common_docs(before).contains(x)
                            && #[trigger] before[i].docs().contains(x) ==> self.docsets@[i].cursor()->At_0 <= x,
                decreases n - ord,
            {
                let ghost stale = self.docsets@;
                let head = self.docsets[ord].doc();
                if head < candidate {
                    let res = self.docsets[ord].skip_next(candidate);
                    proof {
                        assert(self.docsets@ =~= stale.update(ord as int, self.docsets@[ord as int]));
                    }
                    match res {
                        SkipResult::Reached => {},
                        SkipResult::OverStep => {
                            proof {
                                let next = self.docsets@[ord as int].cursor()->At_0;
                                assert forall|x: DocId| #[trigger]
                                    common_docs(before).contains(x) && origin.before(x) && target
                                    <= x implies next <= x by {
                                    assert(before[ord as int].docs().contains(x));
                                }
                            }
                            candidate = self.docsets[ord].doc();
                            changed = true;
                        },
                        SkipResult::End => {
                            self.finished = true;
                            proof {
                                lemma_common_docs_same(self.docsets@, before);
                                assert forall|x: DocId| #[trigger]
                                    common_docs(before).contains(x) && origin.before(x) implies x < target by {
                                    assert(before[ord as int].docs().contains(x));
                                    assert(stale[ord as int].docs().contains(x));
                                    if target <= x {
                                        assert(stale[ord as int].cursor()->At_0 <= x);
                                        assert(candidate <= x);
                                        assert(head < candidate);
                                        assert(stale[ord as int].cursor() == Cursor::At(head));
                                    }
                                }
                            }
                            return SkipResult::End;
                        },
                    }
                }
                ord = ord + 1;
            }
            if !changed {
                break;
            }
        }
        self.doc = candidate;
        proof {
            lemma_common_docs_same(self.docsets@, before);
            assert forall|i: int| 0 <= i < n implies (#[trigger] before[i]).docs().contains(candidate) by {
                assert(self.docsets@[i].wf());
                self.docsets@[i].lemma_wf();
            }
        }
        if candidate == target {
            SkipResult::Reached
        } else {
            SkipResult::OverStep
        }
    }

    fn doc(&self) -> (doc: DocId) {
        self.doc
    }

    fn size_hint(&self) -> (hint: usize) {
        self.docsets[0].size_hint()
    }
}

} // verus!
