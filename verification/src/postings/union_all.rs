//! The union of several doc sets, keeping a doc once per doc set that holds it.

use vstd::prelude::*;
use crate::postings::docset::{Cursor, DocId, DocSet, SkipResult, docs_ahead, steps_to};

verus! {

/// Whether `child` has yet to yield `x`, the doc it stands on included.
pub open spec fn ahead_or_on<T: DocSet>(child: T, x: DocId) -> bool {
    child.docs().contains(x) && match child.cursor() {
        Cursor::Start => true,
        Cursor::At(d) => d <= x,
        Cursor::End => false,
    }
}

/// How many of `children` have yet to yield `x`.
pub open spec fn pending_in<T: DocSet>(children: Seq<T>, x: DocId) -> nat
    decreases children.len(),
{
    if children.len() == 0 {
        0
    } else {
        pending_in(children.drop_last(), x) + if ahead_or_on(children.last(), x) {
            1nat
        } else {
            0nat
        }
    }
}

/// The docs that at least one of `children` holds.
pub open spec fn all_docs<T: DocSet>(children: Seq<T>) -> Set<DocId>
    decreases children.len(),
{
    if children.len() == 0 {
        Set::empty()
    } else {
        all_docs(children.drop_last()).union(children.last().docs())
    }
}

/// A doc is in the union exactly when one child holds it.
pub proof fn lemma_all_docs_contains<T: DocSet>(children: Seq<T>, x: DocId)
    ensures
        all_docs(children).contains(x) <==> exists|i: int|
            0 <= i < children.len() && (#[trigger] children[i]).docs().contains(x),
    decreases children.len(),
{
    if children.len() > 0 {
        let front = children.drop_last();
        lemma_all_docs_contains(front, x);
        if all_docs(children).contains(x) {
            if children.last().docs().contains(x) {
                assert(children[children.len() - 1].docs().contains(x));
            } else {
                let i = choose|i: int| 0 <= i < front.len() && (#[trigger] front[i]).docs().contains(x);
                assert(children[i].docs().contains(x));
            }
        }
        if exists|i: int| 0 <= i < children.len() && (#[trigger] children[i]).docs().contains(x) {
            let i = choose|i: int| 0 <= i < children.len() && (#[trigger] children[i]).docs().contains(x);
            if i < front.len() {
                assert(front[i].docs().contains(x));
            }
        }
    }
}

/// The union of finitely many valid doc sets is finite.
pub proof fn lemma_all_docs_finite<T: DocSet>(children: Seq<T>)
    requires
        forall|i: int| 0 <= i < children.len() ==> (#[trigger] children[i]).wf(),
    ensures
        all_docs(children).finite(),
    decreases children.len(),
{
    if children.len() > 0 {
        let front = children.drop_last();
        assert forall|i: int| 0 <= i < front.len() implies (#[trigger] front[i]).wf() by {
            assert(children[i].wf());
        }
        lemma_all_docs_finite(front);
        children.last().lemma_wf();
    }
}

/// Children that hold the same docs have the same union.
pub proof fn lemma_all_docs_same<T: DocSet>(a: Seq<T>, b: Seq<T>)
    requires
        a.len() == b.len(),
        forall|i: int| 0 <= i < a.len() ==> (#[trigger] a[i]).docs() == b[i].docs(),
    ensures
        all_docs(a) == all_docs(b),
    decreases a.len(),
{
    if a.len() > 0 {
        assert forall|i: int| 0 <= i < a.len() - 1 implies (#[trigger] a.drop_last()[i]).docs()
            == b.drop_last()[i].docs() by {
            assert(a[i].docs() == b[i].docs());
        }
        lemma_all_docs_same(a.drop_last(), b.drop_last());
        assert(a[a.len() - 1].docs() == b[a.len() - 1].docs());
    }
}

/// If every child of `b` has `x` pending exactly when `keep` holds and the
/// matching child of `a` has it pending, the counts relate the same way.
pub proof fn lemma_pending_pointwise<T: DocSet>(a: Seq<T>, b: Seq<T>, x: DocId, keep: bool)
    requires
        a.len() == b.len(),
        forall|i: int| 0 <= i < a.len() ==> ahead_or_on(#[trigger] b[i], x) == (keep && ahead_or_on(a[i], x)),
    ensures
        pending_in(b, x) == if keep {
            pending_in(a, x)
        } else {
            0
        },
    decreases a.len(),
{
    if a.len() > 0 {
        assert forall|i: int| 0 <= i < a.len() - 1 implies ahead_or_on(
            #[trigger] b.drop_last()[i],
            x,
        ) == (keep && ahead_or_on(a.drop_last()[i], x)) by {
            assert(ahead_or_on(b[i], x) == (keep && ahead_or_on(a[i], x)));
        }
        lemma_pending_pointwise(a.drop_last(), b.drop_last(), x, keep);
        assert(ahead_or_on(b[a.len() - 1], x) == (keep && ahead_or_on(a[a.len() - 1], x)));
    }
}

/// Replacing child `j` changes the count of `x` by that child's share alone.
pub proof fn lemma_pending_update<T: DocSet>(a: Seq<T>, j: int, child: T, x: DocId)
    requires
        0 <= j < a.len(),
    ensures
        pending_in(a.update(j, child), x) + (if ahead_or_on(a[j], x) {
            1nat
        } else {
            0nat
        }) == pending_in(a, x) + (if ahead_or_on(child, x) {
            1nat
        } else {
            0nat
        }),
    decreases a.len(),
{
    let b = a.update(j, child);
    if j == a.len() - 1 {
        assert(b.drop_last() == a.drop_last());
    } else {
        assert(b.drop_last() == a.drop_last().update(j, child));
        lemma_pending_update(a.drop_last(), j, child, x);
    }
}

/// A doc is pending exactly when some child has yet to yield it.
pub proof fn lemma_pending_positive<T: DocSet>(children: Seq<T>, x: DocId)
    ensures
        pending_in(children, x) > 0 <==> exists|i: int|
            0 <= i < children.len() && ahead_or_on(#[trigger] children[i], x),
    decreases children.len(),
{
    if children.len() > 0 {
        let front = children.drop_last();
        lemma_pending_positive(front, x);
        if pending_in(children, x) > 0 {
            if ahead_or_on(children.last(), x) {
                assert(ahead_or_on(children[children.len() - 1], x));
            } else {
                let i = choose|i: int| 0 <= i < front.len() && ahead_or_on(#[trigger] front[i], x);
                assert(ahead_or_on(children[i], x));
            }
        }
        if exists|i: int| 0 <= i < children.len() && ahead_or_on(#[trigger] children[i], x) {
            let i = choose|i: int| 0 <= i < children.len() && ahead_or_on(#[trigger] children[i], x);
            if i < front.len() {
                assert(ahead_or_on(front[i], x));
            }
        }
    }
}


/// The sum of the children's size estimates.
pub open spec fn total_hint<T: DocSet>(children: Seq<T>) -> nat
    decreases children.len(),
{
    if children.len() == 0 {
        0
    } else {
        total_hint(children.drop_last()) + children.last().hint() as nat
    }
}

/// What stays pending of a count once every doc below `target` is dropped.
pub open spec fn kept(count: nat, x: DocId, target: DocId) -> nat {
    if x >= target {
        count
    } else {
        0
    }
}

/// A skip to `target` is advancing until the first doc at or above `target`.
/// Take one advance, which moves to `low`, the lowest pending doc, and takes
/// one copy of it, turning the pending counts `before` into `after`. Where
/// `low` lies below `target`, a skip after the advance drops and keeps what a
/// skip in its place would. Where `low` lies at or above `target`, the
/// advance has done what the skip does: nothing was pending below `target`,
/// and one copy of the lowest doc that the skip keeps is taken.
pub proof fn lemma_skip_is_repeated_advance(
    before: spec_fn(DocId) -> nat,
    after: spec_fn(DocId) -> nat,
    low: DocId,
    target: DocId,
)
    requires
        before(low) > 0,
        forall|x: DocId| #[trigger] before(x) > 0 ==> low <= x,
        forall|x: DocId| #[trigger]
            after(x) + (if x == low {
                1nat
            } else {
                0nat
            }) == before(x),
    ensures
        low < target ==> forall|x: DocId| #[trigger] kept(after(x), x, target) == kept(before(x), x, target),
        low >= target ==> (forall|x: DocId| #[trigger]
            after(x) + (if x == low {
                1nat
            } else {
                0nat
            }) == kept(before(x), x, target)) && kept(before(low), low, target) > 0 && (forall|x: DocId|
            kept(#[trigger] before(x), x, target) > 0 ==> low <= x),
{
    if low >= target {
        assert forall|x: DocId| #[trigger]
            after(x) + (if x == low {
                1nat
            } else {
                0nat
            }) == kept(before(x), x, target) by {
            if x < target {
                assert(!(before(x) > 0));
            }
        }
    }
}

/// Iterates through the union of two or more doc sets in ascending order.
/// A doc held by several of them comes out once for each.
pub struct UnionAllDocSet<TDocSet: DocSet> {
    docsets: Vec<TDocSet>,
    /// For each doc set the doc it stands on, `None` once it is exhausted.
    heads: Vec<Option<DocId>>,
    finished: bool,
    started: bool,
    doc: DocId,
}

impl<TDocSet: DocSet> UnionAllDocSet<TDocSet> {
    /// The doc sets being merged.
    pub closed spec fn children(&self) -> Seq<TDocSet> {
        self.docsets@
    }

    /// Where the union stands.
    pub closed spec fn cursor(&self) -> Cursor {
        if self.finished {
            Cursor::End
        } else if !self.started {
            Cursor::Start
        } else {
            Cursor::At(self.doc)
        }
    }

    /// How many more times `x` will come out.
    pub closed spec fn pending(&self, x: DocId) -> nat {
        if self.finished {
            0
        } else {
            pending_in(self.docsets@, x)
        }
    }

    /// Every doc that one of the merged doc sets holds.
    pub closed spec fn universe(&self) -> Set<DocId> {
        all_docs(self.docsets@)
    }

    /// The advisory size estimate: the children's estimates summed, capped at
    /// the largest `usize`.
    pub closed spec fn hint(&self) -> usize {
        if total_hint(self.docsets@) <= usize::MAX {
            total_hint(self.docsets@) as usize
        } else {
            usize::MAX
        }
    }

    /// Validity: each head mirrors where its doc set stands.
    pub closed spec fn wf(&self) -> bool {
        &&& self.heads@.len() == self.docsets@.len()
        &&& forall|i: int|
            0 <= i < self.docsets@.len() ==> (#[trigger] self.docsets@[i]).wf() && match self.heads@[i] {
                Some(d) => self.docsets@[i].cursor() == Cursor::At(d),
                None => self.docsets@[i].cursor() is End,
            }
    }

    /// The union is finite, and an exhausted union has nothing pending.
    pub proof fn lemma_wf(&self)
        requires
            self.wf(),
        ensures
            self.universe().finite(),
            self.cursor() is End ==> forall|x: DocId| #[trigger] self.pending(x) == 0,
    {
        lemma_all_docs_finite(self.docsets@);
    }

    /// Merges `docsets`, none of which has been advanced yet.
    pub fn from(docsets: Vec<TDocSet>) -> (union: Self)
        requires
            docsets@.len() >= 2,
            forall|i: int| 0 <= i < docsets@.len() ==> (#[trigger] docsets@[i]).wf() && docsets@[i].cursor() is Start,
        ensures
            union.wf(),
            union.cursor() == Cursor::Start,
            union.universe() == all_docs(docsets@),
            union.hint() == (if total_hint(docsets@) <= usize::MAX {
                total_hint(docsets@) as usize
            } else {
                usize::MAX
            }),
            union.children().len() == docsets@.len(),
            forall|i: int| 0 <= i < docsets@.len() ==> (#[trigger] union.children()[i]).docs() == docsets@[i].docs(),
            forall|x: DocId| union.pending(x) == pending_in(docsets@, x),
    {
        let ghost fresh = docsets@;
        let mut docsets = docsets;
        let mut heads: Vec<Option<DocId>> = Vec::with_capacity(docsets.len());
        let mut ord: usize = 0;
        while ord < docsets.len()
            invariant
                ord <= docsets@.len(),
                docsets@.len() == fresh.len(),
                heads@.len() == ord,
                forall|i: int| ord <= i < fresh.len() ==> #[trigger] docsets@[i] == fresh[i],
                forall|i: int| 0 <= i < fresh.len() ==> (#[trigger] fresh[i]).wf() && fresh[i].cursor() is Start,
                forall|i: int|
                    0 <= i < ord ==> (#[trigger] docsets@[i]).wf() && match heads@[i] {
                        Some(d) => docsets@[i].cursor() == Cursor::At(d),
                        None => docsets@[i].cursor() is End,
                    },
                forall|i: int| 0 <= i < fresh.len() ==> (#[trigger] docsets@[i]).docs() == fresh[i].docs(),
                forall|i: int| 0 <= i < fresh.len() ==> (#[trigger] docsets@[i]).hint() == fresh[i].hint(),
                forall|i: int, x: DocId|
                    0 <= i < fresh.len() ==> #[trigger] ahead_or_on(docsets@[i], x) == ahead_or_on(fresh[i], x),
            decreases docsets@.len() - ord,
        {
            let ghost before = docsets@;
            assert(docsets@[ord as int] == fresh[ord as int]);
            let more = docsets[ord].advance();
            if more {
                let head = docsets[ord].doc();
                heads.push(Some(head));
            } else {
                heads.push(None);
            }
            assert(docsets@ == before.update(ord as int, docsets@[ord as int]));
            ord = ord + 1;
        }
        proof {
            assert forall|x: DocId| pending_in(docsets@, x) == pending_in(fresh, x) by {
                lemma_pending_pointwise(fresh, docsets@, x, true);
            }
            lemma_all_docs_same(docsets@, fresh);
            lemma_total_hint_same(docsets@, fresh);
        }
        UnionAllDocSet { docsets, heads, finished: false, started: false, doc: 0 }
    }
}

impl<TDocSet: DocSet> UnionAllDocSet<TDocSet> {
    /// The doc sets being merged.
    pub fn docsets(&self) -> (docsets: &[TDocSet])
        ensures
            docsets@ == self.children(),
    {
        self.docsets.as_slice()
    }

    /// An advisory estimate of how many docs come out.
    pub fn size_hint(&self) -> (hint: usize)
        requires
            self.wf(),
        ensures
            hint == self.hint(),
    {
        let mut total: usize = 0;
        let mut ord: usize = 0;
        while ord < self.docsets.len()
            invariant
                self.wf(),
                ord <= self.docsets@.len(),
                total == (if total_hint(self.docsets@.take(ord as int)) <= usize::MAX {
                    total_hint(self.docsets@.take(ord as int)) as usize
                } else {
                    usize::MAX
                }),
            decreases self.docsets@.len() - ord,
        {
            let hint = self.docsets[ord].size_hint();
            proof {
                assert(self.docsets@.take(ord + 1).drop_last() == self.docsets@.take(ord as int));
            }
            total = total.saturating_add(hint);
            ord = ord + 1;
        }
        proof {
            assert(self.docsets@.take(ord as int) == self.docsets@);
        }
        total
    }

    /// The doc set whose head is lowest, if any doc set has docs left.
    fn lowest_head(&self) -> (lowest: Option<usize>)
        requires
            self.wf(),
        ensures
            match lowest {
                Some(ord) => ord < self.heads@.len() && self.heads@[ord as int] is Some && forall|i: int|
                    0 <= i < self.heads@.len() ==> (#[trigger] self.heads@[i] matches Some(d)
                        ==> self.heads@[ord as int]->0 <= d),
                None => forall|i: int| 0 <= i < self.heads@.len() ==> #[trigger] self.heads@[i] is None,
            },
    {
        let mut lowest: Option<usize> = None;
        let mut low: DocId = 0;
        let mut ord: usize = 0;
        while ord < self.heads.len()
            invariant
                ord <= self.heads@.len(),
                match lowest {
                    Some(k) => k < ord && self.heads@[k as int] == Some(low) && forall|i: int|
                        0 <= i < ord ==> (#[trigger] self.heads@[i] matches Some(d) ==> low <= d),
                    None => forall|i: int| 0 <= i < ord ==> #[trigger] self.heads@[i] is None,
                },
            decreases self.heads@.len() - ord,
        {
            match self.heads[ord] {
                Some(head) => {
                    if lowest.is_none() || head < low {
                        lowest = Some(ord);
                        low = head;
                    }
                },
                None => {},
            }
            ord = ord + 1;
        }
        lowest
    }

    /// Emits the head of doc set `ord`, the lowest one, and advances that doc
    /// set.
    fn advance_head(&mut self, ord: usize)
        requires
            old(self).wf(),
            !old(self).finished,
            ord < old(self).heads@.len(),
            old(self).heads@[ord as int] is Some,
            forall|i: int|
                0 <= i < old(self).heads@.len() ==> (#[trigger] old(self).heads@[i] matches Some(d) ==> old(
                    self,
                ).heads@[ord as int]->0 <= d),
        ensures
            final(self).wf(),
            !final(self).finished,
            final(self).universe() == old(self).universe(),
            final(self).hint() == old(self).hint(),
            final(self).children().len() == old(self).children().len(),
            forall|i: int|
                0 <= i < old(self).children().len() ==> (#[trigger] final(self).children()[i]).docs() == old(
                    self,
                ).children()[i].docs(),
            final(self).cursor() == Cursor::At(old(self).heads@[ord as int]->0),
            old(self).pending(old(self).heads@[ord as int]->0) > 0,
            forall|x: DocId| #[trigger] old(self).pending(x) > 0 ==> old(self).heads@[ord as int]->0 <= x,
            forall|x: DocId| #[trigger]
                final(self).pending(x) + (if x == old(self).heads@[ord as int]->0 {
                    1nat
                } else {
                    0nat
                }) == old(self).pending(x),
    {
        let ghost before = self.docsets@;
        let ghost low = self.heads@[ord as int]->0;
        let head = self.heads[ord].unwrap();
        self.doc = head;
        self.started = true;
        proof {
            before[ord as int].lemma_wf();
            assert forall|x: DocId| #[trigger] pending_in(before, x) > 0 implies low <= x by {
                lemma_pending_positive(before, x);
                let i = choose|i: int| 0 <= i < before.len() && ahead_or_on(#[trigger] before[i], x);
                assert(before[i].wf());
                assert(self.heads@[i] is Some);
            }
        }
        let more = self.docsets[ord].advance();
        if more {
            let next = self.docsets[ord].doc();
            self.heads.set(ord, Some(next));
        } else {
            self.heads.set(ord, None);
        }
        proof {
            let child = self.docsets@[ord as int];
            assert(self.docsets@ == before.update(ord as int, child));
            assert forall|x: DocId| #[trigger]
                pending_in(self.docsets@, x) + (if x == low {
                    1nat
                } else {
                    0nat
                }) == pending_in(before, x) by {
                lemma_pending_update(before, ord as int, child, x);
            }
            lemma_pending_update(before, ord as int, child, low);
            assert forall|i: int| 0 <= i < before.len() implies (#[trigger] self.docsets@[i]).docs()
                == before[i].docs() by {}
            assert forall|i: int| 0 <= i < before.len() implies (#[trigger] self.docsets@[i]).hint()
                == before[i].hint() by {}
            lemma_all_docs_same(self.docsets@, before);
            lemma_total_hint_same(self.docsets@, before);
        }
    }

    /// Moves to the next doc, which may equal the current one; `false` once
    /// every doc set is exhausted.
    pub fn advance(&mut self) -> (more: bool)
        requires
            old(self).wf(),
        ensures
            final(self).wf(),
            final(self).universe() == old(self).universe(),
            final(self).hint() == old(self).hint(),
            final(self).children().len() == old(self).children().len(),
            forall|i: int|
                0 <= i < old(self).children().len() ==> (#[trigger] final(self).children()[i]).docs() == old(
                    self,
                ).children()[i].docs(),
            more == (final(self).cursor() is At),
            match final(self).cursor() {
                Cursor::Start => false,
                Cursor::At(low) => {
                    &&& old(self).pending(low) > 0
                    &&& forall|x: DocId| #[trigger] old(self).pending(x) > 0 ==> low <= x
                    &&& forall|x: DocId| #[trigger]
                        final(self).pending(x) + (if x == low {
                            1nat
                        } else {
                            0nat
                        }) == old(self).pending(x)
                },
                Cursor::End => forall|x: DocId|
                    #[trigger] old(self).pending(x) == 0 && final(self).pending(x) == 0,
            },
    {
        if self.finished {
            return false;
        }
        match self.lowest_head() {
            None => {
                proof {
                    assert forall|x: DocId| #[trigger] pending_in(self.docsets@, x) == 0 by {
                        lemma_pending_positive(self.docsets@, x);
                        if pending_in(self.docsets@, x) > 0 {
                            let i = choose|i: int|
                                0 <= i < self.docsets@.len() && ahead_or_on(#[trigger] self.docsets@[i], x);
                            assert(self.docsets@[i].wf());
                            assert(self.heads@[i] is None);
                        }
                    }
                }
                self.finished = true;
                false
            },
            Some(ord) => {
                self.advance_head(ord);
                true
            },
        }
    }

    /// Drops every pending doc below `target`, then moves to the lowest doc
    /// that is still pending and takes one copy of it, exactly as repeated
    /// calls of `advance` would.
    pub fn skip_next(&mut self, target: DocId) -> (res: SkipResult)
        requires
            old(self).wf(),
        ensures
            final(self).wf(),
            final(self).universe() == old(self).universe(),
            final(self).hint() == old(self).hint(),
            final(self).children().len() == old(self).children().len(),
            forall|i: int|
                0 <= i < old(self).children().len() ==> (#[trigger] final(self).children()[i]).docs() == old(
                    self,
                ).children()[i].docs(),
            match res {
                SkipResult::End => {
                    &&& final(self).cursor() is End
                    &&& forall|x: DocId|
                        kept(#[trigger] old(self).pending(x), x, target) == 0 && final(self).pending(x) == 0
                },
                SkipResult::Reached => {
                    &&& final(self).cursor() == Cursor::At(target)
                    &&& old(self).pending(target) > 0
                    &&& forall|x: DocId| #[trigger]
                        final(self).pending(x) + (if x == target {
                            1nat
                        } else {
                            0nat
                        }) == kept(old(self).pending(x), x, target)
                },
                SkipResult::OverStep => {
                    &&& final(self).cursor() matches Cursor::At(low)
                    &&& target < low
                    &&& old(self).pending(target) == 0
                    &&& old(self).pending(low) > 0
                    &&& forall|x: DocId|
                        kept(#[trigger] old(self).pending(x), x, target) > 0 ==> low <= x
                    &&& forall|x: DocId| #[trigger]
                        final(self).pending(x) + (if x == low {
                            1nat
                        } else {
                            0nat
                        }) == kept(old(self).pending(x), x, target)
                },
            },
    {
        if self.finished {
            return SkipResult::End;
        }
        let ghost before = self.docsets@;
        let mut any = false;
        let mut ord: usize = 0;
        while ord < self.docsets.len()
            invariant
                self.wf(),
                !self.finished,
                self.started == old(self).started,
                ord <= self.docsets@.len(),
                self.docsets@.len() == before.len(),
                forall|i: int| ord <= i < before.len() ==> #[trigger] self.docsets@[i] == before[i],
                forall|i: int| 0 <= i < before.len() ==> (#[trigger] self.docsets@[i]).docs() == before[i].docs(),
                forall|i: int| 0 <= i < before.len() ==> (#[trigger] self.docsets@[i]).hint() == before[i].hint(),
                forall|i: int, x: DocId|
                    0 <= i < ord ==> #[trigger] ahead_or_on(self.docsets@[i], x) == (x >= target && ahead_or_on(
                        before[i],
                        x,
                    )),
                forall|i: int| 0 <= i < ord ==> (#[trigger] self.heads@[i] matches Some(d) ==> target <= d),
                any == exists|i: int| 0 <= i < ord && #[trigger] self.heads@[i] is Some,
            decreases self.docsets@.len() - ord,
        {
            let ghost stale = self.docsets@;
            let ghost stale_heads = self.heads@;
            proof {
                assert(self.docsets@[ord as int].wf());
                self.docsets@[ord as int].lemma_wf();
            }
            match self.heads[ord] {
                Some(head) => {
                    if head >= target {
                        any = true;
                    } else {
                        match self.docsets[ord].skip_next(target) {
                            SkipResult::Reached => {
                                self.heads.set(ord, Some(target));
                                any = true;
                            },
                            SkipResult::OverStep => {
                                let next = self.docsets[ord].doc();
                                self.heads.set(ord, Some(next));
                                any = true;
                            },
                            SkipResult::End => {
                                self.heads.set(ord, None);
                            },
                        }
                    }
                },
                None => {},
            }
            proof {
                let child = self.docsets@[ord as int];
                assert(self.docsets@ =~= stale.update(ord as int, child));
                assert(stale[ord as int] == before[ord as int]);
                assert forall|x: DocId| #[trigger]
                    ahead_or_on(self.docsets@[ord as int], x) == (x >= target && ahead_or_on(
                        before[ord as int],
                        x,
                    )) by {}
                assert(self.heads@[ord as int] is Some ==> any);
                if any && !(self.heads@[ord as int] is Some) {
                    let i = choose|i: int| 0 <= i < ord && #[trigger] stale_heads[i] is Some;
                    assert(self.heads@[i] is Some);
                }
            }
            ord = ord + 1;
        }
        proof {
            assert forall|x: DocId| #[trigger]
                pending_in(self.docsets@, x) == kept(pending_in(before, x), x, target) by {
                lemma_pending_pointwise(before, self.docsets@, x, x >= target);
            }
            lemma_all_docs_same(self.docsets@, before);
            lemma_total_hint_same(self.docsets@, before);
            assert forall|x: DocId| #[trigger] pending_in(self.docsets@, x) > 0 implies exists|i: int|
                0 <= i < self.heads@.len() && (#[trigger] self.heads@[i] matches Some(d) && d <= x) by {
                lemma_pending_positive(self.docsets@, x);
                let i = choose|i: int|
                    0 <= i < self.docsets@.len() && ahead_or_on(#[trigger] self.docsets@[i], x);
                assert(self.docsets@[i].wf());
                assert(self.heads@[i] matches Some(d) && d <= x);
            }
        }
        if !any {
            proof {
                assert forall|x: DocId| #[trigger] pending_in(self.docsets@, x) == 0 by {
                    if pending_in(self.docsets@, x) > 0 {
                        let i = choose|i: int|
                            0 <= i < self.heads@.len() && (#[trigger] self.heads@[i] matches Some(d) && d <= x);
                        assert(self.heads@[i] is Some);
                    }
                }
                assert forall|x: DocId| kept(#[trigger] pending_in(before, x), x, target) == 0 by {
                    assert(pending_in(self.docsets@, x) == kept(pending_in(before, x), x, target));
                }
            }
            self.finished = true;
            return SkipResult::End;
        }
        let lowest = self.lowest_head();
        let ghost mid = *self;
        proof {
            let i = choose|i: int| 0 <= i < ord && #[trigger] self.heads@[i] is Some;
            assert(self.heads@[i] is Some);
        }
        let ord = lowest.unwrap();
        self.advance_head(ord);
        proof {
            let low = self.doc;
            assert(mid.heads@[ord as int] == Some(low));
            assert(target <= low);
            assert forall|x: DocId| kept(#[trigger] pending_in(before, x), x, target) > 0 implies low
                <= x by {
                assert(mid.pending(x) == kept(pending_in(before, x), x, target));
            }
            assert(mid.pending(low) == kept(pending_in(before, low), low, target));
            assert(mid.pending(target) == kept(pending_in(before, target), target, target));
        }
        if self.doc == target {
            SkipResult::Reached
        } else {
            SkipResult::OverStep
        }
    }

    /// Gives up whatever is still pending: the union is exhausted from now on.
    pub fn stop(&mut self)
        requires
            old(self).wf(),
        ensures
            final(self).wf(),
            final(self).universe() == old(self).universe(),
            final(self).hint() == old(self).hint(),
            final(self).children() == old(self).children(),
            final(self).cursor() is End,
            forall|x: DocId| final(self).pending(x) == 0,
    {
        self.finished = true;
    }

    /// The doc the union stands on.
    pub fn doc(&self) -> (doc: DocId)
        requires
            self.wf(),
            self.cursor() is At,
        ensures
            self.cursor() == Cursor::At(doc),
    {
        self.doc
    }
}

/// Children with the same estimates have the same total.
pub proof fn lemma_total_hint_same<T: DocSet>(a: Seq<T>, b: Seq<T>)
    requires
        a.len() == b.len(),
        forall|i: int| 0 <= i < a.len() ==> (#[trigger] a[i]).hint() == b[i].hint(),
    ensures
        total_hint(a) == total_hint(b),
    decreases a.len(),
{
    if a.len() > 0 {
        assert forall|i: int| 0 <= i < a.len() - 1 implies (#[trigger] a.drop_last()[i]).hint()
            == b.drop_last()[i].hint() by {
            assert(a[i].hint() == b[i].hint());
        }
        lemma_total_hint_same(a.drop_last(), b.drop_last());
        assert(a[a.len() - 1].hint() == b[a.len() - 1].hint());
    }
}

} // verus!
