//! Boolean queries: the docs that hold every required clause, or, where
//! nothing is required, at least one optional clause, and that hold no
//! forbidden clause.

use vstd::prelude::*;
use crate::postings::difference::DifferenceDocSet;
use crate::postings::docset::{Cursor, DocId, DocSet, SkipResult, skip_outcome, steps_to};
use crate::postings::intersection::{IntersectionDocSet, common_docs};
use crate::postings::union::UnionDocSet;
use crate::postings::union_all::all_docs;

verus! {

/// How a clause of a boolean query bears on a doc.
#[derive(Clone, Copy, Debug, PartialEq, Eq, Structural)]
pub enum Occur {
    /// The doc has to match the clause.
    Must,
    /// The doc should match the clause; where no clause is required, it has
    /// to match at least one such clause.
    Should,
    /// The doc must not match the clause.
    MustNot,
}

/// Several doc sets taken together: the docs they all hold, or the docs that
/// any of them holds.
pub enum Merged<T: DocSet> {
    /// The docs that every doc set holds.
    Every(IntersectionDocSet<T>),
    /// The docs that at least one doc set holds.
    Any(UnionDocSet<T>),
}

impl<T: DocSet> DocSet for Merged<T> {
    open spec fn docs(&self) -> Set<DocId> {
        match self {
            Merged::Every(inner) => inner.docs(),
            Merged::Any(inner) => inner.docs(),
        }
    }

    open spec fn cursor(&self) -> Cursor {
        match self {
            Merged::Every(inner) => inner.cursor(),
            Merged::Any(inner) => inner.cursor(),
        }
    }

    open spec fn hint(&self) -> usize {
        match self {
            Merged::Every(inner) => inner.hint(),
            Merged::Any(inner) => inner.hint(),
        }
    }

    open spec fn wf(&self) -> bool {
        match self {
            Merged::Every(inner) => inner.wf(),
            Merged::Any(inner) => inner.wf(),
        }
    }

    proof fn lemma_wf(&self) {
        match self {
            Merged::Every(inner) => inner.lemma_wf(),
            Merged::Any(inner) => inner.lemma_wf(),
        }
    }

    fn advance(&mut self) -> (more: bool) {
        match self {
            Merged::Every(inner) => inner.advance(),
            Merged::Any(inner) => inner.advance(),
        }
    }

    fn skip_next(&mut self, target: DocId) -> (res: SkipResult) {
        match self {
            Merged::Every(inner) => inner.skip_next(target),
            Merged::Any(inner) => inner.skip_next(target),
        }
    }

    fn doc(&self) -> (doc: DocId) {
        match self {
            Merged::Every(inner) => inner.doc(),
            Merged::Any(inner) => inner.doc(),
        }
    }

    fn size_hint(&self) -> (hint: usize) {
        match self {
            Merged::Every(inner) => inner.size_hint(),
            Merged::Any(inner) => inner.size_hint(),
        }
    }
}

/// The docs that at least one of `children` holds. None, for no children.
pub fn any_of<T: DocSet>(children: Vec<T>) -> (merged: Option<Merged<T>>)
    requires
        forall|i: int| 0 <= i < children@.len() ==> (#[trigger] children@[i]).wf() && children@[i].cursor() is Start,
    ensures
        merged is None <==> children@.len() == 0,
        merged matches Some(m) ==> m.wf() && m.cursor() == Cursor::Start && m.docs() == all_docs(children@),
{
    if children.len() == 0 {
        None
    } else if children.len() == 1 {
        let ghost only = children@;
        let inner = IntersectionDocSet::from(children);
        proof {
            assert(common_docs(only) =~= all_docs(only)) by {
                assert(only.drop_last().len() == 0);
                assert(all_docs(only.drop_last()) == Set::<DocId>::empty());
                assert forall|x: DocId| common_docs(only).contains(x) <==> all_docs(only).contains(x) by {
                    if common_docs(only).contains(x) {
                        assert(only[0].docs().contains(x));
                    }
                    if all_docs(only).contains(x) {
                        assert(only.last().docs().contains(x));
                        assert forall|i: int| 0 <= i < only.len() implies (#[trigger] only[i]).docs().contains(x) by {
                            assert(only[i] == only.last());
                        }
                    }
                }
            }
        }
        Some(Merged::Every(inner))
    } else {
        Some(Merged::Any(UnionDocSet::from(children)))
    }
}

/// The docs of a boolean query.
pub enum BooleanDocSet<T: DocSet> {
    /// No doc.
    Nothing,
    /// The docs of the required or optional clauses.
    Plain(Merged<T>),
    /// The docs of the required or optional clauses that no forbidden clause
    /// holds.
    Filtered(DifferenceDocSet<Merged<T>, Merged<T>>),
}

impl<T: DocSet> DocSet for BooleanDocSet<T> {
    open spec fn docs(&self) -> Set<DocId> {
        match self {
            BooleanDocSet::Nothing => Set::empty(),
            BooleanDocSet::Plain(inner) => inner.docs(),
            BooleanDocSet::Filtered(inner) => inner.docs(),
        }
    }

    open spec fn cursor(&self) -> Cursor {
        match self {
            BooleanDocSet::Nothing => Cursor::End,
            BooleanDocSet::Plain(inner) => inner.cursor(),
            BooleanDocSet::Filtered(inner) => inner.cursor(),
        }
    }

    open spec fn hint(&self) -> usize {
        match self {
            BooleanDocSet::Nothing => 0,
            BooleanDocSet::Plain(inner) => inner.hint(),
            BooleanDocSet::Filtered(inner) => inner.hint(),
        }
    }

    open spec fn wf(&self) -> bool {
        match self {
            BooleanDocSet::Nothing => true,
            BooleanDocSet::Plain(inner) => inner.wf(),
            BooleanDocSet::Filtered(inner) => inner.wf(),
        }
    }

    proof fn lemma_wf(&self) {
        match self {
            BooleanDocSet::Nothing => {},
            BooleanDocSet::Plain(inner) => inner.lemma_wf(),
            BooleanDocSet::Filtered(inner) => inner.lemma_wf(),
        }
    }

    fn advance(&mut self) -> (more: bool) {
        match self {
            BooleanDocSet::Nothing => false,
            BooleanDocSet::Plain(inner) => inner.advance(),
            BooleanDocSet::Filtered(inner) => inner.advance(),
        }
    }

    fn skip_next(&mut self, target: DocId) -> (res: SkipResult) {
        match self {
            BooleanDocSet::Nothing => SkipResult::End,
            BooleanDocSet::Plain(inner) => inner.skip_next(target),
            BooleanDocSet::Filtered(inner) => inner.skip_next(target),
        }
    }

    fn doc(&self) -> (doc: DocId) {
        match self {
            BooleanDocSet::Nothing => 0,
            BooleanDocSet::Plain(inner) => inner.doc(),
            BooleanDocSet::Filtered(inner) => inner.doc(),
        }
    }

    fn size_hint(&self) -> (hint: usize) {
        match self {
            BooleanDocSet::Nothing => 0,
            BooleanDocSet::Plain(inner) => inner.size_hint(),
            BooleanDocSet::Filtered(inner) => inner.size_hint(),
        }
    }
}

/// The docs that a boolean query matches: those that all of `musts` hold,
/// or, where nothing is required, those that one of `shoulds` holds, without
/// the docs that one of `must_nots` holds.
pub open spec fn boolean_docs<T: DocSet>(musts: Seq<T>, shoulds: Seq<T>, must_nots: Seq<T>) -> Set<DocId> {
    let wanted = if musts.len() > 0 {
        common_docs(musts)
    } else {
        all_docs(shoulds)
    };
    wanted.difference(all_docs(must_nots))
}

/// A query made of clauses that a doc has to match, should match, or must
/// not match.
pub struct BooleanQuery<T: DocSet> {
    musts: Vec<T>,
    shoulds: Vec<T>,
    must_nots: Vec<T>,
}

impl<T: DocSet> BooleanQuery<T> {
    /// The clauses that a doc has to match.
    pub closed spec fn musts(&self) -> Seq<T> {
        self.musts@
    }

    /// The clauses that a doc should match.
    pub closed spec fn shoulds(&self) -> Seq<T> {
        self.shoulds@
    }

    /// The clauses that a doc must not match.
    pub closed spec fn must_nots(&self) -> Seq<T> {
        self.must_nots@
    }

    /// Validity: no clause has been advanced yet.
    pub closed spec fn wf(&self) -> bool {
        &&& forall|i: int| 0 <= i < self.musts@.len() ==> (#[trigger] self.musts@[i]).wf() && self.musts@[i].cursor() is Start
        &&& forall|i: int|
            0 <= i < self.shoulds@.len() ==> (#[trigger] self.shoulds@[i]).wf() && self.shoulds@[i].cursor() is Start
        &&& forall|i: int|
            0 <= i < self.must_nots@.len() ==> (#[trigger] self.must_nots@[i]).wf() && self.must_nots@[i].cursor()
                is Start
    }

    /// A query without clauses.
    pub fn new() -> (query: BooleanQuery<T>)
        ensures
            query.wf(),
            query.musts().len() == 0,
            query.shoulds().len() == 0,
            query.must_nots().len() == 0,
    {
        BooleanQuery { musts: Vec::new(), shoulds: Vec::new(), must_nots: Vec::new() }
    }

    /// Adds a clause, which has not been advanced yet.
    pub fn add(&mut self, occur: Occur, clause: T)
        requires
            old(self).wf(),
            clause.wf(),
            clause.cursor() is Start,
        ensures
            final(self).wf(),
            final(self).musts() == (if occur is Must {
                old(self).musts().push(clause)
            } else {
                old(self).musts()
            }),
            final(self).shoulds() == (if occur is Should {
                old(self).shoulds().push(clause)
            } else {
                old(self).shoulds()
            }),
            final(self).must_nots() == (if occur is MustNot {
                old(self).must_nots().push(clause)
            } else {
                old(self).must_nots()
            }),
    {
        match occur {
            Occur::Must => self.musts.push(clause),
            Occur::Should => self.shoulds.push(clause),
            Occur::MustNot => self.must_nots.push(clause),
        }
    }

    /// The docs that the query matches. Where some clause is required, the
    /// optional clauses decide nothing.
    pub fn docset(self) -> (docset: BooleanDocSet<T>)
        requires
            self.wf(),
        ensures
            docset.wf(),
            docset.cursor() is Start || docset.cursor() is End,
            docset.docs() == boolean_docs(self.musts(), self.shoulds(), self.must_nots()),
    {
        let ghost musts = self.musts@;
        let ghost shoulds = self.shoulds@;
        let ghost must_nots = self.must_nots@;
        let wanted = if self.musts.len() > 0 {
            Some(Merged::Every(IntersectionDocSet::from(self.musts)))
        } else {
            any_of(self.shoulds)
        };
        let unwanted = any_of(self.must_nots);
        proof {
            if must_nots.len() == 0 {
                assert(all_docs(must_nots) == Set::<DocId>::empty());
            }
            if musts.len() == 0 && shoulds.len() == 0 {
                assert(all_docs(shoulds) == Set::<DocId>::empty());
                assert(boolean_docs(musts, shoulds, must_nots) =~= Set::<DocId>::empty());
            }
        }
        match wanted {
            None => BooleanDocSet::Nothing,
            Some(wanted) => match unwanted {
                None => {
                    proof {
                        assert(wanted.docs().difference(Set::<DocId>::empty()) =~= wanted.docs());
                    }
                    BooleanDocSet::Plain(wanted)
                },
                Some(unwanted) => BooleanDocSet::Filtered(DifferenceDocSet::new(wanted, unwanted)),
            },
        }
    }
}

} // verus!
