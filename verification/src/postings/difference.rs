//! The docs of one doc set that another doc set lacks.

use vstd::prelude::*;
use crate::postings::docset::{
    Cursor, DocId, DocSet, SkipResult, docs_ahead, lemma_step_shrinks_ahead, skip_outcome, steps_to,
};

verus! {

/// Iterates through the docs of `left` that `right` does not hold.
pub struct DifferenceDocSet<TLeftDocSet: DocSet, TRightDocSet: DocSet> {
    left: TLeftDocSet,
    right: TRightDocSet,
    right_finished: bool,
}

impl<TLeftDocSet: DocSet, TRightDocSet: DocSet> DifferenceDocSet<TLeftDocSet, TRightDocSet> {
    /// The doc set whose docs are filtered.
    pub closed spec fn left_spec(&self) -> TLeftDocSet {
        self.left
    }

    /// The doc set whose docs are taken away.
    pub closed spec fn right_spec(&self) -> TRightDocSet {
        self.right
    }

    /// `right` never lags behind `left`: each of its docs is either still
    /// ahead of (or under) its own cursor, or no longer ahead of `left`.
    pub closed spec fn aligned(&self) -> bool {
        &&& self.left.wf()
        &&& self.right.wf()
        &&& !(self.right.cursor() is Start)
        &&& self.right_finished == (self.right.cursor() is End)
        &&& forall|x: DocId| #[trigger]
            self.right.docs().contains(x) ==> (self.right.cursor() matches Cursor::At(r) && r <= x)
                || !self.left.cursor().before(x)
    }

    /// Returns the difference of two doc sets that have not been advanced yet.
    pub fn new(left: TLeftDocSet, right: TRightDocSet) -> (difference: Self)
        requires
            left.wf(),
            right.wf(),
            left.cursor() is Start,
            right.cursor() is Start,
        ensures
            difference.wf(),
            difference.docs() == left.docs().difference(right.docs()),
            difference.cursor() == Cursor::Start,
            difference.hint() == left.hint(),
            difference.left_spec().docs() == left.docs(),
            difference.right_spec().docs() == right.docs(),
    {
        let mut right = right;
        let right_finished = !right.advance();
        DifferenceDocSet { left, right, right_finished }
    }

    /// Returns the left doc set.
    pub fn left(&self) -> (left: &TLeftDocSet)
        ensures
            *left == self.left_spec(),
    {
        &self.left
    }

    /// Returns the right doc set.
    pub fn right(&self) -> (right: &TRightDocSet)
        ensures
            *right == self.right_spec(),
    {
        &self.right
    }

    /// Moves `left` forward until it stands on a doc that `right` lacks.
    ///
    /// `origin` is the cursor from which the enclosing step started and
    /// `target` its floor: every doc of `left` between `origin` and the
    /// current cursor that is at least `target` is known to be in `right`.
    fn advance_filtered(&mut self, Ghost(origin): Ghost<Cursor>, Ghost(target): Ghost<DocId>) -> (more: bool)
        requires
            old(self).aligned(),
            forall|x: DocId| #[trigger]
                old(self).left.docs().contains(x) && origin.before(x) && target <= x && !old(
                    self,
                ).left.cursor().before(x) ==> old(self).right.docs().contains(x),
            forall|x: DocId| old(self).left.cursor().before(x) ==> origin.before(x),
            old(self).left.cursor() matches Cursor::At(l) ==> target <= l,
            old(self).left.cursor() is Start ==> target == 0,
        ensures
            final(self).wf(),
            final(self).docs() == old(self).docs(),
            final(self).hint() == old(self).hint(),
            final(self).left.docs() == old(self).left.docs(),
            final(self).right.docs() == old(self).right.docs(),
            steps_to(old(self).docs(), origin, target, final(self).cursor()),
            more == (final(self).cursor() is At),
    {
        loop
            invariant
                self.aligned(),
                self.left.docs() == old(self).left.docs(),
                self.right.docs() == old(self).right.docs(),
                self.left.hint() == old(self).left.hint(),
                forall|x: DocId| #[trigger]
                    self.left.docs().contains(x) && origin.before(x) && target <= x
                        && !self.left.cursor().before(x) ==> self.right.docs().contains(x),
                forall|x: DocId| self.left.cursor().before(x) ==> origin.before(x),
                self.left.cursor() matches Cursor::At(l) ==> target <= l,
                self.left.cursor() is Start ==> target == 0,
            decreases docs_ahead(self.left.docs(), self.left.cursor()).len(),
        {
            let ghost before = self.left.cursor();
            proof {
                self.left.lemma_wf();
                self.right.lemma_wf();
            }
            if !self.left.advance() {
                return false;
            }
            proof {
                lemma_step_shrinks_ahead(self.left.docs(), before, 0, self.left.cursor());
            }
            let candidate = self.left.doc();
            if self.right_finished {
                return true;
            }
            let excluded = self.right.doc();
            if candidate < excluded {
                return true;
            }
            if candidate > excluded {
                match self.right.skip_next(candidate) {
                    SkipResult::Reached => {},
                    SkipResult::OverStep => {
                        return true;
                    },
                    SkipResult::End => {
                        self.right_finished = true;
                        return true;
                    },
                }
            }
            proof {
                self.right.lemma_wf();
            }
        }
    }
}

impl<TLeftDocSet: DocSet, TRightDocSet: DocSet> DocSet for DifferenceDocSet<
    TLeftDocSet,
    TRightDocSet,
> {
    closed spec fn docs(&self) -> Set<DocId> {
        self.left.docs().difference(self.right.docs())
    }

    closed spec fn cursor(&self) -> Cursor {
        self.left.cursor()
    }

    closed spec fn hint(&self) -> usize {
        self.left.hint()
    }

    closed spec fn wf(&self) -> bool {
        &&& self.aligned()
        &&& self.left.cursor() matches Cursor::At(l) ==> !self.right.docs().contains(l)
    }

    proof fn lemma_wf(&self) {
        self.left.lemma_wf();
    }

    fn advance(&mut self) -> (more: bool) {
        let ghost origin = self.left.cursor();
        proof {
            self.left.lemma_wf();
        }
        self.advance_filtered(Ghost(origin), Ghost(0))
    }

    fn skip_next(&mut self, target: DocId) -> (res: SkipResult) {
        let ghost origin = self.left.cursor();
        proof {
            self.left.lemma_wf();
            self.right.lemma_wf();
        }
        let res = self.left.skip_next(target);
        match res {
            SkipResult::End => SkipResult::End,
            _ => {
                let candidate = self.left.doc();
                if self.right_finished {
                    return res;
                }
                let excluded = self.right.doc();
                if candidate < excluded {
                    return res;
                }
                if candidate > excluded {
                    match self.right.skip_next(candidate) {
                        SkipResult::Reached => {},
                        SkipResult::OverStep => {
                            return res;
                        },
                        SkipResult::End => {
                            self.right_finished = true;
                            return res;
                        },
                    }
                }
                proof {
                    self.right.lemma_wf();
                }
                if self.advance_filtered(Ghost(origin), Ghost(target)) {
                    SkipResult::OverStep
                } else {
                    SkipResult::End
                }
            },
        }
    }

    fn doc(&self) -> (doc: DocId) {
        self.left.doc()
    }

    fn size_hint(&self) -> (hint: usize) {
        self.left.size_hint()
    }
}

} // verus!
