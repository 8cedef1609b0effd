//! The ordered doc-id iterator that every posting-list combinator speaks.

use vstd::prelude::*;

verus! {

/// Identifier of a document inside one segment.
pub type DocId = u32;

/// Outcome of [`DocSet::skip_next`].
#[derive(Clone, Copy, Debug, PartialEq, Eq, Structural)]
pub enum SkipResult {
    /// The doc set now stands on the target itself.
    Reached,
    /// The target is absent; the doc set stands on the first doc above it.
    OverStep,
    /// No doc at or above the target is left.
    End,
}

/// Where a doc set stands in its docs.
pub enum Cursor {
    /// Not advanced yet.
    Start,
    /// Standing on a doc.
    At(DocId),
    /// Ran past the last doc.
    End,
}

impl Cursor {
    /// Whether `doc` is still to come for a doc set standing here.
    pub open spec fn before(self, doc: DocId) -> bool {
        match self {
            Cursor::Start => true,
            Cursor::At(d) => d < doc,
            Cursor::End => false,
        }
    }
}

/// `to` is where a doc set over `docs` lands when, standing at `from`, it moves
/// forward to the first doc that is at least `target`.
pub open spec fn steps_to(docs: Set<DocId>, from: Cursor, target: DocId, to: Cursor) -> bool {
    match to {
        Cursor::Start => false,
        Cursor::At(d) => {
            &&& docs.contains(d)
            &&& from.before(d)
            &&& target <= d
            &&& forall|x: DocId| #[trigger] docs.contains(x) && from.before(x) && target <= x ==> d <= x
        },
        Cursor::End => forall|x: DocId| #[trigger] docs.contains(x) && from.before(x) ==> x < target,
    }
}

/// What `skip_next` reports for the cursor it ends on.
pub open spec fn skip_outcome(target: DocId, to: Cursor) -> SkipResult {
    match to {
        Cursor::At(d) => if d == target {
            SkipResult::Reached
        } else {
            SkipResult::OverStep
        },
        _ => SkipResult::End,
    }
}

/// The docs of `docs` that a doc set standing at `from` has not reached yet.
pub open spec fn docs_ahead(docs: Set<DocId>, from: Cursor) -> Set<DocId> {
    docs.filter(|x: DocId| from.before(x))
}

/// An ordered, duplicate-free iterator over doc ids with skip-ahead.
///
/// The docs form a finite set fixed at construction; the cursor only moves
/// forward through them in ascending order.
pub trait DocSet {
    /// Every doc the set yields between construction and exhaustion.
    spec fn docs(&self) -> Set<DocId>;

    /// Where the set stands.
    spec fn cursor(&self) -> Cursor;

    /// The advisory size estimate.
    spec fn hint(&self) -> usize;

    /// Validity of the value.
    spec fn wf(&self) -> bool;

    /// A valid doc set is finite and stands, if anywhere, on one of its docs.
    proof fn lemma_wf(&self)
        requires
            self.wf(),
        ensures
            self.docs().finite(),
            self.cursor() matches Cursor::At(d) ==> self.docs().contains(d),
    ;

    /// Moves to the next doc; `false` once the docs are exhausted.
    fn advance(&mut self) -> (more: bool)
        requires
            old(self).wf(),
        ensures
            final(self).wf(),
            final(self).docs() == old(self).docs(),
            final(self).hint() == old(self).hint(),
            steps_to(old(self).docs(), old(self).cursor(), 0, final(self).cursor()),
            more == (final(self).cursor() is At),
    ;

    /// Moves forward, by at least one doc, to the first doc that is at least
    /// `target`.
    fn skip_next(&mut self, target: DocId) -> (res: SkipResult)
        requires
            old(self).wf(),
        ensures
            final(self).wf(),
            final(self).docs() == old(self).docs(),
            final(self).hint() == old(self).hint(),
            steps_to(old(self).docs(), old(self).cursor(), target, final(self).cursor()),
            res == skip_outcome(target, final(self).cursor()),
    ;

    /// The doc the set stands on.
    fn doc(&self) -> (doc: DocId)
        requires
            self.wf(),
            self.cursor() is At,
        ensures
            self.cursor() == Cursor::At(doc),
    ;

    /// An advisory estimate of how many docs the set holds.
    fn size_hint(&self) -> (hint: usize)
        requires
            self.wf(),
        ensures
            hint == self.hint(),
    ;
}

/// Each successful step leaves fewer docs ahead.
pub proof fn lemma_step_shrinks_ahead(docs: Set<DocId>, from: Cursor, target: DocId, to: Cursor)
    requires
        docs.finite(),
        steps_to(docs, from, target, to),
        to is At,
    ensures
        docs_ahead(docs, to).len() < docs_ahead(docs, from).len(),
        docs_ahead(docs, from).finite(),
{
    let d = to->At_0;
    let before = docs_ahead(docs, from);
    let after = docs_ahead(docs, to);
    assert(before.contains(d));
    assert(!after.contains(d));
    assert(after.subset_of(before.remove(d)));
    vstd::set_lib::lemma_len_subset(after, before.remove(d));
}

/// Doc ids that rise strictly from one index to the next.
pub open spec fn strictly_increasing(docs: Seq<DocId>) -> bool {
    forall|i: int, j: int| 0 <= i < j < docs.len() ==> docs[i] < docs[j]
}

/// Skipping is advancing until the first doc at or above the target: after one
/// step onto a doc below `target`, the skip from there ends where the skip from
/// the start ends; a step onto a doc at or above `target` is itself the skip.
pub proof fn lemma_skip_is_repeated_advance(
    docs: Set<DocId>,
    from: Cursor,
    stepped: Cursor,
    target: DocId,
    to: Cursor,
)
    requires
        steps_to(docs, from, 0, stepped),
    ensures
        stepped matches Cursor::At(d) && d >= target ==> steps_to(docs, from, target, stepped),
        stepped matches Cursor::At(d) && d < target ==> (steps_to(docs, from, target, to)
            <==> steps_to(docs, stepped, target, to)),
        stepped is End ==> steps_to(docs, from, target, stepped),
{
}

/// Successive docs rise strictly: a step from a doc lands on a larger one.
pub proof fn lemma_steps_rise(docs: Set<DocId>, from: Cursor, target: DocId, to: Cursor)
    requires
        steps_to(docs, from, target, to),
    ensures
        from matches Cursor::At(a) ==> (to matches Cursor::At(b) ==> a < b),
        from is End ==> to is End,
        to matches Cursor::At(b) ==> target <= b && docs.contains(b),
        !(to is Start),
{
}

/// The step from a cursor is unique.
pub proof fn lemma_steps_to_unique(docs: Set<DocId>, from: Cursor, target: DocId, a: Cursor, b: Cursor)
    requires
        steps_to(docs, from, target, a),
        steps_to(docs, from, target, b),
    ensures
        a == b,
{
}


/// Skips by advancing: moves forward once, then on while the doc is below
/// `target`.
pub fn skip_by_advancing<D: DocSet>(docset: &mut D, target: DocId) -> (res: SkipResult)
    requires
        old(docset).wf(),
    ensures
        final(docset).wf(),
        final(docset).docs() == old(docset).docs(),
        final(docset).hint() == old(docset).hint(),
        steps_to(old(docset).docs(), old(docset).cursor(), target, final(docset).cursor()),
        res == skip_outcome(target, final(docset).cursor()),
{
    let ghost docs = docset.docs();
    let ghost origin = docset.cursor();
    if !docset.advance() {
        return SkipResult::End;
    }
    loop
        invariant
            docset.wf(),
            docset.docs() == docs,
            docs == old(docset).docs(),
            origin == old(docset).cursor(),
            docset.hint() == old(docset).hint(),
            docset.cursor() is At,
            origin.before(docset.cursor()->At_0),
            forall|x: DocId| #[trigger] docs.contains(x) && origin.before(x) && target <= x ==> docset.cursor()->At_0
                <= x,
        decreases docs_ahead(docs, docset.cursor()).len(),
    {
        let ghost here = docset.cursor();
        proof {
            docset.lemma_wf();
        }
        let doc = docset.doc();
        if doc == target {
            return SkipResult::Reached;
        }
        if doc > target {
            return SkipResult::OverStep;
        }
        if !docset.advance() {
            return SkipResult::End;
        }
        proof {
            lemma_step_shrinks_ahead(docs, here, 0, docset.cursor());
        }
    }
}

} // verus!
