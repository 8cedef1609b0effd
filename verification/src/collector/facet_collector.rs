//! The collector that counts the hits of a query under each facet, segment
//! by segment, and the counts it yields.

use vstd::prelude::*;
use vstd::slice::slice_to_vec;
use crate::collector::counts_spec::{
    SegView, all_of, any_key, holds_key, is_key, items_sum, items_view, lemma_items_push, lemma_picked_grows,
    lemma_picked_is_count, lemma_total_bounded, lemma_total_step, picked, sum_upto, total_count, total_upto,
    total_where, under_and, under_root,
};
use crate::collector::merge_scene::{
    cursors, lemma_all_consumed, lemma_key_at_cursor, lemma_nothing_consumed, lemma_passed_over,
    lemma_remaining_nonnegative, lemma_remaining_shrinks, lemma_step_keeps_order, lemma_under_root_within,
    lemma_unmoved, reached,
    ordered, remaining, root_lower, root_upper, scene, scene_seg,
};
use crate::datastruct::fst_stream::{BoundView, in_range};
use crate::datastruct::lex::{above, key_eq, lemma_lex_asymmetric, lemma_lex_transitive, lex_le, lex_lt};
use crate::fastfield::facet_reader::FacetReader;
use crate::postings::docset::DocId;
use crate::schema::facet::{FACET_SEP_BYTE, Facet, cuts_upto, depth_of};
use crate::schema::field_value::Field;
use crate::termdict::dictionary::TermStreamer;
use crate::termdict::merger::{TermMerger, has_head, head_key, stepped};

verus! {

/// The depth of an encoded facet: 0 for the root, else one more than the
/// number of separators, or the largest `usize` where that is less.
pub fn facet_depth(facet_bytes: &[u8]) -> (depth: usize)
    ensures
        depth == (if depth_of(facet_bytes@) <= usize::MAX {
            depth_of(facet_bytes@)
        } else {
            usize::MAX as nat
        }),
{
    if facet_bytes.len() == 0 {
        return 0;
    }
    let mut separators: usize = 0;
    let mut i: usize = 0;
    while i < facet_bytes.len()
        invariant
            i <= facet_bytes@.len(),
            separators == cuts_upto(facet_bytes@, i as int).len(),
            separators <= i,
        decreases facet_bytes@.len() - i,
    {
        if facet_bytes[i] == FACET_SEP_BYTE {
            separators = separators + 1;
        }
        i = i + 1;
    }
    separators.saturating_add(1)
}

/// Whether `key` is `root` or lies below it.
pub fn is_under_root(root: &[u8], key: &[u8]) -> (under: bool)
    ensures
        under == under_root(root@, key@),
{
    let n = root.len();
    if n == 0 {
        return true;
    }
    if key.len() < n {
        return false;
    }
    let head = vstd::slice::slice_subrange(key, 0, n);
    proof {
        assert(head@ == key@.take(n as int));
        if key@ == root@ {
            assert(key@.take(n as int) == root@);
        }
    }
    if !key_eq(head, root) {
        return false;
    }
    if key.len() == n {
        proof {
            assert(key@ =~= key@.take(n as int));
        }
        return true;
    }
    key[n] == FACET_SEP_BYTE
}

/// Why a facet collection failed.
#[derive(Clone, Copy, Debug, PartialEq, Eq, Structural)]
pub enum CollectorError {
    /// The field to collect is not a facet field of the segment.
    MissingFacetField,
    /// There are more hits than a `u64` can count.
    CountOverflow,
}

/// The hits counted in one segment, by the ordinal of the facet.
pub struct SegmentFacetCounter {
    /// The facets of the segment.
    pub facet_reader: FacetReader,
    /// The number of hits under each facet.
    pub facet_counts: Vec<u64>,
}

impl View for SegmentFacetCounter {
    type V = SegView;

    open spec fn view(&self) -> SegView {
        SegView { terms: self.facet_reader.dict().terms(), counts: self.facet_counts@ }
    }
}

impl SegmentFacetCounter {
    /// Validity: there is one count for each facet.
    pub open spec fn wf(&self) -> bool {
        self.facet_reader.wf() && self.facet_counts@.len() == self.facet_reader.dict().terms().len()
    }
}

/// What a list of segment counters stands for.
pub open spec fn seg_views(segments: Seq<SegmentFacetCounter>) -> Seq<SegView> {
    Seq::new(segments.len(), |i: int| segments[i]@)
}

/// How often `ord` occurs among `ords`.
pub open spec fn occurrences(ords: Seq<u64>, ord: int) -> nat
    decreases ords.len(),
{
    if ords.len() == 0 {
        0
    } else {
        occurrences(ords.drop_last(), ord) + if ords.last() == ord {
            1nat
        } else {
            0nat
        }
    }
}

/// A count after `more` hits are added to it: it stops at the largest `u64`.
pub open spec fn capped_count(count: u64, more: nat) -> u64 {
    if count + more <= u64::MAX {
        (count + more) as u64
    } else {
        u64::MAX
    }
}

/// Whether adding the hits of `ords` takes one of the counts past the largest
/// `u64`.
pub open spec fn outgrown(counts: Seq<u64>, ords: Seq<u64>) -> bool {
    exists|o: int| 0 <= o < counts.len() && #[trigger] counts[o] + occurrences(ords, o) > u64::MAX
}

/// Collector for faceting: counts, for every facet of a field, the docs
/// collected that hold the facet. The counts of each segment are kept by
/// ordinal; facets are put together across segments once the collection is
/// harvested.
pub struct FacetCollector {
    facet_ords: Vec<u64>,
    field: Field,
    ff_reader: Option<FacetReader>,
    segment_counters: Vec<SegmentFacetCounter>,
    current_segment_counts: Vec<u64>,
    overflowed: bool,
}

impl FacetCollector {
    /// The field whose facets are counted.
    pub closed spec fn field(&self) -> Field {
        self.field
    }

    /// Whether a segment has been set.
    pub closed spec fn has_segment(&self) -> bool {
        self.ff_reader is Some
    }

    /// The reader of the current segment.
    pub closed spec fn reader(&self) -> FacetReader {
        self.ff_reader->0
    }

    /// The counts of the current segment, by ordinal.
    pub closed spec fn counts(&self) -> Seq<u64> {
        self.current_segment_counts@
    }

    /// The counts of the segments sealed so far.
    pub closed spec fn sealed(&self) -> Seq<SegView> {
        seg_views(self.segment_counters@)
    }

    /// Whether some count has outgrown a `u64`.
    pub closed spec fn overflowed(&self) -> bool {
        self.overflowed
    }

    /// Validity of the collector.
    pub closed spec fn wf(&self) -> bool {
        &&& forall|i: int| 0 <= i < self.segment_counters@.len() ==> (#[trigger] self.segment_counters@[i]).wf()
        &&& self.ff_reader matches Some(reader) ==> reader.wf() && self.current_segment_counts@.len()
            == reader.dict().terms().len()
    }

    /// Create a facet collector to collect the facets from a specific facet
    /// `Field`.
    pub fn for_field(field: Field) -> (collector: FacetCollector)
        ensures
            collector.wf(),
            collector.field() == field,
            !collector.has_segment(),
            !collector.overflowed(),
            collector.sealed().len() == 0,
    {
        FacetCollector {
            facet_ords: Vec::new(),
            field,
            ff_reader: None,
            segment_counters: Vec::new(),
            current_segment_counts: Vec::new(),
            overflowed: false,
        }
    }

    /// Seals the counts of the current segment, if there is one.
    fn finalize_segment(&mut self)
        requires
            old(self).wf(),
        ensures
            final(self).wf(),
            !final(self).has_segment(),
            final(self).field() == old(self).field(),
            final(self).overflowed() == old(self).overflowed(),
            final(self).sealed() == (if old(self).has_segment() {
                old(self).sealed().push(SegView { terms: old(self).reader().dict().terms(), counts: old(self).counts() })
            } else {
                old(self).sealed()
            }),
    {
        let reader = self.ff_reader.take();
        match reader {
            Some(facet_reader) => {
                let mut facet_counts: Vec<u64> = Vec::new();
                core::mem::swap(&mut self.current_segment_counts, &mut facet_counts);
                self.segment_counters.push(SegmentFacetCounter { facet_reader, facet_counts });
                proof {
                    assert(seg_views(self.segment_counters@) =~= seg_views(old(self).segment_counters@).push(
                        SegView { terms: old(self).reader().dict().terms(), counts: old(self).counts() },
                    ));
                }
            },
            None => {},
        }
    }

    /// Starts the segment whose facets `facet_reader` reads, after sealing
    /// the counts of the segment before. `None` stands for a segment in
    /// which the field is not a facet field.
    pub fn set_segment(&mut self, segment_local_id: u32, facet_reader: Option<FacetReader>) -> (res: Result<
        (),
        CollectorError,
    >)
        requires
            old(self).wf(),
            facet_reader matches Some(reader) ==> reader.wf(),
        ensures
            final(self).wf(),
            final(self).field() == old(self).field(),
            final(self).overflowed() == old(self).overflowed(),
            final(self).sealed() == (if old(self).has_segment() {
                old(self).sealed().push(SegView { terms: old(self).reader().dict().terms(), counts: old(self).counts() })
            } else {
                old(self).sealed()
            }),
            match facet_reader {
                Some(reader) => res is Ok && final(self).has_segment() && final(self).reader() == reader
                    && final(self).counts().len() == reader.dict().terms().len() && forall|o: int|
                    0 <= o < final(self).counts().len() ==> #[trigger] final(self).counts()[o] == 0,
                None => res == Err::<(), CollectorError>(CollectorError::MissingFacetField) && !final(self).has_segment(),
            },
    {
        self.finalize_segment();
        match facet_reader {
            Some(reader) => {
                let num_facets = reader.num_facets();
                let mut counts: Vec<u64> = Vec::new();
                while counts.len() < num_facets
                    invariant
                        counts@.len() <= num_facets,
                        forall|o: int| 0 <= o < counts@.len() ==> #[trigger] counts@[o] == 0,
                    decreases num_facets - counts@.len(),
                {
                    counts.push(0);
                }
                self.current_segment_counts = counts;
                self.ff_reader = Some(reader);
                Ok(())
            },
            None => Err(CollectorError::MissingFacetField),
        }
    }

    /// Counts `doc` under each of its facets. A segment has been set, and
    /// `doc` is one of its docs.
    pub fn collect(&mut self, doc: DocId)
        requires
            old(self).wf(),
            old(self).has_segment(),
            doc < old(self).reader().ords().num_docs(),
        ensures
            final(self).wf(),
            final(self).has_segment(),
            final(self).reader() == old(self).reader(),
            final(self).field() == old(self).field(),
            final(self).sealed() == old(self).sealed(),
            final(self).counts().len() == old(self).counts().len(),
            final(self).overflowed() == (old(self).overflowed() || outgrown(
                old(self).counts(),
                old(self).reader().ords().values_of(doc as int),
            )),
            forall|o: int|
                0 <= o < old(self).counts().len() ==> #[trigger] final(self).counts()[o] == capped_count(
                    old(self).counts()[o],
                    occurrences(old(self).reader().ords().values_of(doc as int), o),
                ),
    {
        let mut ords: Vec<u64> = Vec::new();
        core::mem::swap(&mut self.facet_ords, &mut ords);
        match &self.ff_reader {
            Some(facet_reader) => {
                facet_reader.facet_ords(doc, &mut ords);
            },
            None => {},
        }
        let ghost all = ords@;
        let ghost start = self.current_segment_counts@;
        let num_facets = self.current_segment_counts.len();
        let mut i: usize = 0;
        while i < ords.len()
            invariant
                i <= ords@.len(),
                ords@ == all,
                self.wf(),
                self.ff_reader == old(self).ff_reader,
                self.field == old(self).field,
                self.segment_counters == old(self).segment_counters,
                self.current_segment_counts@.len() == num_facets,
                num_facets == start.len(),
                self.overflowed == (old(self).overflowed || outgrown(start, all.take(i as int))),
                forall|o: int|
                    0 <= o < num_facets ==> #[trigger] self.current_segment_counts@[o] == capped_count(
                        start[o],
                        occurrences(all.take(i as int), o),
                    ),
            decreases ords@.len() - i,
        {
            let facet_ord = ords[i];
            let ghost seen = all.take(i as int);
            let ghost flagged = self.overflowed;
            proof {
                assert(all.take(i + 1).drop_last() == seen);
                assert(all.take(i + 1).last() == facet_ord);
                if outgrown(start, seen) {
                    let o = choose|o: int| 0 <= o < start.len() && #[trigger] start[o] + occurrences(seen, o) > u64::MAX;
                    assert(start[o] + occurrences(all.take(i + 1), o) > u64::MAX);
                }
                if outgrown(start, all.take(i + 1)) && !outgrown(start, seen) {
                    let o = choose|o: int|
                        0 <= o < start.len() && #[trigger] start[o] + occurrences(all.take(i + 1), o) > u64::MAX;
                    assert(start[o] + occurrences(seen, o) <= u64::MAX);
                    assert(o == facet_ord);
                    assert(self.current_segment_counts@[o] == u64::MAX);
                }
                if facet_ord < num_facets && self.current_segment_counts@[facet_ord as int] == u64::MAX {
                    assert(start[facet_ord as int] + occurrences(all.take(i + 1), facet_ord as int) > u64::MAX);
                }
            }
            if facet_ord < num_facets as u64 {
                let slot = facet_ord as usize;
                let count = self.current_segment_counts[slot];
                if count == u64::MAX {
                    self.overflowed = true;
                } else {
                    self.current_segment_counts.set(slot, count + 1);
                }
            }
            i = i + 1;
        }
        proof {
            assert(all.take(i as int) == all);
        }
        self.facet_ords = ords;
    }

    /// Returns the results of the collection, after sealing the counts of the
    /// last segment. Fails where the hits outnumber what a `u64` can count.
    pub fn harvest(self) -> (res: Result<FacetCounts, CollectorError>)
        requires
            self.wf(),
        ensures
            match res {
                Ok(counts) => {
                    &&& counts.wf()
                    &&& counts.root_spec().len() == 0
                    &&& counts.views() == (if self.has_segment() {
                        self.sealed().push(SegView { terms: self.reader().dict().terms(), counts: self.counts() })
                    } else {
                        self.sealed()
                    })
                    &&& !self.overflowed()
                },
                Err(e) => e == CollectorError::CountOverflow,
            },
            res is Err <==> self.overflowed() || total_where(
                if self.has_segment() {
                    self.sealed().push(SegView { terms: self.reader().dict().terms(), counts: self.counts() })
                } else {
                    self.sealed()
                },
                any_key(),
            ) > u64::MAX,
    {
        let mut this = self;
        this.finalize_segment();
        if this.overflowed {
            return Err(CollectorError::CountOverflow);
        }
        let ghost vs = seg_views(this.segment_counters@);
        let ghost target = if self.has_segment() {
            self.sealed().push(SegView { terms: self.reader().dict().terms(), counts: self.counts() })
        } else {
            self.sealed()
        };
        let n = this.segment_counters.len();
        let mut total: u64 = 0;
        let mut i: usize = 0;
        while i < n
            invariant
                i <= n,
                n == this.segment_counters@.len(),
                vs == seg_views(this.segment_counters@),
                vs == target,
                target == (if self.has_segment() {
                    self.sealed().push(SegView { terms: self.reader().dict().terms(), counts: self.counts() })
                } else {
                    self.sealed()
                }),
                !self.overflowed(),
                forall|j: int| 0 <= j < n ==> (#[trigger] this.segment_counters@[j]).wf(),
                total == total_upto(vs, all_of(vs), i as int, any_key()),
            decreases n - i,
        {
            let counts = &this.segment_counters[i].facet_counts;
            let ghost v = vs[i as int];
            proof {
                assert(this.segment_counters@[i as int].wf());
                assert(v == this.segment_counters@[i as int]@);
                assert(all_of(vs)[i as int] == v.terms.len());
            }
            let mut sum: u64 = total;
            let mut o: usize = 0;
            while o < counts.len()
                invariant
                    o <= counts@.len(),
                    counts@ == v.counts,
                    v.terms.len() == v.counts.len(),
                    vs.len() == n,
                    vs == target,
                    target == (if self.has_segment() {
                        self.sealed().push(SegView { terms: self.reader().dict().terms(), counts: self.counts() })
                    } else {
                        self.sealed()
                    }),
                    !self.overflowed(),
                    i < n,
                    v == vs[i as int],
                    total == total_upto(vs, all_of(vs), i as int, any_key()),
                    sum == total + sum_upto(v, o as int, any_key()),
                decreases counts@.len() - o,
            {
                proof {
                    assert(sum_upto(v, o + 1, any_key()) == sum_upto(v, o as int, any_key()) + counts@[o as int]) by {
                        assert(any_key()(v.terms[o as int]));
                    }
                }
                sum = match sum.checked_add(counts[o]) {
                    Some(next) => next,
                    None => {
                        proof {
                            assert(all_of(vs)[i as int] == v.terms.len());
                            crate::collector::counts_spec::lemma_sum_grows(
                                v,
                                o + 1,
                                v.terms.len() as int,
                                any_key(),
                                any_key(),
                            );
                            crate::collector::counts_spec::lemma_total_grows(
                                vs,
                                all_of(vs),
                                all_of(vs),
                                i + 1,
                                vs.len() as int,
                                any_key(),
                                any_key(),
                            );
                            assert(sum_upto(v, o + 1, any_key()) == sum_upto(v, o as int, any_key()) + counts@[o as int]) by {
                                assert(any_key()(v.terms[o as int]));
                            }
                            assert(total_upto(vs, all_of(vs), i + 1, any_key()) == total + sum_upto(
                                v,
                                v.terms.len() as int,
                                any_key(),
                            ));
                            assert(total_where(vs, any_key()) > u64::MAX);
                            assert(total_where(target, any_key()) > u64::MAX);
                            assert(target == (if self.has_segment() {
                                self.sealed().push(
                                    SegView { terms: self.reader().dict().terms(), counts: self.counts() },
                                )
                            } else {
                                self.sealed()
                            }));
                        }
                        return Err(CollectorError::CountOverflow);
                    },
                };
                o = o + 1;
            }
            total = sum;
            i = i + 1;
        }
        Ok(FacetCounts { segments_counts: std::sync::Arc::new(this.segment_counters), root: Facet::root() })
    }
}

/// Calls `Arc::clone`: another handle on the same value.
#[verifier::external_body]
fn share(counters: &std::sync::Arc<Vec<SegmentFacetCounter>>) -> (shared: std::sync::Arc<Vec<SegmentFacetCounter>>)
    ensures
        shared == *counters,
{
    std::sync::Arc::clone(counters)
}

/// The counts of a facet collection, over all segments, below a root facet.
/// The segment counters are shared by every view of the collection.
pub struct FacetCounts {
    segments_counts: std::sync::Arc<Vec<SegmentFacetCounter>>,
    root: Facet,
}

impl FacetCounts {
    /// The counts of each segment.
    pub closed spec fn views(&self) -> Seq<SegView> {
        seg_views(self.segments_counts@)
    }

    /// All the hits together fit a `u64`.
    pub proof fn lemma_wf(&self)
        requires
            self.wf(),
        ensures
            total_where(self.views(), any_key()) <= u64::MAX,
    {
    }

    /// The encoded root facet.
    pub fn root_bytes(&self) -> (root: &[u8])
        ensures
            root@ == self.root_spec(),
    {
        self.root.encoded_bytes()
    }

    /// The segment counters.
    fn segments(&self) -> (segments: &Vec<SegmentFacetCounter>)
        ensures
            segments@ == self.segments_counts@,
    {
        &self.segments_counts
    }

    /// The encoded root facet.
    pub closed spec fn root_spec(&self) -> Seq<u8> {
        self.root@
    }

    /// Validity: every segment has a count for each of its facets, and all
    /// the hits together fit a `u64`.
    pub closed spec fn wf(&self) -> bool {
        &&& forall|i: int| 0 <= i < self.segments_counts@.len() ==> (#[trigger] self.segments_counts@[i]).wf()
        &&& total_where(seg_views(self.segments_counts@), any_key()) <= u64::MAX
    }
}


/// The facets rise strictly from each item to the next.
pub open spec fn facets_rise(items: Seq<(Seq<u8>, u64)>) -> bool {
    forall|a: int, b: int| 0 <= a < b < items.len() ==> lex_lt(#[trigger] items[a].0, #[trigger] items[b].0)
}

impl FacetCounts {
    /// View of the facet count restricted to the facets below `root`, and
    /// `root` itself.
    pub fn root(&self, root: Facet) -> (counts: FacetCounts)
        requires
            self.wf(),
        ensures
            counts.wf(),
            counts.views() == self.views(),
            counts.root_spec() == root@,
    {
        FacetCounts { segments_counts: share(&self.segments_counts), root }
    }

    /// The merge of the streams, one per segment, over the facets between
    /// the root and the last facet that starts with the root.
    fn facets<'a>(&'a self) -> (merger: TermMerger<'a>)
        requires
            self.wf(),
        ensures
            merger.wf(),
            merger.group().len() == 0,
            merger.streams().len() == self.views().len(),
            scene(self.views(), merger.streams(), root_lower(self.root_spec()), root_upper(self.root_spec())),
            forall|i: int|
                0 <= i < merger.streams().len() ==> (#[trigger] merger.streams()[i]).cursor()
                    == merger.streams()[i].first(),
    {
        let ghost vs = self.views();
        let ghost lower = root_lower(self.root@);
        let ghost upper = root_upper(self.root@);
        let rooted = !self.root.is_root();
        let mut past: Vec<u8> = slice_to_vec(self.root.encoded_bytes());
        past.push(32);
        let mut streams: Vec<TermStreamer<'a>> = Vec::new();
        let segments = self.segments();
        let n = segments.len();
        let mut i: usize = 0;
        while i < n
            invariant
                i <= n,
                n == self.segments_counts@.len(),
                self.wf(),
                vs == self.views(),
                lower == root_lower(self.root@),
                upper == root_upper(self.root@),
                rooted == (self.root@.len() > 0),
                past@ == self.root@.push(32u8),
                streams@.len() == i,
                segments@ == self.segments_counts@,
                forall|j: int| 0 <= j < i ==> (#[trigger] streams@[j]).wf() && streams@[j].cursor() == streams@[j].first(),
                forall|j: int| 0 <= j < i ==> scene_seg(#[trigger] vs[j], streams@[j], lower, upper),
            decreases n - i,
        {
            let segment = &segments[i];
            let dict = segment.facet_reader.facet_dict();
            proof {
                assert(segment.wf());
                segment.facet_reader.lemma_wf();
                dict.lemma_terms();
                assert(vs[i as int] == segment@);
            }
            let range = dict.range();
            let stream = if rooted {
                range.ge(self.root.encoded_bytes()).lt(past.as_slice()).into_stream()
            } else {
                range.into_stream()
            };
            proof {
                stream.lemma_bounds();
                let e = stream.map().all_entries();
                assert forall|o: int| 0 <= o < e.len() implies #[trigger] vs[i as int].terms[o] == e[o].0 by {
                    assert(dict.terms()[o] == e[o].0);
                }
            }
            streams.push(stream);
            i = i + 1;
        }
        TermMerger::new(streams)
    }

    /// The hits under the facet on which the merge stands: the sum of the
    /// counts that the segments of the group hold at the ordinal of the
    /// facet.
    fn group_count(&self, merger: &TermMerger<'_>, Ghost(before): Ghost<Seq<TermStreamer<'_>>>) -> (count: u64)
        requires
            self.wf(),
            merger.wf(),
            merger.streams().len() == self.views().len(),
            before.len() == self.views().len(),
            scene(self.views(), before, root_lower(self.root_spec()), root_upper(self.root_spec())),
            in_range(root_lower(self.root_spec()), root_upper(self.root_spec()), merger.key_spec()),
            forall|i: int|
                0 <= i < before.len() ==> stepped(
                    before[i],
                    #[trigger] merger.streams()[i],
                    has_head(before[i]) && head_key(before[i]) == merger.key_spec(),
                ),
            forall|i: int|
                0 <= i < before.len() ==> (merger.group().contains(i as usize) <==> has_head(#[trigger] before[i])
                    && head_key(before[i]) == merger.key_spec()),
            forall|a: int, b: int| 0 <= a < b < merger.group().len() ==> merger.group()[a] < merger.group()[b],
            picked(self.views(), cursors(before), before.len() as int, merger.key_spec()) <= u64::MAX,
        ensures
            count == picked(self.views(), cursors(before), before.len() as int, merger.key_spec()),
    {
        let ghost vs = self.views();
        let ghost at = cursors(before);
        let ghost key = merger.key_spec();
        let ghost lower = root_lower(self.root@);
        let ghost upper = root_upper(self.root@);
        let group = merger.current_kvs();
        let segments = self.segments();
        let n = segments.len();
        let mut count: u64 = 0;
        let mut g: usize = 0;
        let mut i: usize = 0;
        while i < n
            invariant
                i <= n,
                n == self.segments_counts@.len(),
                n == before.len(),
                n == merger.streams().len(),
                segments@ == self.segments_counts@,
                self.wf(),
                merger.wf(),
                vs == self.views(),
                at == cursors(before),
                key == merger.key_spec(),
                lower == root_lower(self.root@),
                upper == root_upper(self.root@),
                group@ == merger.group(),
                scene(vs, before, lower, upper),
                in_range(lower, upper, key),
                forall|j: int|
                    0 <= j < n ==> stepped(
                        before[j],
                        #[trigger] merger.streams()[j],
                        has_head(before[j]) && head_key(before[j]) == key,
                    ),
                forall|j: int|
                    0 <= j < n ==> (group@.contains(j as usize) <==> has_head(#[trigger] before[j]) && head_key(
                        before[j],
                    ) == key),
                forall|a: int, b: int| 0 <= a < b < group@.len() ==> group@[a] < group@[b],
                g <= group@.len(),
                forall|a: int| 0 <= a < g ==> group@[a] < i,
                forall|a: int| g <= a < group@.len() ==> group@[a] >= i,
                count == picked(vs, at, i as int, key),
                picked(vs, at, n as int, key) <= u64::MAX,
            decreases n - i,
        {
            let member = g < group.len() && group[g] == i;
            let ghost v = vs[i as int];
            proof {
                assert(scene_seg(vs[i as int], before[i as int], lower, upper));
                assert(stepped(before[i as int], merger.streams()[i as int], has_head(before[i as int]) && head_key(
                    before[i as int],
                ) == key));
                assert(v == self.segments_counts@[i as int]@);
                assert(self.segments_counts@[i as int].wf());
                lemma_picked_grows(vs, at, i + 1, n as int, key);
                let e = before[i as int].map().all_entries();
                let c = at[i as int];
                if member {
                    assert(group@.contains(i));
                    assert(v.terms[c] == e[c].0);
                } else {
                    if group@.contains(i) {
                        let a = choose|a: int| 0 <= a < group@.len() && group@[a] == i;
                        assert(false);
                    }
                    if 0 <= c < v.terms.len() && v.terms[c] == key {
                        assert(v.terms[c] == e[c].0);
                        assert(in_range(lower, upper, e[c].0));
                    }
                }
            }
            if member {
                proof {
                    merger.lemma_group(g as int);
                }
                let ord = merger.streamer(i).ord();
                let hits = segments[i].facet_counts[ord];
                count = count + hits;
                g = g + 1;
            }
            i = i + 1;
        }
        count
    }

    /// Every facet under the root that some segment holds, in order, each
    /// with the hits counted under it in all segments.
    pub fn merged(&self) -> (items: Vec<(Vec<u8>, u64)>)
        requires
            self.wf(),
        ensures
            facets_rise(items_view(items@)),
            forall|j: int|
                0 <= j < items@.len() ==> under_root(self.root_spec(), (#[trigger] items_view(items@)[j]).0)
                    && items_view(items@)[j].1 == total_count(self.views(), items_view(items@)[j].0),
            forall|k: Seq<u8>|
                under_root(self.root_spec(), k) && (forall|j: int|
                    0 <= j < items@.len() ==> (#[trigger] items_view(items@)[j]).0 != k) ==> #[trigger] total_count(
                    self.views(),
                    k,
                ) == 0,
            forall|p: spec_fn(Seq<u8>) -> bool| #[trigger]
                items_sum(items_view(items@), p) == total_where(self.views(), under_and(self.root_spec(), p)),
            forall|j: int| 0 <= j < items@.len() ==> holds_key(self.views(), (#[trigger] items_view(items@)[j]).0),
            forall|k: Seq<u8>|
                under_root(self.root_spec(), k) && #[trigger] holds_key(self.views(), k) ==> exists|j: int|
                    0 <= j < items@.len() && (#[trigger] items_view(items@)[j]).0 == k,
    {
        let ghost vs = self.views();
        let ghost root = self.root@;
        let ghost lower = root_lower(root);
        let ghost upper = root_upper(root);
        let mut merger = self.facets();
        let ghost n = vs.len() as int;
        let mut items: Vec<(Vec<u8>, u64)> = Vec::new();
        let ghost mut floor: Option<Seq<u8>> = None;
        proof {
            assert forall|p: spec_fn(Seq<u8>) -> bool| #[trigger]
                items_sum(items_view(items@), p) == total_upto(vs, cursors(merger.streams()), n, under_and(root, p)) by {
                lemma_nothing_consumed(vs, merger.streams(), root, p, n);
            }
            lemma_remaining_nonnegative(vs, merger.streams(), lower, upper, n);
            assert(ordered(vs, merger.streams(), floor));
        }
        loop
            invariant
                self.wf(),
                merger.wf(),
                vs == self.views(),
                root == self.root@,
                lower == root_lower(root),
                upper == root_upper(root),
                n == vs.len(),
                merger.streams().len() == n,
                scene(vs, merger.streams(), lower, upper),
                ordered(vs, merger.streams(), floor),
                remaining(merger.streams(), n) >= 0,
                facets_rise(items_view(items@)),
                forall|j: int|
                    0 <= j < items@.len() ==> floor is Some && lex_le((#[trigger] items_view(items@)[j]).0, floor->0),
                forall|j: int|
                    0 <= j < items@.len() ==> under_root(root, (#[trigger] items_view(items@)[j]).0) && items_view(
                        items@,
                    )[j].1 == total_count(vs, items_view(items@)[j].0),
                forall|k: Seq<u8>|
                    under_root(root, k) && floor is Some && lex_le(k, floor->0) && (forall|j: int|
                        0 <= j < items@.len() ==> (#[trigger] items_view(items@)[j]).0 != k) ==> #[trigger] total_count(
                        vs,
                        k,
                    ) == 0,
                forall|p: spec_fn(Seq<u8>) -> bool| #[trigger]
                    items_sum(items_view(items@), p) == total_upto(
                        vs,
                        cursors(merger.streams()),
                        n,
                        under_and(root, p),
                    ),
                forall|j: int| 0 <= j < items@.len() ==> holds_key(vs, (#[trigger] items_view(items@)[j]).0),
                forall|i: int, o: int|
                    0 <= i < n && merger.streams()[i].first() <= o < merger.streams()[i].cursor() && under_root(
                        root,
                        #[trigger] vs[i].terms[o],
                    ) ==> exists|j: int| 0 <= j < items@.len() && (#[trigger] items_view(items@)[j]).0 == vs[i].terms[o],
            ensures
                forall|i: int| 0 <= i < merger.streams().len() ==> !has_head(#[trigger] merger.streams()[i]),
            decreases remaining(merger.streams(), n),
        {
            let ghost before = merger.streams();
            let ghost held = items_view(items@);
            if !merger.advance() {
                proof {
                    lemma_unmoved(vs, before, merger.streams(), lower, upper, floor);
                    lemma_remaining_nonnegative(vs, merger.streams(), lower, upper, n);
                    assert forall|i: int| 0 <= i < before.len() implies !has_head(#[trigger] merger.streams()[i]) by {
                        assert(!has_head(before[i]));
                    }
                    assert forall|i: int, o: int|
                        0 <= i < n && merger.streams()[i].first() <= o < merger.streams()[i].cursor() && under_root(
                            root,
                            #[trigger] vs[i].terms[o],
                        ) implies exists|j: int|
                        0 <= j < items@.len() && (#[trigger] items_view(items@)[j]).0 == vs[i].terms[o] by {
                        assert(stepped(before[i], merger.streams()[i], false));
                        assert(before[i].first() <= o < before[i].cursor());
                    }
                }
                break ;
            }
            let ghost after = merger.streams();
            let ghost key = merger.key_spec();
            proof {
                merger.lemma_group(0);
                let w = merger.group()[0] as int;
                assert(merger.group().contains(w as usize));
                assert(has_head(before[w]) && head_key(before[w]) == key);
                lemma_step_keeps_order(vs, before, after, lower, upper, floor, key);
                lemma_remaining_nonnegative(vs, after, lower, upper, n);
                lemma_key_at_cursor(vs, before, lower, upper, floor, key);
                lemma_picked_is_count(vs, cursors(before), n, key);
                lemma_total_bounded(vs, all_of(vs), n, is_key(key));
                lemma_remaining_shrinks(before, after, key, n);
                assert forall|i: int| 0 <= i < n implies (0 <= #[trigger] cursors(before)[i] && cursors(after)[i]
                    == cursors(before)[i] + if cursors(before)[i] < vs[i].terms.len() && vs[i].terms[cursors(
                    before,
                )[i]] == key {
                    1int
                } else {
                    0int
                }) by {
                    assert(scene_seg(vs[i], before[i], lower, upper));
                    assert(stepped(before[i], after[i], has_head(before[i]) && head_key(before[i]) == key));
                    let e = before[i].map().all_entries();
                    let c = cursors(before)[i];
                    if c < vs[i].terms.len() {
                        assert(vs[i].terms[c] == e[c].0);
                        if vs[i].terms[c] == key {
                            assert(in_range(lower, upper, e[c].0));
                        }
                    }
                }
            }
            let count = self.group_count(&merger, Ghost(before));
            let under = is_under_root(self.root.encoded_bytes(), merger.key());
            if under {
                items.push((slice_to_vec(merger.key()), count));
            }
            proof {
                let now = items_view(items@);
                if under {
                    assert(now =~= held.push((key, count)));
                } else {
                    assert(now =~= held);
                }
                assert forall|p: spec_fn(Seq<u8>) -> bool| #[trigger]
                    items_sum(now, p) == total_upto(vs, cursors(after), n, under_and(root, p)) by {
                    lemma_total_step(vs, cursors(before), cursors(after), n, under_and(root, p), key);
                    assert(items_sum(held, p) == total_upto(vs, cursors(before), n, under_and(root, p)));
                    if under {
                        lemma_items_push(held, key, count, p);
                    }
                }
                assert forall|j: int| 0 <= j < now.len() implies lex_le((#[trigger] now[j]).0, key) by {
                    if j < held.len() {
                        assert(lex_le(held[j].0, floor->0));
                        if held[j].0 != floor->0 {
                            lemma_lex_transitive(held[j].0, floor->0, key);
                        }
                    }
                }
                assert forall|j: int| 0 <= j < now.len() implies under_root(root, (#[trigger] now[j]).0) && now[j].1
                    == total_count(vs, now[j].0) by {
                    if j < held.len() {
                        assert(under_root(root, held[j].0) && held[j].1 == total_count(vs, held[j].0));
                    }
                }
                assert forall|j: int| 0 <= j < now.len() implies holds_key(vs, (#[trigger] now[j]).0) by {
                    if j < held.len() {
                        assert(holds_key(vs, held[j].0));
                    } else {
                        let w = merger.group()[0] as int;
                        assert(scene_seg(vs[w], before[w], lower, upper));
                        let c = before[w].cursor() as int;
                        assert(vs[w].terms[c] == before[w].map().all_entries()[c].0);
                        assert(vs[w].terms[c] == key);
                    }
                }
                assert forall|i: int, o: int|
                    0 <= i < n && after[i].first() <= o < after[i].cursor() && under_root(
                        root,
                        #[trigger] vs[i].terms[o],
                    ) implies exists|j: int| 0 <= j < now.len() && (#[trigger] now[j]).0 == vs[i].terms[o] by {
                    assert(stepped(before[i], after[i], has_head(before[i]) && head_key(before[i]) == key));
                    if o < before[i].cursor() {
                        let j = choose|j: int| 0 <= j < held.len() && (#[trigger] held[j]).0 == vs[i].terms[o];
                        assert(now[j].0 == vs[i].terms[o]);
                    } else {
                        assert(scene_seg(vs[i], before[i], lower, upper));
                        assert(vs[i].terms[o] == before[i].map().all_entries()[o].0);
                        assert(now[now.len() - 1].0 == key);
                    }
                }
                assert forall|a: int, b: int| 0 <= a < b < now.len() implies lex_lt(
                    #[trigger] now[a].0,
                    #[trigger] now[b].0,
                ) by {
                    if b < held.len() {
                        assert(lex_lt(held[a].0, held[b].0));
                    } else {
                        assert(lex_le(held[a].0, floor->0));
                        if held[a].0 != floor->0 {
                            lemma_lex_transitive(held[a].0, floor->0, key);
                        }
                    }
                }
                assert forall|k: Seq<u8>|
                    under_root(root, k) && lex_le(k, key) && (forall|j: int|
                        0 <= j < now.len() ==> (#[trigger] now[j]).0 != k) implies #[trigger] total_count(vs, k)
                    == 0 by {
                    if floor is Some && lex_le(k, floor->0) {
                        assert forall|j: int| 0 <= j < held.len() implies (#[trigger] held[j]).0 != k by {
                            assert(now[j].0 != k);
                        }
                    } else {
                        if k == key {
                            assert(now[now.len() - 1].0 == k);
                        }
                        // the facet lies in the gap that the step has jumped
                        if floor is Some {
                            crate::datastruct::lex::lemma_lex_total(k, floor->0);
                        }
                        lemma_under_root_within(root, k);
                        assert forall|i: int, o: int|
                            0 <= i < before.len() && before[i].first() <= o < before[i].cursor() implies #[trigger] vs[i].terms[o]
                            != k by {
                            assert(reached(floor, vs[i].terms[o]));
                            if vs[i].terms[o] == k {
                                assert(false);
                            }
                        }
                        assert forall|i: int, o: int|
                            0 <= i < before.len() && before[i].cursor() <= o < before[i].limit() implies #[trigger] vs[i].terms[o]
                            != k by {
                            assert(scene_seg(vs[i], before[i], lower, upper));
                            let e = before[i].map().all_entries();
                            let c = before[i].cursor() as int;
                            assert(vs[i].terms[o] == e[o].0);
                            assert(has_head(before[i]));
                            assert(lex_le(key, e[c].0));
                            if o > c {
                                assert(lex_lt(e[c].0, e[o].0));
                            }
                            if vs[i].terms[o] == k {
                                lemma_lex_asymmetric(k, key);
                                if key != e[c].0 {
                                    lemma_lex_asymmetric(key, e[c].0);
                                    if o > c {
                                        lemma_lex_transitive(key, e[c].0, e[o].0);
                                    }
                                } else if o > c {
                                    lemma_lex_asymmetric(e[c].0, e[o].0);
                                }
                            }
                        }
                        lemma_passed_over(vs, before, lower, upper, floor, k);
                    }
                }
                floor = Some(key);
            }
        }
        proof {
            let held = items_view(items@);
            assert forall|k: Seq<u8>| under_root(root, k) && #[trigger] holds_key(vs, k) implies exists|j: int|
                0 <= j < held.len() && (#[trigger] held[j]).0 == k by {
                let (i, o) = choose|i: int, o: int|
                    0 <= i < vs.len() && 0 <= o < vs[i].terms.len() && #[trigger] vs[i].terms[o] == k;
                let ss = merger.streams();
                assert(scene_seg(vs[i], ss[i], lower, upper));
                assert(!has_head(ss[i]));
                lemma_under_root_within(root, k);
                assert(vs[i].terms[o] == ss[i].map().all_entries()[o].0);
                assert(in_range(lower, upper, ss[i].map().all_entries()[o].0));
                assert(ss[i].first() <= o < ss[i].cursor());
            }
            assert forall|p: spec_fn(Seq<u8>) -> bool| #[trigger]
                items_sum(held, p) == total_where(vs, under_and(root, p)) by {
                lemma_all_consumed(vs, merger.streams(), root, p);
                assert(items_sum(held, p) == total_upto(vs, cursors(merger.streams()), n, under_and(root, p)));
            }
            assert forall|k: Seq<u8>|
                under_root(root, k) && (forall|j: int| 0 <= j < held.len() ==> (#[trigger] held[j]).0 != k) implies #[trigger] total_count(
                vs,
                k,
            ) == 0 by {
                if !(floor is Some && lex_le(k, floor->0)) {
                    lemma_under_root_within(root, k);
                    let ss = merger.streams();
                    assert forall|i: int, o: int|
                        0 <= i < ss.len() && ss[i].first() <= o < ss[i].cursor() implies #[trigger] vs[i].terms[o]
                        != k by {
                        assert(reached(floor, vs[i].terms[o]));
                    }
                    assert forall|i: int, o: int|
                        0 <= i < ss.len() && ss[i].cursor() <= o < ss[i].limit() implies #[trigger] vs[i].terms[o]
                        != k by {
                        assert(!has_head(ss[i]));
                    }
                    lemma_passed_over(vs, ss, lower, upper, floor, k);
                }
            }
        }
        items
    }
}

} // verus!
