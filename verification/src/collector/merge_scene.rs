//! The merge of the facet streams of all segments, as the counting proofs
//! see it.

use vstd::prelude::*;
use crate::collector::counts_spec::{
    SegView, all_of, is_key, no_key, none_of, lemma_sum_absent, lemma_sum_skip, lemma_total_same, sum_upto, total_count,
    total_upto, total_where, under_and, under_root,
};
use crate::datastruct::fst_block::keys_increase;
use crate::datastruct::fst_stream::{BoundView, cuts_range, in_range};
use crate::datastruct::lex::{
    above, lemma_lex_asymmetric, lemma_lex_total, lemma_lex_transitive, lex_le, lex_lt, lt_at,
};
use crate::schema::facet::FACET_SEP_BYTE;
use crate::termdict::dictionary::TermStreamer;
use crate::termdict::merger::{has_head, head_key, stepped};

verus! {

/// The stream `s` runs over the facets of the segment `v` that lie between
/// `lower` and `upper`.
pub open spec fn scene_seg(v: SegView, s: TermStreamer<'_>, lower: BoundView, upper: BoundView) -> bool {
    let e = s.map().all_entries();
    &&& v.terms.len() == e.len()
    &&& v.counts.len() == e.len()
    &&& forall|o: int| 0 <= o < e.len() ==> #[trigger] v.terms[o] == e[o].0
    &&& keys_increase(e)
    &&& s.first() <= s.cursor() <= s.limit() <= e.len()
    &&& cuts_range(e, lower, upper, s.first() as int, s.limit() as int)
}

/// Every stream runs over the facets of its segment between the bounds.
pub open spec fn scene(vs: Seq<SegView>, ss: Seq<TermStreamer<'_>>, lower: BoundView, upper: BoundView) -> bool {
    &&& vs.len() == ss.len()
    &&& forall|i: int| 0 <= i < vs.len() ==> scene_seg(#[trigger] vs[i], ss[i], lower, upper)
}

/// `k` is at most `floor`, which is there.
pub open spec fn reached(floor: Option<Seq<u8>>, k: Seq<u8>) -> bool {
    floor is Some && lex_le(k, floor->0)
}

/// Every stream has moved past the facets up to `floor`, and only past
/// those.
pub open spec fn ordered(vs: Seq<SegView>, ss: Seq<TermStreamer<'_>>, floor: Option<Seq<u8>>) -> bool {
    &&& forall|i: int, o: int|
        0 <= i < ss.len() && ss[i].first() <= o < ss[i].cursor() ==> reached(floor, #[trigger] vs[i].terms[o])
    &&& forall|i: int, o: int|
        0 <= i < ss.len() && ss[i].cursor() <= o < ss[i].limit() ==> above(floor, #[trigger] vs[i].terms[o])
}

/// Where each stream stands.
pub open spec fn cursors(ss: Seq<TermStreamer<'_>>) -> Seq<int> {
    Seq::new(ss.len(), |i: int| ss[i].cursor() as int)
}

/// The facets under a root lie between the root and the first byte string
/// past everything that starts with the root and a separator.
pub proof fn lemma_under_root_in_range(root: Seq<u8>, k: Seq<u8>)
    requires
        root.len() > 0,
        under_root(root, k),
    ensures
        in_range(BoundView::Included(root), BoundView::Excluded(root.push(32u8)), k),
{
    let past = root.push(32u8);
    let n = root.len() as int;
    if k == root {
        assert(lt_at(root, past, n));
    } else {
        assert(lt_at(root, k, n)) by {
            assert forall|j: int| 0 <= j < n implies root[j] == k[j] by {
                assert(k.take(n)[j] == root[j]);
            }
        }
        lemma_lex_asymmetric(root, k);
        assert(lt_at(k, past, n)) by {
            assert forall|j: int| 0 <= j < n implies k[j] == past[j] by {
                assert(k.take(n)[j] == root[j]);
            }
        }
    }
}

/// The bounds of the streams over the facets under `root`.
pub open spec fn root_lower(root: Seq<u8>) -> BoundView {
    if root.len() == 0 {
        BoundView::Unbounded
    } else {
        BoundView::Included(root)
    }
}

/// The bounds of the streams over the facets under `root`.
pub open spec fn root_upper(root: Seq<u8>) -> BoundView {
    if root.len() == 0 {
        BoundView::Unbounded
    } else {
        BoundView::Excluded(root.push(32u8))
    }
}

/// The facets under `root` lie within the bounds of the streams.
pub proof fn lemma_under_root_within(root: Seq<u8>, k: Seq<u8>)
    requires
        under_root(root, k),
    ensures
        in_range(root_lower(root), root_upper(root), k),
{
    if root.len() > 0 {
        lemma_under_root_in_range(root, k);
    }
}

/// A step of the merge onto `key` keeps the scene, and leaves every stream
/// past the facets up to `key` and only past those.
pub proof fn lemma_step_keeps_order(
    vs: Seq<SegView>,
    before: Seq<TermStreamer<'_>>,
    after: Seq<TermStreamer<'_>>,
    lower: BoundView,
    upper: BoundView,
    floor: Option<Seq<u8>>,
    key: Seq<u8>,
)
    requires
        scene(vs, before, lower, upper),
        ordered(vs, before, floor),
        after.len() == before.len(),
        forall|i: int|
            0 <= i < before.len() ==> stepped(
                before[i],
                #[trigger] after[i],
                has_head(before[i]) && head_key(before[i]) == key,
            ),
        forall|i: int| 0 <= i < before.len() && has_head(#[trigger] before[i]) ==> lex_le(key, head_key(before[i])),
        exists|i: int| 0 <= i < before.len() && has_head(#[trigger] before[i]) && head_key(before[i]) == key,
    ensures
        scene(vs, after, lower, upper),
        ordered(vs, after, Some(key)),
        above(floor, key),
        in_range(lower, upper, key),
{
    let w = choose|i: int| 0 <= i < before.len() && has_head(#[trigger] before[i]) && head_key(before[i]) == key;
    assert(scene_seg(vs[w], before[w], lower, upper));
    let ew = before[w].map().all_entries();
    let cw = before[w].cursor() as int;
    assert(vs[w].terms[cw] == ew[cw].0);
    assert(above(floor, vs[w].terms[cw]));
    assert(in_range(lower, upper, ew[cw].0));
    assert forall|i: int| 0 <= i < vs.len() implies scene_seg(#[trigger] vs[i], after[i], lower, upper) by {
        assert(scene_seg(vs[i], before[i], lower, upper));
        assert(stepped(before[i], after[i], has_head(before[i]) && head_key(before[i]) == key));
    }
    assert forall|i: int, o: int| 0 <= i < after.len() && after[i].first() <= o < after[i].cursor() implies reached(
        Some(key),
        #[trigger] vs[i].terms[o],
    ) by {
        assert(scene_seg(vs[i], before[i], lower, upper));
        assert(stepped(before[i], after[i], has_head(before[i]) && head_key(before[i]) == key));
        let e = before[i].map().all_entries();
        if o < before[i].cursor() {
            assert(reached(floor, vs[i].terms[o]));
            if vs[i].terms[o] != floor->0 {
                lemma_lex_transitive(vs[i].terms[o], floor->0, key);
            }
        } else {
            assert(vs[i].terms[o] == e[o].0);
        }
    }
    assert forall|i: int, o: int| 0 <= i < after.len() && after[i].cursor() <= o < after[i].limit() implies lex_lt(
        key,
        #[trigger] vs[i].terms[o],
    ) by {
        assert(scene_seg(vs[i], before[i], lower, upper));
        assert(stepped(before[i], after[i], has_head(before[i]) && head_key(before[i]) == key));
        let e = before[i].map().all_entries();
        let c = before[i].cursor() as int;
        assert(vs[i].terms[o] == e[o].0);
        assert(has_head(before[i]));
        assert(lex_le(key, e[c].0));
        if o > c {
            assert(lex_lt(e[c].0, e[o].0));
            if key != e[c].0 {
                lemma_lex_transitive(key, e[c].0, e[o].0);
            }
        }
    }
}

/// Before a step of the merge onto `key`, a segment holds `key` only where
/// its stream stands.
pub proof fn lemma_key_at_cursor(
    vs: Seq<SegView>,
    before: Seq<TermStreamer<'_>>,
    lower: BoundView,
    upper: BoundView,
    floor: Option<Seq<u8>>,
    key: Seq<u8>,
)
    requires
        scene(vs, before, lower, upper),
        ordered(vs, before, floor),
        above(floor, key),
        in_range(lower, upper, key),
        forall|i: int| 0 <= i < before.len() && has_head(#[trigger] before[i]) ==> lex_le(key, head_key(before[i])),
    ensures
        forall|i: int, o: int|
            0 <= i < vs.len() && 0 <= o < vs[i].terms.len() && #[trigger] vs[i].terms[o] == key ==> cursors(before)[i]
                == o,
        forall|i: int, x: int, y: int|
            0 <= i < vs.len() && 0 <= x < y < vs[i].terms.len() ==> (#[trigger] vs[i].terms[x]) != (
            #[trigger] vs[i].terms[y]),
{
    assert forall|i: int, o: int|
        0 <= i < vs.len() && 0 <= o < vs[i].terms.len() && #[trigger] vs[i].terms[o] == key implies cursors(before)[i]
        == o by {
        assert(scene_seg(vs[i], before[i], lower, upper));
        let e = before[i].map().all_entries();
        let c = before[i].cursor() as int;
        assert(vs[i].terms[o] == e[o].0);
        assert(in_range(lower, upper, e[o].0));
        if o < c {
            assert(reached(floor, vs[i].terms[o]));
            lemma_lex_asymmetric(floor->0, key);
        } else if o > c {
            assert(has_head(before[i]));
            assert(lex_lt(e[c].0, e[o].0));
            assert(lex_le(key, e[c].0));
            lemma_lex_asymmetric(e[c].0, key);
        }
    }
    assert forall|i: int, x: int, y: int| 0 <= i < vs.len() && 0 <= x < y < vs[i].terms.len() implies (
    #[trigger] vs[i].terms[x]) != (#[trigger] vs[i].terms[y]) by {
        assert(scene_seg(vs[i], before[i], lower, upper));
        let e = before[i].map().all_entries();
        assert(vs[i].terms[x] == e[x].0);
        assert(vs[i].terms[y] == e[y].0);
        assert(lex_lt(e[x].0, e[y].0));
        lemma_lex_asymmetric(e[x].0, e[y].0);
    }
}

/// A facet within the bounds that every stream is past, or that comes
/// before everything that the streams still hold, has no hits.
pub proof fn lemma_passed_over(
    vs: Seq<SegView>,
    ss: Seq<TermStreamer<'_>>,
    lower: BoundView,
    upper: BoundView,
    floor: Option<Seq<u8>>,
    k: Seq<u8>,
)
    requires
        scene(vs, ss, lower, upper),
        ordered(vs, ss, floor),
        in_range(lower, upper, k),
        forall|i: int, o: int| 0 <= i < ss.len() && ss[i].first() <= o < ss[i].cursor() ==> #[trigger] vs[i].terms[o] != k,
        forall|i: int, o: int| 0 <= i < ss.len() && ss[i].cursor() <= o < ss[i].limit() ==> #[trigger] vs[i].terms[o] != k,
    ensures
        total_count(vs, k) == 0,
{
    let none = no_key();
    assert forall|i: int| 0 <= i < vs.len() implies sum_upto(#[trigger] vs[i], all_of(vs)[i], is_key(k)) == sum_upto(
        vs[i],
        0,
        none,
    ) by {
        assert(scene_seg(vs[i], ss[i], lower, upper));
        let e = ss[i].map().all_entries();
        assert forall|o: int| 0 <= o < vs[i].terms.len() implies #[trigger] vs[i].terms[o] != k by {
            assert(vs[i].terms[o] == e[o].0);
            if vs[i].terms[o] == k {
                assert(in_range(lower, upper, e[o].0));
            }
        }
        lemma_sum_absent(vs[i], vs[i].terms.len() as int, k);
    }
    lemma_total_same(vs, all_of(vs), none_of(vs.len()), vs.len() as int, is_key(k), none);
    lemma_total_none(vs, vs.len() as int);
}

/// Nothing is counted under no facet.
pub proof fn lemma_total_none(vs: Seq<SegView>, m: int)
    requires
        m <= vs.len(),
    ensures
        total_upto(vs, none_of(vs.len()), m, no_key()) == 0,
    decreases m,
{
    if m > 0 {
        lemma_total_none(vs, m - 1);
    }
}

/// Once every stream is exhausted, what the streams have passed is all there
/// is under the root.
pub proof fn lemma_all_consumed(
    vs: Seq<SegView>,
    ss: Seq<TermStreamer<'_>>,
    root: Seq<u8>,
    p: spec_fn(Seq<u8>) -> bool,
)
    requires
        scene(vs, ss, root_lower(root), root_upper(root)),
        forall|i: int| 0 <= i < ss.len() ==> !has_head(#[trigger] ss[i]),
    ensures
        total_upto(vs, cursors(ss), vs.len() as int, under_and(root, p)) == total_where(vs, under_and(root, p)),
{
    let q = under_and(root, p);
    assert forall|i: int| 0 <= i < vs.len() implies sum_upto(#[trigger] vs[i], cursors(ss)[i], q) == sum_upto(
        vs[i],
        all_of(vs)[i],
        q,
    ) by {
        assert(scene_seg(vs[i], ss[i], root_lower(root), root_upper(root)));
        assert(!has_head(ss[i]));
        let e = ss[i].map().all_entries();
        let c = ss[i].cursor() as int;
        assert forall|o: int| c <= o < vs[i].terms.len() implies !q(#[trigger] vs[i].terms[o]) by {
            assert(vs[i].terms[o] == e[o].0);
            if under_root(root, vs[i].terms[o]) {
                lemma_under_root_within(root, vs[i].terms[o]);
                assert(in_range(root_lower(root), root_upper(root), e[o].0));
            }
        }
        lemma_sum_skip(vs[i], c, vs[i].terms.len() as int, q);
    }
    lemma_total_same(vs, cursors(ss), all_of(vs), vs.len() as int, q, q);
}

/// Streams that have not moved have passed nothing.
pub proof fn lemma_nothing_consumed(
    vs: Seq<SegView>,
    ss: Seq<TermStreamer<'_>>,
    root: Seq<u8>,
    p: spec_fn(Seq<u8>) -> bool,
    m: int,
)
    requires
        scene(vs, ss, root_lower(root), root_upper(root)),
        0 <= m <= vs.len(),
        forall|i: int| 0 <= i < ss.len() ==> (#[trigger] ss[i]).cursor() == ss[i].first(),
    ensures
        total_upto(vs, cursors(ss), m, under_and(root, p)) == 0,
    decreases m,
{
    if m > 0 {
        lemma_nothing_consumed(vs, ss, root, p, m - 1);
        let i = m - 1;
        let q = under_and(root, p);
        assert(scene_seg(vs[i], ss[i], root_lower(root), root_upper(root)));
        assert(ss[i].cursor() == ss[i].first());
        let e = ss[i].map().all_entries();
        let c = ss[i].cursor() as int;
        assert forall|o: int| 0 <= o < c implies !q(#[trigger] vs[i].terms[o]) by {
            assert(vs[i].terms[o] == e[o].0);
            if under_root(root, vs[i].terms[o]) {
                lemma_under_root_within(root, vs[i].terms[o]);
                assert(in_range(root_lower(root), root_upper(root), e[o].0));
            }
        }
        lemma_sum_skip(vs[i], 0, c, q);
    }
}


/// How many entries the first `m` streams still hold.
pub open spec fn remaining(ss: Seq<TermStreamer<'_>>, m: int) -> int
    decreases m,
{
    if m <= 0 {
        0
    } else {
        remaining(ss, m - 1) + (ss[m - 1].limit() - ss[m - 1].cursor())
    }
}

/// A step of the merge leaves fewer entries in the streams.
pub proof fn lemma_remaining_shrinks(
    before: Seq<TermStreamer<'_>>,
    after: Seq<TermStreamer<'_>>,
    key: Seq<u8>,
    m: int,
)
    requires
        0 <= m <= before.len(),
        after.len() == before.len(),
        forall|i: int|
            0 <= i < before.len() ==> stepped(
                before[i],
                #[trigger] after[i],
                has_head(before[i]) && head_key(before[i]) == key,
            ),
    ensures
        remaining(after, m) <= remaining(before, m),
        (exists|i: int| 0 <= i < m && has_head(#[trigger] before[i]) && head_key(before[i]) == key) ==> remaining(
            after,
            m,
        ) < remaining(before, m),
    decreases m,
{
    if m > 0 {
        lemma_remaining_shrinks(before, after, key, m - 1);
        assert(stepped(before[m - 1], after[m - 1], has_head(before[m - 1]) && head_key(before[m - 1]) == key));
        if exists|i: int| 0 <= i < m && has_head(#[trigger] before[i]) && head_key(before[i]) == key {
            let i = choose|i: int| 0 <= i < m && has_head(#[trigger] before[i]) && head_key(before[i]) == key;
            if i < m - 1 {
                assert(has_head(before[i]) && head_key(before[i]) == key);
            }
        }
    }
}

/// Streams within their ranges hold no negative number of entries.
pub proof fn lemma_remaining_nonnegative(
    vs: Seq<SegView>,
    ss: Seq<TermStreamer<'_>>,
    lower: BoundView,
    upper: BoundView,
    m: int,
)
    requires
        scene(vs, ss, lower, upper),
        0 <= m <= ss.len(),
    ensures
        remaining(ss, m) >= 0,
    decreases m,
{
    if m > 0 {
        lemma_remaining_nonnegative(vs, ss, lower, upper, m - 1);
        assert(scene_seg(vs[m - 1], ss[m - 1], lower, upper));
    }
}


/// Streams that have not moved keep the scene and the order.
pub proof fn lemma_unmoved(
    vs: Seq<SegView>,
    before: Seq<TermStreamer<'_>>,
    after: Seq<TermStreamer<'_>>,
    lower: BoundView,
    upper: BoundView,
    floor: Option<Seq<u8>>,
)
    requires
        scene(vs, before, lower, upper),
        ordered(vs, before, floor),
        after.len() == before.len(),
        forall|i: int| 0 <= i < before.len() ==> stepped(before[i], #[trigger] after[i], false),
    ensures
        scene(vs, after, lower, upper),
        ordered(vs, after, floor),
        cursors(after) == cursors(before),
        forall|i: int| 0 <= i < before.len() ==> has_head(#[trigger] after[i]) == has_head(before[i]),
{
    assert forall|i: int| 0 <= i < vs.len() implies scene_seg(#[trigger] vs[i], after[i], lower, upper) by {
        assert(scene_seg(vs[i], before[i], lower, upper));
        assert(stepped(before[i], after[i], false));
    }
    assert forall|i: int, o: int| 0 <= i < after.len() && after[i].first() <= o < after[i].cursor() implies reached(
        floor,
        #[trigger] vs[i].terms[o],
    ) by {
        assert(stepped(before[i], after[i], false));
        assert(before[i].first() <= o < before[i].cursor());
    }
    assert forall|i: int, o: int| 0 <= i < after.len() && after[i].cursor() <= o < after[i].limit() implies above(
        floor,
        #[trigger] vs[i].terms[o],
    ) by {
        assert(stepped(before[i], after[i], false));
        assert(before[i].cursor() <= o < before[i].limit());
    }
    assert(cursors(after) =~= cursors(before)) by {
        assert forall|i: int| 0 <= i < before.len() implies cursors(after)[i] == cursors(before)[i] by {
            assert(stepped(before[i], after[i], false));
        }
    }
    assert forall|i: int| 0 <= i < before.len() implies has_head(#[trigger] after[i]) == has_head(before[i]) by {
        assert(stepped(before[i], after[i], false));
    }
}

} // verus!
