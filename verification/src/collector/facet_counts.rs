//! The views of harvested facet counts: every facet with its hits, and the
//! facets of one depth with the hits below them.

use vstd::prelude::*;
use vstd::slice::slice_to_vec;
use crate::collector::counts_spec::{
    SegView, all_of, any_key, holds_key, items_sum, items_view, lemma_items_push, lemma_total_bounded, total_count,
    total_where, under_and, under_root,
};
use crate::collector::facet_collector::{FacetCounts, facet_depth, facets_rise};
use crate::datastruct::lex::{
    key_lt, lemma_lex_asymmetric, lemma_lex_total, lemma_lex_transitive, lex_le, lex_lt,
};
use crate::schema::facet::{Facet, depth_of};

verus! {

/// The predicate that holds of the facets from `lo` on.
pub open spec fn from_key(lo: Seq<u8>) -> spec_fn(Seq<u8>) -> bool {
    |x: Seq<u8>| lex_le(lo, x)
}

/// The predicate that holds of the facets from `lo` up to, but without, `hi`.
pub open spec fn between(lo: Seq<u8>, hi: Seq<u8>) -> spec_fn(Seq<u8>) -> bool {
    |x: Seq<u8>| lex_le(lo, x) && lex_lt(x, hi)
}

/// The facets of item `j` and the items after it, up to the next item.
pub open spec fn bucket_of(items: Seq<(Seq<u8>, u64)>, j: int) -> spec_fn(Seq<u8>) -> bool {
    if j + 1 < items.len() {
        between(items[j].0, items[j + 1].0)
    } else {
        from_key(items[j].0)
    }
}

/// The depth of a facet as the machine counts it: capped at the largest
/// `usize`.
pub open spec fn capped_depth(encoded: Seq<u8>) -> nat {
    if depth_of(encoded) <= usize::MAX {
        depth_of(encoded)
    } else {
        usize::MAX as nat
    }
}

/// The depth `depth` levels below `root`, as the machine counts it.
pub open spec fn target_depth(root: Seq<u8>, depth: usize) -> nat {
    if capped_depth(root) + depth <= usize::MAX {
        (capped_depth(root) + depth) as nat
    } else {
        usize::MAX as nat
    }
}

/// `k` is a facet of the depth asked for that some segment holds under the
/// root: the head of a bucket.
pub open spec fn bucket_head(vs: Seq<SegView>, root: Seq<u8>, target: nat, k: Seq<u8>) -> bool {
    holds_key(vs, k) && under_root(root, k) && capped_depth(k) == target
}

/// No bucket starts after `f` and at or before `x`.
pub open spec fn same_bucket(vs: Seq<SegView>, root: Seq<u8>, target: nat, f: Seq<u8>, x: Seq<u8>) -> bool {
    forall|g: Seq<u8>| #[trigger] bucket_head(vs, root, target, g) ==> !(lex_lt(f, g) && lex_le(g, x))
}

/// `k` is the facet of none of the items.
pub open spec fn left_out(items: Seq<(Seq<u8>, u64)>, k: Seq<u8>) -> bool {
    forall|j: int| 0 <= j < items.len() ==> (#[trigger] items[j]).0 != k
}

/// A stretch of items without hits holds no item with hits.
pub proof fn lemma_range_zero(items: Seq<(Seq<u8>, u64)>, a: int, b: int, z: int)
    requires
        0 <= a <= z < b <= items.len(),
        range_sum(items, a, b) == 0,
    ensures
        items[z].1 == 0,
    decreases b - a,
{
    if z < b - 1 {
        lemma_range_zero(items, a, b - 1, z);
    }
}

/// The hits of the items of `items` from index `a` up to `b`.
pub open spec fn range_sum(items: Seq<(Seq<u8>, u64)>, a: int, b: int) -> nat
    decreases b - a,
{
    if b <= a {
        0
    } else {
        range_sum(items, a, b - 1) + items[b - 1].1 as nat
    }
}

/// Where a predicate holds exactly of the items from `a` up to `b`, the hits
/// under it are the hits of those items.
pub proof fn lemma_sum_is_range(items: Seq<(Seq<u8>, u64)>, n: int, a: int, b: int, p: spec_fn(Seq<u8>) -> bool)
    requires
        0 <= a <= b <= items.len(),
        0 <= n <= items.len(),
        forall|m: int| 0 <= m < n ==> (p(#[trigger] items[m].0) <==> a <= m < b),
    ensures
        items_sum(items.take(n), p) == range_sum(
            items,
            a,
            if n < a {
                a
            } else if n < b {
                n
            } else {
                b
            },
        ),
    decreases n,
{
    if n > 0 {
        assert(items.take(n).drop_last() == items.take(n - 1));
        assert(items.take(n).last() == items[n - 1]);
        lemma_sum_is_range(items, n - 1, a, b, p);
        assert(p(items[n - 1].0) <==> a <= n - 1 < b);
    } else {
        assert(items.take(0).len() == 0);
    }
}

/// The hits of a stretch of items are no more than the hits of all.
pub proof fn lemma_range_bounded(items: Seq<(Seq<u8>, u64)>, a: int, b: int)
    requires
        0 <= a <= b <= items.len(),
    ensures
        range_sum(items, a, b) <= items_sum(items, any_key()),
{
    let p = |x: Seq<u8>| true;
    lemma_sum_is_range(items, items.len() as int, 0, items.len() as int, any_key());
    assert(items.take(items.len() as int) == items);
    lemma_range_split(items, 0, a, items.len() as int);
    lemma_range_split(items, a, b, items.len() as int);
}

/// The hits of two stretches that meet add up.
pub proof fn lemma_range_split(items: Seq<(Seq<u8>, u64)>, a: int, b: int, c: int)
    requires
        a <= b <= c,
    ensures
        range_sum(items, a, c) == range_sum(items, a, b) + range_sum(items, b, c),
    decreases c - b,
{
    if b < c {
        lemma_range_split(items, a, b, c - 1);
    }
}

/// In rising items, the facets from item `a` up to item `b` are those of the
/// items in between.
pub proof fn lemma_between_is_range(items: Seq<(Seq<u8>, u64)>, a: int, b: int)
    requires
        facets_rise(items),
        0 <= a <= b <= items.len(),
    ensures
        b < items.len() ==> items_sum(items, between(items[a].0, items[b].0)) == range_sum(items, a, b),
        b == items.len() && a < items.len() ==> items_sum(items, from_key(items[a].0)) == range_sum(items, a, b),
{
    assert(items.take(items.len() as int) == items);
    if b < items.len() {
        let p = between(items[a].0, items[b].0);
        assert forall|m: int| 0 <= m < items.len() implies (p(#[trigger] items[m].0) <==> a <= m < b) by {
            if m < a {
                assert(lex_lt(items[m].0, items[a].0));
                lemma_lex_asymmetric(items[m].0, items[a].0);
            } else if m > a {
                assert(lex_lt(items[a].0, items[m].0));
            }
            if m < b {
                assert(lex_lt(items[m].0, items[b].0));
            } else if m > b {
                assert(lex_lt(items[b].0, items[m].0));
                lemma_lex_asymmetric(items[b].0, items[m].0);
            } else {
                crate::datastruct::lex::lemma_lex_irreflexive(items[b].0);
            }
        }
        lemma_sum_is_range(items, items.len() as int, a, b, p);
    } else if a < items.len() {
        let p = from_key(items[a].0);
        assert forall|m: int| 0 <= m < items.len() implies (p(#[trigger] items[m].0) <==> a <= m < b) by {
            if m < a {
                assert(lex_lt(items[m].0, items[a].0));
                lemma_lex_asymmetric(items[m].0, items[a].0);
            } else if m > a {
                assert(lex_lt(items[a].0, items[m].0));
            }
        }
        lemma_sum_is_range(items, items.len() as int, a, b, p);
    }
}

/// Facets in order, each with its hits, read one after the other.
pub struct FacetIterator {
    items: Vec<(Vec<u8>, u64)>,
    pos: usize,
}

impl FacetIterator {
    /// Every item of the iteration, read or not.
    pub closed spec fn items(&self) -> Seq<(Seq<u8>, u64)> {
        items_view(self.items@)
    }

    /// How many items have been read.
    pub closed spec fn position(&self) -> nat {
        self.pos as nat
    }

    /// The next facet with its hits, or `None` once all have been read.
    pub fn next(&mut self) -> (res: Option<(Facet, u64)>)
        ensures
            final(self).items() == old(self).items(),
            match res {
                Some((facet, count)) => old(self).position() < old(self).items().len() && final(self).position() == old(self).position() + 1 && (facet@, count) == old(self).items()[old(self).position() as int],
                None => old(self).position() >= old(self).items().len() && final(self).position() == old(self).position(),
            },
    {
        if self.pos < self.items.len() {
            let facet = Facet::from_encoded(slice_to_vec(self.items[self.pos].0.as_slice()));
            let count = self.items[self.pos].1;
            self.pos = self.pos + 1;
            Some((facet, count))
        } else {
            None
        }
    }
}

/// The facets of one depth in order, each with the hits of the facets from
/// it up to the next, read one after the other.
pub struct FacetIteratorWithDepth {
    inner: FacetIterator,
}

impl FacetIteratorWithDepth {
    /// Every item of the iteration, read or not.
    pub closed spec fn items(&self) -> Seq<(Seq<u8>, u64)> {
        self.inner.items()
    }

    /// How many items have been read.
    pub closed spec fn position(&self) -> nat {
        self.inner.position()
    }

    /// The next facet with its hits, or `None` once all have been read.
    pub fn next(&mut self) -> (res: Option<(Facet, u64)>)
        ensures
            final(self).items() == old(self).items(),
            match res {
                Some((facet, count)) => old(self).position() < old(self).items().len() && final(self).position() == old(self).position() + 1 && (facet@, count) == old(self).items()[old(self).position() as int],
                None => old(self).position() >= old(self).items().len() && final(self).position() == old(self).position(),
            },
    {
        self.inner.next()
    }
}

impl FacetCounts {
    /// The facets under the root with at least one hit, in the order of their
    /// encodings, which lists a facet before the facets below it. A doc
    /// counts under the facets it holds, not under their ancestors.
    pub fn iter(&self) -> (it: FacetIterator)
        requires
            self.wf(),
        ensures
            it.position() == 0,
            facets_rise(it.items()),
            forall|j: int|
                0 <= j < it.items().len() ==> under_root(self.root_spec(), (#[trigger] it.items()[j]).0) && it.items()[j].1
                    == total_count(self.views(), it.items()[j].0) && it.items()[j].1 > 0,
            forall|k: Seq<u8>|
                under_root(self.root_spec(), k) && #[trigger] total_count(self.views(), k) > 0 ==> exists|j: int|
                    0 <= j < it.items().len() && (#[trigger] it.items()[j]).0 == k,
            forall|p: spec_fn(Seq<u8>) -> bool| #[trigger]
                items_sum(it.items(), p) == total_where(self.views(), under_and(self.root_spec(), p)),
    {
        let mut all = self.merged();
        let ghost m = items_view(all@);
        let mut items: Vec<(Vec<u8>, u64)> = Vec::new();
        let ghost mut picked_at: Seq<int> = Seq::empty();
        let mut i: usize = 0;
        proof {
            assert(m.take(0).len() == 0);
        }
        while i < all.len()
            invariant
                i <= all@.len(),
                m == items_view(all@),
                facets_rise(m),
                picked_at.len() == items@.len(),
                forall|j: int| 0 <= j < items@.len() ==> 0 <= #[trigger] picked_at[j] < i,
                forall|a: int, b: int| 0 <= a < b < items@.len() ==> picked_at[a] < picked_at[b],
                forall|j: int|
                    0 <= j < items@.len() ==> #[trigger] items_view(items@)[j] == m[picked_at[j]] && m[picked_at[j]].1
                        > 0,
                forall|x: int| 0 <= x < i && (#[trigger] m[x]).1 > 0 ==> exists|j: int|
                    0 <= j < items@.len() && #[trigger] picked_at[j] == x,
                forall|p: spec_fn(Seq<u8>) -> bool| #[trigger]
                    items_sum(items_view(items@), p) == items_sum(m.take(i as int), p),
            decreases all@.len() - i,
        {
            let count = all[i].1;
            let ghost held = items_view(items@);
            let ghost held_at = picked_at;
            proof {
                assert(m[i as int] == (all@[i as int].0@, all@[i as int].1));
                assert(m.take(i + 1).drop_last() == m.take(i as int));
                assert(m.take(i + 1).last() == m[i as int]);
            }
            if count > 0 {
                items.push((slice_to_vec(all[i].0.as_slice()), count));
                proof {
                    picked_at = picked_at.push(i as int);
                    let now = items_view(items@);
                    assert(now =~= held.push(m[i as int]));
                    assert forall|p: spec_fn(Seq<u8>) -> bool| #[trigger]
                        items_sum(now, p) == items_sum(m.take(i + 1), p) by {
                        lemma_items_push(held, m[i as int].0, m[i as int].1, p);
                        assert(items_sum(held, p) == items_sum(m.take(i as int), p));
                    }
                    assert forall|x: int| 0 <= x < i + 1 && (#[trigger] m[x]).1 > 0 implies exists|j: int|
                        0 <= j < items@.len() && #[trigger] picked_at[j] == x by {
                        if x < i {
                            let j = choose|j: int| 0 <= j < held_at.len() && #[trigger] held_at[j] == x;
                            assert(picked_at[j] == x);
                        } else {
                            assert(picked_at[held_at.len() as int] == x);
                        }
                    }
                }
            } else {
                proof {
                    assert forall|p: spec_fn(Seq<u8>) -> bool| #[trigger]
                        items_sum(held, p) == items_sum(m.take(i + 1), p) by {
                        assert(items_sum(held, p) == items_sum(m.take(i as int), p));
                    }
                }
            }
            i = i + 1;
        }
        proof {
            let now = items_view(items@);
            assert(m.take(i as int) == m);
            assert forall|a: int, b: int| 0 <= a < b < now.len() implies lex_lt(
                #[trigger] now[a].0,
                #[trigger] now[b].0,
            ) by {
                assert(now[a] == m[picked_at[a]]);
                assert(now[b] == m[picked_at[b]]);
                assert(lex_lt(m[picked_at[a]].0, m[picked_at[b]].0));
            }
            assert forall|j: int| 0 <= j < now.len() implies under_root(self.root_spec(), (#[trigger] now[j]).0)
                && now[j].1 == total_count(self.views(), now[j].0) && now[j].1 > 0 by {
                assert(now[j] == m[picked_at[j]]);
            }
            assert forall|k: Seq<u8>|
                under_root(self.root_spec(), k) && #[trigger] total_count(self.views(), k) > 0 implies exists|j: int|
                0 <= j < now.len() && (#[trigger] now[j]).0 == k by {
                if forall|x: int| 0 <= x < m.len() ==> (#[trigger] m[x]).0 != k {
                    assert(total_count(self.views(), k) == 0);
                }
                let x = choose|x: int| 0 <= x < m.len() && (#[trigger] m[x]).0 == k;
                assert(m[x].1 == total_count(self.views(), m[x].0));
                let j = choose|j: int| 0 <= j < items@.len() && #[trigger] picked_at[j] == x;
                assert(now[j] == m[picked_at[j]]);
            }
        }
        FacetIterator { items, pos: 0 }
    }

    /// The facets `depth` levels below the root, each with the hits of the
    /// facets from it up to the next facet of that depth: its own and those
    /// of the facets that lie below it. A facet whose hits are zero is left
    /// out unless it is the last one.
    pub fn with_depth(&self, depth: usize) -> (it: FacetIteratorWithDepth)
        requires
            self.wf(),
        ensures
            it.position() == 0,
            facets_rise(it.items()),
            forall|j: int|
                0 <= j < it.items().len() ==> under_root(self.root_spec(), (#[trigger] it.items()[j]).0)
                    && capped_depth(it.items()[j].0) == target_depth(self.root_spec(), depth),
            forall|j: int|
                0 <= j < it.items().len() ==> (#[trigger] it.items()[j]).1 == total_where(
                    self.views(),
                    under_and(self.root_spec(), bucket_of(it.items(), j)),
                ),
            forall|j: int| 0 <= j < it.items().len() ==> holds_key(self.views(), (#[trigger] it.items()[j]).0),
            forall|j: int| 0 <= j < it.items().len() - 1 ==> (#[trigger] it.items()[j]).1 > 0,
            forall|f: Seq<u8>| #[trigger]
                bucket_head(self.views(), self.root_spec(), target_depth(self.root_spec(), depth), f)
                    ==> it.items().len() > 0 && lex_le(f, it.items().last().0),
            forall|f: Seq<u8>, x: Seq<u8>|
                bucket_head(self.views(), self.root_spec(), target_depth(self.root_spec(), depth), f) && left_out(
                    it.items(),
                    f,
                ) && under_root(self.root_spec(), x) && lex_le(f, x) && #[trigger] same_bucket(
                    self.views(),
                    self.root_spec(),
                    target_depth(self.root_spec(), depth),
                    f,
                    x,
                ) ==> total_count(self.views(), x) == 0,
    {
        let target = facet_depth(self.root_bytes()).saturating_add(depth);
        let all = self.merged();
        let ghost m = items_view(all@);
        let ghost vs = self.views();
        let ghost root = self.root_spec();
        let mut items: Vec<(Vec<u8>, u64)> = Vec::new();
        let ghost mut picked_at: Seq<int> = Seq::empty();
        let mut current: Option<usize> = None;
        let mut acc: u64 = 0;
        let mut i: usize = 0;
        proof {
            self.lemma_wf();
            lemma_total_bounded(vs, all_of(vs), vs.len() as int, under_and(root, any_key()));
            assert(items_sum(m, any_key()) == total_where(vs, under_and(root, any_key())));
        }
        while i < all.len()
            invariant
                i <= all@.len(),
                m == items_view(all@),
                facets_rise(m),
                items_sum(m, any_key()) <= u64::MAX,
                picked_at.len() == items@.len(),
                forall|j: int| 0 <= j < items@.len() ==> 0 <= #[trigger] picked_at[j] < i,
                forall|a: int, b: int| 0 <= a < b < items@.len() ==> picked_at[a] < picked_at[b],
                forall|j: int|
                    0 <= j < items@.len() ==> (#[trigger] items_view(items@)[j]).0 == m[picked_at[j]].0 && capped_depth(
                        m[picked_at[j]].0,
                    ) == target,
                forall|j: int|
                    0 <= j < items@.len() - 1 ==> (#[trigger] items_view(items@)[j]).1 == range_sum(
                        m,
                        picked_at[j],
                        picked_at[j + 1],
                    ),
                match current {
                    Some(c) => c < i && capped_depth(m[c as int].0) == target && acc == range_sum(m, c as int, i as int)
                        && (items@.len() > 0 ==> picked_at.last() < c && items_view(items@).last().1 == range_sum(
                        m,
                        picked_at.last(),
                        c as int,
                    )),
                    None => items@.len() == 0 && acc == range_sum(m, 0, i as int),
                },
                forall|j: int| 0 <= j < items@.len() ==> (#[trigger] items_view(items@)[j]).1 > 0,
                forall|y: int|
                    0 <= y < i && capped_depth((#[trigger] m[y]).0) == target ==> current is Some && y <= current->0,
                forall|y: int, z: int|
                    0 <= y <= z < i && capped_depth(m[y].0) == target && (#[trigger] m[z]).1 > 0 && (forall|w: int|
                        y < w <= z ==> capped_depth((#[trigger] m[w]).0) != target) ==> y == current->0
                        || #[trigger] picked_at.contains(y),
            decreases all@.len() - i,
        {
            let count = all[i].1;
            let ghost held = items_view(items@);
            let ghost was_current = current;
            let ghost was_at = picked_at;
            proof {
                assert(m[i as int] == (all@[i as int].0@, all@[i as int].1));
                lemma_range_bounded(m, 0, i + 1);
                if current is Some {
                    lemma_range_bounded(m, current->0 as int, i + 1);
                }
            }
            if facet_depth(all[i].0.as_slice()) == target {
                match current {
                    Some(c) => {
                        if acc != 0 {
                            items.push((slice_to_vec(all[c].0.as_slice()), acc));
                            proof {
                                assert(m[c as int] == (all@[c as int].0@, all@[c as int].1));
                                picked_at = picked_at.push(c as int);
                                let now = items_view(items@);
                                assert forall|j: int| 0 <= j < now.len() implies (#[trigger] now[j]).0 == m[picked_at[j]].0
                                    && capped_depth(m[picked_at[j]].0) == target by {
                                    if j < held.len() {
                                        assert(now[j] == held[j]);
                                    }
                                }
                                assert forall|j: int| 0 <= j < now.len() - 1 implies (#[trigger] now[j]).1
                                    == range_sum(m, picked_at[j], picked_at[j + 1]) by {
                                    assert(now[j] == held[j]);
                                    if j < held.len() - 1 {
                                        assert(held[j].1 == range_sum(m, picked_at[j], picked_at[j + 1]));
                                    }
                                }
                                assert forall|j: int| 0 <= j < now.len() implies (#[trigger] now[j]).1 > 0 by {
                                    if j < held.len() {
                                        assert(now[j] == held[j]);
                                    }
                                }
                                assert(picked_at[was_at.len() as int] == c);
                                assert(picked_at.contains(c as int));
                            }
                        } else {
                            proof {
                                // an empty bucket adds nothing to the one before
                                if items@.len() > 0 {
                                    lemma_range_split(m, picked_at.last(), c as int, i as int);
                                }
                            }
                        }
                    },
                    None => {},
                }
                proof {
                    if items@.len() > 0 && current is Some {
                        let c = current->0 as int;
                        if acc != 0 {
                        } else {
                            assert(items_view(items@).last().1 == range_sum(m, picked_at.last(), i as int));
                        }
                    }
                }
                current = Some(i);
                acc = count;
                proof {
                    assert(range_sum(m, i as int, i + 1) == count) by {
                        assert(range_sum(m, i as int, i as int) == 0);
                    }
                }
            } else {
                acc = acc + count;
            }
            proof {
                let now_at = picked_at;
                assert forall|y: int, z: int|
                    0 <= y <= z < i + 1 && capped_depth(m[y].0) == target && (#[trigger] m[z]).1 > 0 && (forall|w: int|
                        y < w <= z ==> capped_depth((#[trigger] m[w]).0) != target) implies y == current->0
                    || #[trigger] now_at.contains(y) by {
                    if z < i {
                        // the bucket of `y` was settled before this step
                        if y == was_current->0 && was_current is Some && !(y == current->0) {
                            if !now_at.contains(y) {
                                // dropped for want of hits
                                lemma_range_zero(m, y, i as int, z);
                            }
                        } else if was_at.contains(y) {
                            let j = choose|j: int| 0 <= j < was_at.len() && was_at[j] == y;
                            assert(now_at[j] == y);
                        }
                    } else if capped_depth(m[i as int].0) == target {
                        if y < i {
                            assert(capped_depth(m[i as int].0) != target);
                        }
                    }
                }
            }
            i = i + 1;
        }
        let ghost before_last = items_view(items@);
        let ghost before_at = picked_at;
        match current {
            Some(c) => {
                items.push((slice_to_vec(all[c].0.as_slice()), acc));
                proof {
                    assert(m[c as int] == (all@[c as int].0@, all@[c as int].1));
                    picked_at = picked_at.push(c as int);
                    let now = items_view(items@);
                    assert(now =~= before_last.push((m[c as int].0, acc)));
                    assert forall|j: int| 0 <= j < now.len() implies (#[trigger] now[j]).0 == m[picked_at[j]].0
                        && capped_depth(m[picked_at[j]].0) == target by {
                        if j < before_last.len() {
                            assert(now[j] == before_last[j]);
                            assert(picked_at[j] == before_at[j]);
                        }
                    }
                    assert forall|j: int| 0 <= j < now.len() - 1 implies (#[trigger] now[j]).1 == range_sum(
                        m,
                        picked_at[j],
                        picked_at[j + 1],
                    ) by {
                        assert(now[j] == before_last[j]);
                        assert(picked_at[j] == before_at[j]);
                        if j < before_last.len() - 1 {
                            assert(picked_at[j + 1] == before_at[j + 1]);
                            assert(before_last[j].1 == range_sum(m, before_at[j], before_at[j + 1]));
                        } else {
                            assert(before_last.last() == before_last[j]);
                            assert(before_at.last() == before_at[j]);
                        }
                    }
                    assert(now[now.len() - 1].1 == range_sum(m, picked_at[now.len() - 1], m.len() as int));
                }
            },
            None => {},
        }
        proof {
            let now = items_view(items@);
            let n = m.len() as int;
            assert forall|a: int, b: int| 0 <= a < b < now.len() implies lex_lt(
                #[trigger] now[a].0,
                #[trigger] now[b].0,
            ) by {
                assert(now[a].0 == m[picked_at[a]].0);
                assert(now[b].0 == m[picked_at[b]].0);
                assert(lex_lt(m[picked_at[a]].0, m[picked_at[b]].0));
            }
            assert forall|j: int| 0 <= j < now.len() implies (#[trigger] now[j]).1 == total_where(
                vs,
                under_and(root, bucket_of(now, j)),
            ) by {
                assert(now[j].0 == m[picked_at[j]].0);
                if j + 1 < now.len() {
                    assert(now[j + 1].0 == m[picked_at[j + 1]].0);
                    assert(now[j].1 == range_sum(m, picked_at[j], picked_at[j + 1]));
                    lemma_between_is_range(m, picked_at[j], picked_at[j + 1]);
                    assert(bucket_of(now, j) == between(m[picked_at[j]].0, m[picked_at[j + 1]].0));
                    assert(items_sum(m, bucket_of(now, j)) == total_where(vs, under_and(root, bucket_of(now, j))));
                } else {
                    assert(now[j].1 == range_sum(m, picked_at[j], n));
                    lemma_between_is_range(m, picked_at[j], n);
                    assert(bucket_of(now, j) == from_key(m[picked_at[j]].0));
                    assert(items_sum(m, bucket_of(now, j)) == total_where(vs, under_and(root, bucket_of(now, j))));
                }
            }
            assert forall|j: int| 0 <= j < now.len() implies under_root(root, (#[trigger] now[j]).0) by {
                assert(now[j].0 == m[picked_at[j]].0);
            }
            assert forall|j: int| 0 <= j < now.len() implies holds_key(vs, (#[trigger] now[j]).0) by {
                assert(now[j].0 == m[picked_at[j]].0);
                assert(holds_key(vs, m[picked_at[j]].0));
            }
            assert forall|j: int| 0 <= j < now.len() - 1 implies (#[trigger] now[j]).1 > 0 by {
                assert(now[j] == before_last[j]);
            }
            assert(target == target_depth(root, depth));
            assert forall|f: Seq<u8>| #[trigger] bucket_head(vs, root, target as nat, f) implies now.len() > 0
                && lex_le(f, now.last().0) by {
                let y = choose|y: int| 0 <= y < m.len() && (#[trigger] m[y]).0 == f;
                assert(current is Some && y <= current->0);
                let c = current->0 as int;
                assert(now.last().0 == m[c].0);
                if y < c {
                    assert(lex_lt(m[y].0, m[c].0));
                }
            }
            assert forall|f: Seq<u8>, x: Seq<u8>|
                bucket_head(vs, root, target as nat, f) && left_out(now, f) && under_root(root, x) && lex_le(f, x)
                    && #[trigger] same_bucket(vs, root, target as nat, f, x) implies total_count(vs, x) == 0 by {
                if total_count(vs, x) > 0 {
                    let y = choose|y: int| 0 <= y < m.len() && (#[trigger] m[y]).0 == f;
                    if forall|z: int| 0 <= z < m.len() ==> (#[trigger] m[z]).0 != x {
                        assert(total_count(vs, x) == 0);
                    }
                    let z = choose|z: int| 0 <= z < m.len() && (#[trigger] m[z]).0 == x;
                    assert(m[z].1 == total_count(vs, m[z].0));
                    if z < y {
                        assert(lex_lt(m[z].0, m[y].0));
                        lemma_lex_asymmetric(x, f);
                    }
                    assert forall|w: int| y < w <= z implies capped_depth((#[trigger] m[w]).0) != target by {
                        if capped_depth(m[w].0) == target {
                            assert(holds_key(vs, m[w].0));
                            assert(under_root(root, m[w].0));
                            assert(bucket_head(vs, root, target as nat, m[w].0));
                            assert(lex_lt(m[y].0, m[w].0));
                            if w < z {
                                assert(lex_lt(m[w].0, m[z].0));
                            }
                        }
                    }
                    assert(m[z].1 > 0);
                    assert(y == current->0 || before_at.contains(y));
                    if y == current->0 {
                        let j = picked_at.len() - 1;
                        assert(picked_at[j] == y);
                        assert(now[j].0 == m[picked_at[j]].0);
                    } else {
                        let j = choose|j: int| 0 <= j < before_at.len() && before_at[j] == y;
                        assert(picked_at[j] == y);
                        assert(now[j].0 == m[picked_at[j]].0);
                    }
                }
            }
        }
        FacetIteratorWithDepth { inner: FacetIterator { items, pos: 0 } }
    }
}

/// The hits that the facets of one depth gather are the hits of the facets
/// with hits that lie from each of them up to the next: a facet of the depth
/// asked for stands for itself and for the facets passed over until the next
/// one.
pub proof fn lemma_depth_gathers_hits(counts: FacetCounts, every: FacetIterator, gathered: FacetIteratorWithDepth, j: int)
    requires
        forall|p: spec_fn(Seq<u8>) -> bool| #[trigger]
            items_sum(every.items(), p) == total_where(counts.views(), under_and(counts.root_spec(), p)),
        0 <= j < gathered.items().len(),
        gathered.items()[j].1 == total_where(
            counts.views(),
            under_and(counts.root_spec(), bucket_of(gathered.items(), j)),
        ),
    ensures
        gathered.items()[j].1 == items_sum(every.items(), bucket_of(gathered.items(), j)),
{
    assert(items_sum(every.items(), bucket_of(gathered.items(), j)) == total_where(
        counts.views(),
        under_and(counts.root_spec(), bucket_of(gathered.items(), j)),
    ));
}

/// The predicate that holds of `f` and of the facets below it.
pub open spec fn at_or_below(f: Seq<u8>) -> spec_fn(Seq<u8>) -> bool {
    |x: Seq<u8>| under_root(f, x)
}

/// Predicates that agree on the facets of the items pick the same hits.
pub proof fn lemma_items_agree(items: Seq<(Seq<u8>, u64)>, p: spec_fn(Seq<u8>) -> bool, q: spec_fn(Seq<u8>) -> bool)
    requires
        forall|i: int| 0 <= i < items.len() ==> p(#[trigger] items[i].0) == q(items[i].0),
    ensures
        items_sum(items, p) == items_sum(items, q),
    decreases items.len(),
{
    if items.len() > 0 {
        assert forall|i: int| 0 <= i < items.drop_last().len() implies p(#[trigger] items.drop_last()[i].0) == q(
            items.drop_last()[i].0,
        ) by {
            assert(items.drop_last()[i] == items[i]);
        }
        lemma_items_agree(items.drop_last(), p, q);
        assert(items.last() == items[items.len() - 1]);
    }
}

/// A facet of the depth asked for gathers its own hits and the hits of
/// every facet below it, and no others, wherever the facets with hits that
/// lie from it up to the next facet of that depth are the facet itself and
/// the facets below it. That is so unless a facet with hits of a lesser depth
/// stands in between, or the name of a step holds a byte below the
/// separator.
pub proof fn lemma_depth_sums_descendants(
    counts: FacetCounts,
    every: FacetIterator,
    gathered: FacetIteratorWithDepth,
    j: int,
)
    requires
        forall|p: spec_fn(Seq<u8>) -> bool| #[trigger]
            items_sum(every.items(), p) == total_where(counts.views(), under_and(counts.root_spec(), p)),
        0 <= j < gathered.items().len(),
        gathered.items()[j].1 == total_where(
            counts.views(),
            under_and(counts.root_spec(), bucket_of(gathered.items(), j)),
        ),
        forall|i: int|
            0 <= i < every.items().len() ==> (bucket_of(gathered.items(), j)(#[trigger] every.items()[i].0)
                <==> under_root(gathered.items()[j].0, every.items()[i].0)),
    ensures
        gathered.items()[j].1 == items_sum(every.items(), at_or_below(gathered.items()[j].0)),
{
    lemma_depth_gathers_hits(counts, every, gathered, j);
    lemma_items_agree(every.items(), bucket_of(gathered.items(), j), at_or_below(gathered.items()[j].0));
}

/// The hits of all the facets that an iteration lists are the hits counted
/// under the root and below it.
pub proof fn lemma_hits_add_up(counts: FacetCounts, every: FacetIterator)
    requires
        forall|p: spec_fn(Seq<u8>) -> bool| #[trigger]
            items_sum(every.items(), p) == total_where(counts.views(), under_and(counts.root_spec(), p)),
    ensures
        items_sum(every.items(), any_key()) == total_where(
            counts.views(),
            under_and(counts.root_spec(), any_key()),
        ),
{
}

} // verus!
