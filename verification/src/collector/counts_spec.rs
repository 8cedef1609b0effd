//! What facet counts mean: sums, over the facets of every segment, of the
//! hits counted under them.

use vstd::prelude::*;
use crate::schema::facet::FACET_SEP_BYTE;

verus! {

/// The facets of one segment in ordinal order, and the hits counted under
/// each.
pub ghost struct SegView {
    /// The encoded facets, by ordinal.
    pub terms: Seq<Seq<u8>>,
    /// The number of hits, by ordinal.
    pub counts: Seq<u64>,
}

/// `k` is `root` or lies below it. Everything lies below the root facet.
pub open spec fn under_root(root: Seq<u8>, k: Seq<u8>) -> bool {
    root.len() == 0 || k == root || (k.len() > root.len() && k.take(root.len() as int) == root && k[root.len() as int]
        == FACET_SEP_BYTE)
}

/// Some segment holds the facet `k`.
pub open spec fn holds_key(vs: Seq<SegView>, k: Seq<u8>) -> bool {
    exists|i: int, o: int| 0 <= i < vs.len() && 0 <= o < vs[i].terms.len() && #[trigger] vs[i].terms[o] == k
}

/// The predicate that holds of the facets under `root` that satisfy `p`.
pub open spec fn under_and(root: Seq<u8>, p: spec_fn(Seq<u8>) -> bool) -> spec_fn(Seq<u8>) -> bool {
    |x: Seq<u8>| under_root(root, x) && p(x)
}

/// The predicate that holds of `k` alone.
pub open spec fn is_key(k: Seq<u8>) -> spec_fn(Seq<u8>) -> bool {
    |x: Seq<u8>| x == k
}

/// The predicate that holds of no facet.
pub open spec fn no_key() -> spec_fn(Seq<u8>) -> bool {
    |x: Seq<u8>| false
}

/// No facet of any of `n` segments.
pub open spec fn none_of(n: nat) -> Seq<int> {
    Seq::new(n, |i: int| 0int)
}

/// The predicate that holds of every facet.
pub open spec fn any_key() -> spec_fn(Seq<u8>) -> bool {
    |x: Seq<u8>| true
}

/// The hits counted in a segment under its first `n` facets that satisfy
/// `p`.
pub open spec fn sum_upto(v: SegView, n: int, p: spec_fn(Seq<u8>) -> bool) -> nat
    decreases n,
{
    if n <= 0 {
        0
    } else {
        sum_upto(v, n - 1, p) + if p(v.terms[n - 1]) {
            v.counts[n - 1] as nat
        } else {
            0nat
        }
    }
}

/// The hits counted in the first `m` segments, in segment `i` under its
/// first `upto[i]` facets, that satisfy `p`.
pub open spec fn total_upto(vs: Seq<SegView>, upto: Seq<int>, m: int, p: spec_fn(Seq<u8>) -> bool) -> nat
    decreases m,
{
    if m <= 0 {
        0
    } else {
        total_upto(vs, upto, m - 1, p) + sum_upto(vs[m - 1], upto[m - 1], p)
    }
}

/// The number of facets of each segment.
pub open spec fn all_of(vs: Seq<SegView>) -> Seq<int> {
    Seq::new(vs.len(), |i: int| vs[i].terms.len() as int)
}

/// The hits counted in all segments under the facets that satisfy `p`.
pub open spec fn total_where(vs: Seq<SegView>, p: spec_fn(Seq<u8>) -> bool) -> nat {
    total_upto(vs, all_of(vs), vs.len() as int, p)
}

/// The hits counted in all segments under the facet `k`.
pub open spec fn total_count(vs: Seq<SegView>, k: Seq<u8>) -> nat {
    total_where(vs, is_key(k))
}

/// The hits of the items whose facet satisfies `p`.
pub open spec fn items_sum(items: Seq<(Seq<u8>, u64)>, p: spec_fn(Seq<u8>) -> bool) -> nat
    decreases items.len(),
{
    if items.len() == 0 {
        0
    } else {
        items_sum(items.drop_last(), p) + if p(items.last().0) {
            items.last().1 as nat
        } else {
            0nat
        }
    }
}

/// Predicates that agree on the first `n` facets count the same hits there.
pub proof fn lemma_sum_same(v: SegView, n: int, p: spec_fn(Seq<u8>) -> bool, q: spec_fn(Seq<u8>) -> bool)
    requires
        forall|o: int| 0 <= o < n ==> p(#[trigger] v.terms[o]) == q(v.terms[o]),
    ensures
        sum_upto(v, n, p) == sum_upto(v, n, q),
    decreases n,
{
    if n > 0 {
        lemma_sum_same(v, n - 1, p, q);
        assert(p(v.terms[n - 1]) == q(v.terms[n - 1]));
    }
}

/// Facets that do not satisfy `p` add nothing.
pub proof fn lemma_sum_skip(v: SegView, n: int, m: int, p: spec_fn(Seq<u8>) -> bool)
    requires
        0 <= n <= m,
        forall|o: int| n <= o < m ==> !p(#[trigger] v.terms[o]),
    ensures
        sum_upto(v, m, p) == sum_upto(v, n, p),
    decreases m - n,
{
    if n < m {
        lemma_sum_skip(v, n, m - 1, p);
        assert(!p(v.terms[m - 1]));
    }
}

/// More facets, or a weaker predicate, count no fewer hits.
pub proof fn lemma_sum_grows(v: SegView, n: int, m: int, p: spec_fn(Seq<u8>) -> bool, q: spec_fn(Seq<u8>) -> bool)
    requires
        n <= m,
        forall|o: int| 0 <= o < n ==> (p(#[trigger] v.terms[o]) ==> q(v.terms[o])),
    ensures
        sum_upto(v, n, p) <= sum_upto(v, m, q),
    decreases m,
{
    if m > 0 {
        if n < m {
            lemma_sum_grows(v, n, m - 1, p, q);
        } else {
            lemma_sum_grows(v, n - 1, m - 1, p, q);
            assert(p(v.terms[n - 1]) ==> q(v.terms[n - 1]));
        }
    }
}

/// Where the facets differ from one another, the hits under one facet are
/// the count at its ordinal.
pub proof fn lemma_sum_single(v: SegView, o: int, k: Seq<u8>)
    requires
        0 <= o < v.terms.len(),
        v.terms[o] == k,
        forall|a: int, b: int| 0 <= a < b < v.terms.len() ==> v.terms[a] != v.terms[b],
    ensures
        sum_upto(v, v.terms.len() as int, is_key(k)) == v.counts[o],
{
    let none = no_key();
    lemma_sum_same(v, o, is_key(k), none);
    lemma_sum_skip(v, 0, o, none);
    assert(sum_upto(v, 0, none) == 0);
    assert(sum_upto(v, o + 1, is_key(k)) == sum_upto(v, o, is_key(k)) + v.counts[o]) by {
        assert(is_key(k)(v.terms[o]));
    }
    lemma_sum_skip(v, o + 1, v.terms.len() as int, is_key(k));
}

/// A facet that a segment lacks has no hits there.
pub proof fn lemma_sum_absent(v: SegView, n: int, k: Seq<u8>)
    requires
        forall|o: int| 0 <= o < n ==> #[trigger] v.terms[o] != k,
    ensures
        sum_upto(v, n, is_key(k)) == 0,
    decreases n,
{
    if n > 0 {
        lemma_sum_absent(v, n - 1, k);
        assert(v.terms[n - 1] != k);
    }
}

/// Segments that count the same hits one by one count the same in total.
pub proof fn lemma_total_same(
    vs: Seq<SegView>,
    a: Seq<int>,
    b: Seq<int>,
    m: int,
    p: spec_fn(Seq<u8>) -> bool,
    q: spec_fn(Seq<u8>) -> bool,
)
    requires
        forall|i: int| 0 <= i < m ==> sum_upto(#[trigger] vs[i], a[i], p) == sum_upto(vs[i], b[i], q),
    ensures
        total_upto(vs, a, m, p) == total_upto(vs, b, m, q),
    decreases m,
{
    if m > 0 {
        lemma_total_same(vs, a, b, m - 1, p, q);
        assert(sum_upto(vs[m - 1], a[m - 1], p) == sum_upto(vs[m - 1], b[m - 1], q));
    }
}

/// Segments that count no fewer hits one by one count no fewer in total.
pub proof fn lemma_total_grows(
    vs: Seq<SegView>,
    a: Seq<int>,
    b: Seq<int>,
    n: int,
    m: int,
    p: spec_fn(Seq<u8>) -> bool,
    q: spec_fn(Seq<u8>) -> bool,
)
    requires
        n <= m,
        forall|i: int| 0 <= i < n ==> sum_upto(#[trigger] vs[i], a[i], p) <= sum_upto(vs[i], b[i], q),
    ensures
        total_upto(vs, a, n, p) <= total_upto(vs, b, m, q),
    decreases m,
{
    if m > 0 {
        if n < m {
            lemma_total_grows(vs, a, b, n, m - 1, p, q);
        } else {
            lemma_total_grows(vs, a, b, n - 1, m - 1, p, q);
            assert(sum_upto(vs[n - 1], a[n - 1], p) <= sum_upto(vs[n - 1], b[n - 1], q));
        }
    }
}

/// The hits that the first `m` segments count at the ordinal `at[i]`, in
/// those segments where that ordinal holds the facet `k`.
pub open spec fn picked(vs: Seq<SegView>, at: Seq<int>, m: int, k: Seq<u8>) -> nat
    decreases m,
{
    if m <= 0 {
        0
    } else {
        picked(vs, at, m - 1, k) + if 0 <= at[m - 1] < vs[m - 1].terms.len() && vs[m - 1].terms[at[m - 1]] == k {
            vs[m - 1].counts[at[m - 1]] as nat
        } else {
            0nat
        }
    }
}

/// Moving past the facet `k` in every segment that stands on it adds, for a
/// predicate that `k` satisfies, the hits picked there, and nothing for any
/// other predicate.
pub proof fn lemma_total_step(
    vs: Seq<SegView>,
    a: Seq<int>,
    b: Seq<int>,
    m: int,
    q: spec_fn(Seq<u8>) -> bool,
    k: Seq<u8>,
)
    requires
        0 <= m <= vs.len(),
        forall|i: int|
            0 <= i < m ==> 0 <= #[trigger] a[i] && b[i] == a[i] + if a[i] < vs[i].terms.len() && vs[i].terms[a[i]] == k {
                1int
            } else {
                0int
            },
    ensures
        total_upto(vs, b, m, q) == total_upto(vs, a, m, q) + if q(k) {
            picked(vs, a, m, k)
        } else {
            0nat
        },
    decreases m,
{
    if m > 0 {
        lemma_total_step(vs, a, b, m - 1, q, k);
        assert(0 <= a[m - 1]);
    }
}

/// In segments whose facets differ from one another and which stand on `k`
/// wherever they hold it, the hits picked are the hits under `k`.
pub proof fn lemma_picked_is_count(vs: Seq<SegView>, at: Seq<int>, m: int, k: Seq<u8>)
    requires
        0 <= m <= vs.len(),
        forall|i: int, x: int, y: int|
            0 <= i < m && 0 <= x < y < vs[i].terms.len() ==> (#[trigger] vs[i].terms[x]) != (#[trigger] vs[i].terms[y]),
        forall|i: int, o: int|
            0 <= i < m && 0 <= o < vs[i].terms.len() && #[trigger] vs[i].terms[o] == k ==> at[i] == o,
    ensures
        picked(vs, at, m, k) == total_upto(vs, all_of(vs), m, is_key(k)),
    decreases m,
{
    if m > 0 {
        lemma_picked_is_count(vs, at, m - 1, k);
        let v = vs[m - 1];
        let o = at[m - 1];
        assert(all_of(vs)[m - 1] == v.terms.len());
        if 0 <= o < v.terms.len() && v.terms[o] == k {
            assert forall|x: int, y: int| 0 <= x < y < v.terms.len() implies v.terms[x] != v.terms[y] by {
                assert(vs[m - 1].terms[x] != vs[m - 1].terms[y]);
            }
            lemma_sum_single(v, o, k);
        } else {
            assert forall|j: int| 0 <= j < v.terms.len() implies #[trigger] v.terms[j] != k by {
                if v.terms[j] == k {
                    assert(vs[m - 1].terms[j] == k);
                }
            }
            lemma_sum_absent(v, v.terms.len() as int, k);
        }
    }
}


/// The hits picked in fewer segments are no more.
pub proof fn lemma_picked_grows(vs: Seq<SegView>, at: Seq<int>, n: int, m: int, k: Seq<u8>)
    requires
        n <= m,
    ensures
        picked(vs, at, n, k) <= picked(vs, at, m, k),
    decreases m,
{
    if n < m && m > 0 {
        lemma_picked_grows(vs, at, n, m - 1, k);
    }
}

/// No predicate counts more hits than there are.
pub proof fn lemma_total_bounded(vs: Seq<SegView>, upto: Seq<int>, m: int, p: spec_fn(Seq<u8>) -> bool)
    requires
        0 <= m <= vs.len(),
        upto.len() == vs.len(),
        forall|i: int| 0 <= i < vs.len() ==> #[trigger] upto[i] <= vs[i].terms.len(),
    ensures
        total_upto(vs, upto, m, p) <= total_where(vs, any_key()),
{
    assert forall|i: int| 0 <= i < m implies sum_upto(#[trigger] vs[i], upto[i], p) <= sum_upto(
        vs[i],
        all_of(vs)[i],
        any_key(),
    ) by {
        lemma_sum_grows(vs[i], upto[i], vs[i].terms.len() as int, p, any_key());
    }
    lemma_total_grows(vs, upto, all_of(vs), m, vs.len() as int, p, any_key());
}

/// The view of a list of owned items.
pub open spec fn items_view(items: Seq<(Vec<u8>, u64)>) -> Seq<(Seq<u8>, u64)> {
    Seq::new(items.len(), |j: int| (items[j].0@, items[j].1))
}

/// A new item adds its hits for the predicates that its facet satisfies.
pub proof fn lemma_items_push(items: Seq<(Seq<u8>, u64)>, key: Seq<u8>, count: u64, p: spec_fn(Seq<u8>) -> bool)
    ensures
        items_sum(items.push((key, count)), p) == items_sum(items, p) + if p(key) {
            count as nat
        } else {
            0nat
        },
{
    assert(items.push((key, count)).drop_last() == items);
}

} // verus!
