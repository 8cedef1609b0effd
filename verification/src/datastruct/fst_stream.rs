//! Range streams over a dictionary: the entries between two bounds, in key
//! order, each with its ordinal.

use vstd::prelude::*;
use crate::common::serialize::BinarySerializable;
use vstd::slice::slice_to_vec;
use crate::datastruct::fst_block::{Entries, entries_view, keys_increase, lemma_rank_is};
use crate::datastruct::fst_walk::lookup;
use crate::datastruct::fstmap::FstMap;
use crate::datastruct::lex::{lemma_lex_transitive, lex_le, lex_lt, lt_at};

verus! {

/// One end of a key range.
pub enum RangeBound {
    /// No bound.
    Unbounded,
    /// The bound itself belongs to the range.
    Included(Vec<u8>),
    /// The bound itself is left out.
    Excluded(Vec<u8>),
}

/// A [`RangeBound`] as a mathematical value.
pub ghost enum BoundView {
    /// No bound.
    Unbounded,
    /// The bound itself belongs to the range.
    Included(Seq<u8>),
    /// The bound itself is left out.
    Excluded(Seq<u8>),
}

impl View for RangeBound {
    type V = BoundView;

    open spec fn view(&self) -> BoundView {
        match self {
            RangeBound::Unbounded => BoundView::Unbounded,
            RangeBound::Included(b) => BoundView::Included(b@),
            RangeBound::Excluded(b) => BoundView::Excluded(b@),
        }
    }
}

/// `k` lies before the range that starts at `lower`.
pub open spec fn before_lower(lower: BoundView, k: Seq<u8>) -> bool {
    match lower {
        BoundView::Unbounded => false,
        BoundView::Included(b) => lex_lt(k, b),
        BoundView::Excluded(b) => lex_le(k, b),
    }
}

/// `k` does not lie past the range that ends at `upper`.
pub open spec fn within_upper(upper: BoundView, k: Seq<u8>) -> bool {
    match upper {
        BoundView::Unbounded => true,
        BoundView::Included(b) => lex_le(k, b),
        BoundView::Excluded(b) => lex_lt(k, b),
    }
}

/// `k` lies in the range between `lower` and `upper`.
pub open spec fn in_range(lower: BoundView, upper: BoundView, k: Seq<u8>) -> bool {
    !before_lower(lower, k) && within_upper(upper, k)
}

/// A key before a key that does not lie past the range does not lie past it.
pub proof fn lemma_within_upper_closed(upper: BoundView, a: Seq<u8>, b: Seq<u8>)
    requires
        lex_lt(a, b),
        within_upper(upper, b),
    ensures
        within_upper(upper, a),
{
    match upper {
        BoundView::Unbounded => {},
        BoundView::Included(x) => {
            if b != x {
                lemma_lex_transitive(a, b, x);
            }
        },
        BoundView::Excluded(x) => {
            lemma_lex_transitive(a, b, x);
        },
    }
}

/// `first` and `limit` cut out of the rising entries `e` exactly those whose
/// key lies between `lower` and `upper`.
pub open spec fn cuts_range(e: Entries, lower: BoundView, upper: BoundView, first: int, limit: int) -> bool {
    &&& 0 <= first <= limit <= e.len()
    &&& forall|i: int| 0 <= i < e.len() ==> (first <= i < limit <==> in_range(lower, upper, (#[trigger] e[i]).0))
}

/// The entries of `e` that do not lie past the range that ends at `upper`.
pub open spec fn upto(e: Entries, upper: BoundView) -> Entries
    decreases e.len(),
{
    if e.len() == 0 {
        Seq::empty()
    } else if within_upper(upper, e.last().0) {
        upto(e.drop_last(), upper).push(e.last())
    } else {
        upto(e.drop_last(), upper)
    }
}

/// The bound that ends a range right before the range that starts at
/// `lower`: the keys within it are those before `lower`. No key comes before
/// the empty key.
pub open spec fn ahead_of(lower: BoundView) -> BoundView {
    match lower {
        BoundView::Unbounded => BoundView::Excluded(Seq::empty()),
        BoundView::Included(b) => BoundView::Excluded(b),
        BoundView::Excluded(b) => BoundView::Included(b),
    }
}

/// Without an upper bound every entry stays.
pub proof fn lemma_upto_unbounded(e: Entries)
    ensures
        upto(e, BoundView::Unbounded) == e,
    decreases e.len(),
{
    if e.len() > 0 {
        lemma_upto_unbounded(e.drop_last());
        assert(e.drop_last().push(e.last()) == e);
    }
}

/// The entries up to a bound of two runs of entries are those of the first
/// run, then those of the second.
pub proof fn lemma_upto_concat(a: Entries, b: Entries, upper: BoundView)
    ensures
        upto(a + b, upper) == upto(a, upper) + upto(b, upper),
    decreases b.len(),
{
    if b.len() == 0 {
        assert(a + b == a);
        assert(upto(a, upper) + upto(b, upper) == upto(a, upper));
    } else {
        lemma_upto_concat(a, b.drop_last(), upper);
        assert((a + b).drop_last() == a + b.drop_last());
        assert((a + b).last() == b.last());
        let front = upto(a, upper) + upto(b.drop_last(), upper);
        if within_upper(upper, b.last().0) {
            assert(front.push(b.last()) == upto(a, upper) + upto(b.drop_last(), upper).push(b.last()));
        }
    }
}

/// Of rising entries, those up to a bound are the entries at the front: as
/// many as lie within the bound.
pub proof fn lemma_upto_prefix(e: Entries, upper: BoundView)
    requires
        keys_increase(e),
    ensures
        upto(e, upper).len() <= e.len(),
        upto(e, upper) == e.take(upto(e, upper).len() as int),
        forall|i: int| 0 <= i < e.len() ==> (i < upto(e, upper).len() <==> within_upper(upper, (#[trigger] e[i]).0)),
    decreases e.len(),
{
    if e.len() > 0 {
        let front = e.drop_last();
        let x = e.last();
        assert forall|i: int, j: int| 0 <= i < j < front.len() implies lex_lt(
            #[trigger] front[i].0,
            #[trigger] front[j].0,
        ) by {
            assert(lex_lt(e[i].0, e[j].0));
        }
        lemma_upto_prefix(front, upper);
        let n = upto(front, upper).len() as int;
        if within_upper(upper, x.0) {
            if front.len() > 0 {
                let last = front.len() - 1;
                assert(lex_lt(e[last].0, e[e.len() - 1].0));
                lemma_within_upper_closed(upper, front[last].0, x.0);
                assert(last < n);
            }
            assert(n == front.len());
            assert(front.take(n) == front);
            assert(front.push(x) == e);
            assert(e.take(e.len() as int) == e);
            assert forall|i: int| 0 <= i < e.len() implies within_upper(upper, (#[trigger] e[i]).0) by {
                if i < e.len() - 1 {
                    assert(lex_lt(e[i].0, e[e.len() - 1].0));
                    lemma_within_upper_closed(upper, e[i].0, x.0);
                }
            }
        } else {
            assert(front.take(n) == e.take(n));
            assert forall|i: int| 0 <= i < e.len() implies (i < n <==> within_upper(upper, (#[trigger] e[i]).0)) by {
                if i < front.len() {
                    assert(front[i] == e[i]);
                }
            }
        }
    } else {
        assert(e.take(0) == Seq::<(Seq<u8>, u64)>::empty());
    }
}

/// The keys before a range are the keys within the bound ahead of it.
pub proof fn lemma_ahead_of(lower: BoundView, k: Seq<u8>)
    ensures
        before_lower(lower, k) == within_upper(ahead_of(lower), k),
{
    if lower is Unbounded {
        assert forall|i: int| !lt_at(k, Seq::<u8>::empty(), i) by {}
    }
}

/// A range of a dictionary, with bounds still to be set.
pub struct FstMapStreamBuilder<'a, V: BinarySerializable> {
    map: &'a FstMap<V>,
    lower: RangeBound,
    upper: RangeBound,
}

impl<'a, V: BinarySerializable> FstMapStreamBuilder<'a, V> {
    /// The dictionary being streamed.
    pub closed spec fn map(&self) -> FstMap<V> {
        *self.map
    }

    /// The lower bound.
    pub closed spec fn lower(&self) -> BoundView {
        self.lower@
    }

    /// The upper bound.
    pub closed spec fn upper(&self) -> BoundView {
        self.upper@
    }

    /// The whole of `map`.
    pub fn new(map: &'a FstMap<V>) -> (builder: Self)
        ensures
            builder.map() == *map,
            builder.lower() == BoundView::Unbounded,
            builder.upper() == BoundView::Unbounded,
    {
        FstMapStreamBuilder { map, lower: RangeBound::Unbounded, upper: RangeBound::Unbounded }
    }

    /// Keeps the keys at or after `bound`.
    pub fn ge(self, bound: &[u8]) -> (builder: Self)
        ensures
            builder.map() == self.map(),
            builder.lower() == BoundView::Included(bound@),
            builder.upper() == self.upper(),
    {
        FstMapStreamBuilder { map: self.map, lower: RangeBound::Included(vstd::slice::slice_to_vec(bound)), upper: self.upper }
    }

    /// Keeps the keys after `bound`.
    pub fn gt(self, bound: &[u8]) -> (builder: Self)
        ensures
            builder.map() == self.map(),
            builder.lower() == BoundView::Excluded(bound@),
            builder.upper() == self.upper(),
    {
        FstMapStreamBuilder { map: self.map, lower: RangeBound::Excluded(vstd::slice::slice_to_vec(bound)), upper: self.upper }
    }

    /// Keeps the keys at or before `bound`.
    pub fn le(self, bound: &[u8]) -> (builder: Self)
        ensures
            builder.map() == self.map(),
            builder.lower() == self.lower(),
            builder.upper() == BoundView::Included(bound@),
    {
        FstMapStreamBuilder { map: self.map, lower: self.lower, upper: RangeBound::Included(vstd::slice::slice_to_vec(bound)) }
    }

    /// Keeps the keys before `bound`.
    pub fn lt(self, bound: &[u8]) -> (builder: Self)
        ensures
            builder.map() == self.map(),
            builder.lower() == self.lower(),
            builder.upper() == BoundView::Excluded(bound@),
    {
        FstMapStreamBuilder { map: self.map, lower: self.lower, upper: RangeBound::Excluded(vstd::slice::slice_to_vec(bound)) }
    }

    /// The stream of the entries within the bounds. The entries up to the
    /// upper bound are read from the dictionary; the number of those before
    /// the lower bound is the ordinal of the first entry of the range.
    pub fn into_stream(self) -> (stream: FstMapStreamer<'a, V>)
        requires
            self.map().wf(),
        ensures
            stream.wf(),
            stream.map() == self.map(),
            stream.cursor() == stream.first(),
            cuts_range(
                self.map().all_entries(),
                self.lower(),
                self.upper(),
                stream.first() as int,
                stream.limit() as int,
            ),
    {
        let entries = self.map.entries_within(&self.upper);
        let below: usize = match &self.lower {
            RangeBound::Unbounded => 0,
            RangeBound::Included(b) => self.map.entries_within(&RangeBound::Excluded(slice_to_vec(b.as_slice()))).len(),
            RangeBound::Excluded(b) => self.map.entries_within(&RangeBound::Included(slice_to_vec(b.as_slice()))).len(),
        };
        let limit = entries.len();
        let first = if below < limit {
            below
        } else {
            limit
        };
        proof {
            let all = self.map.all_entries();
            self.map.lemma_all_entries();
            lemma_upto_prefix(all, self.upper@);
            lemma_upto_prefix(all, ahead_of(self.lower@));
            assert(entries_view(entries@).len() == entries@.len());
            assert(self.lower is Unbounded ==> upto(all, ahead_of(self.lower@)).len() == 0) by {
                if self.lower is Unbounded && upto(all, ahead_of(self.lower@)).len() > 0 {
                    lemma_ahead_of(self.lower@, all[0].0);
                }
            }
            assert(below == upto(all, ahead_of(self.lower@)).len()) by {
                match self.lower {
                    RangeBound::Unbounded => {},
                    RangeBound::Included(b) => {
                        assert(entries_view(Seq::<(Vec<u8>, u64)>::empty()).len() == 0);
                    },
                    RangeBound::Excluded(b) => {},
                }
            }
            assert forall|i: int| 0 <= i < all.len() implies (first <= i < limit <==> in_range(
                self.lower@,
                self.upper@,
                (#[trigger] all[i]).0,
            )) by {
                lemma_ahead_of(self.lower@, all[i].0);
            }
        }
        FstMapStreamer { map: self.map, entries, first, cursor: first, limit, current: None }
    }
}

/// A stream over the entries of a dictionary whose ordinals run from
/// `first()` up to `limit()`.
pub struct FstMapStreamer<'a, V: BinarySerializable> {
    map: &'a FstMap<V>,
    entries: Vec<(Vec<u8>, u64)>,
    first: usize,
    /// The ordinal of the entry that `next` moves to.
    cursor: usize,
    limit: usize,
    current: Option<V>,
}

impl<'a, V: BinarySerializable> FstMapStreamer<'a, V> {
    /// The dictionary being streamed.
    pub closed spec fn map(&self) -> FstMap<V> {
        *self.map
    }

    /// The ordinal of the first entry of the range.
    pub closed spec fn first(&self) -> nat {
        self.first as nat
    }

    /// The ordinal of the entry that `next` moves to.
    pub closed spec fn cursor(&self) -> nat {
        self.cursor as nat
    }

    /// The ordinal after the last entry of the range.
    pub closed spec fn limit(&self) -> nat {
        self.limit as nat
    }

    /// The value of the entry the stream stands on.
    pub closed spec fn current(&self) -> V {
        self.current->0
    }

    /// Validity of the stream.
    pub closed spec fn wf(&self) -> bool {
        &&& self.map.wf()
        &&& self.limit == self.entries@.len()
        &&& self.limit <= self.map.all_entries().len()
        &&& entries_view(self.entries@) == self.map.all_entries().take(self.limit as int)
        &&& self.first <= self.cursor <= self.limit
        &&& self.cursor > self.first ==> self.current is Some
    }

    /// The cursor stays within the range, and the range within the entries.
    pub proof fn lemma_bounds(&self)
        requires
            self.wf(),
        ensures
            self.first() <= self.cursor() <= self.limit() <= self.map().all_entries().len(),
            self.map().wf(),
    {
        assert(entries_view(self.entries@).len() == self.entries@.len());
    }

    /// Moves to the next entry of the range; `false` once it is exhausted.
    pub fn next(&mut self) -> (more: bool)
        requires
            old(self).wf(),
        ensures
            final(self).wf(),
            final(self).map() == old(self).map(),
            final(self).first() == old(self).first(),
            final(self).limit() == old(self).limit(),
            more == (old(self).cursor() < old(self).limit()),
            more ==> final(self).cursor() == old(self).cursor() + 1 && final(self).map()@.dom().contains(
                final(self).map().all_entries()[old(self).cursor() as int].0,
            ) && final(self).current()@ == final(self).map()@[final(self).map().all_entries()[old(
                self,
            ).cursor() as int].0],
            !more ==> final(self).cursor() == old(self).cursor(),
    {
        if self.cursor >= self.limit {
            return false;
        }
        let offset = self.entries[self.cursor].1;
        proof {
            self.map.lemma_all_entries();
            let e = self.map.all_entries();
            let i = self.cursor as int;
            assert(entries_view(self.entries@)[i] == e.take(self.limit as int)[i]);
            assert(e[i] == (self.entries@[i].0@, self.entries@[i].1));
            assert forall|j: int| 0 <= j < i implies lex_lt((#[trigger] e[j]).0, e[i].0) by {}
            lemma_rank_is(e, e[i].0, i);
            assert(lookup(e, e[i].0) == Some(offset));
            assert(self.map.offset_of(e[i].0) == Some(offset));
        }
        match self.map.value_at(offset) {
            Some(value) => {
                self.current = Some(value);
                self.cursor = self.cursor + 1;
                true
            },
            None => vstd::pervasive::unreached(),
        }
    }

    /// The key of the entry that `next` moves to, if the range is not
    /// exhausted.
    pub fn peek_key(&self) -> (key: Option<&[u8]>)
        requires
            self.wf(),
        ensures
            key is Some <==> self.cursor() < self.limit(),
            key matches Some(k) ==> k@ == self.map().all_entries()[self.cursor() as int].0,
    {
        if self.cursor < self.limit {
            proof {
                let i = self.cursor as int;
                assert(entries_view(self.entries@)[i] == self.map.all_entries().take(self.limit as int)[i]);
                assert(entries_view(self.entries@)[i] == self.map.all_entries().take(self.limit as int)[i]);
            assert(self.map.all_entries()[i] == (self.entries@[i].0@, self.entries@[i].1));
            }
            Some(self.entries[self.cursor].0.as_slice())
        } else {
            None
        }
    }

    /// The key of the entry the stream stands on.
    pub fn key(&self) -> (key: &[u8])
        requires
            self.wf(),
            self.cursor() > self.first(),
        ensures
            key@ == self.map().all_entries()[self.cursor() - 1].0,
    {
        proof {
            let i = self.cursor - 1;
            assert(entries_view(self.entries@)[i] == self.map.all_entries().take(self.limit as int)[i]);
            assert(self.map.all_entries()[i] == (self.entries@[i].0@, self.entries@[i].1));
        }
        self.entries[self.cursor - 1].0.as_slice()
    }

    /// The value of the entry the stream stands on.
    pub fn value(&self) -> (value: &V)
        requires
            self.wf(),
            self.cursor() > self.first(),
        ensures
            *value == self.current(),
    {
        match &self.current {
            Some(value) => value,
            None => vstd::pervasive::unreached(),
        }
    }

    /// The ordinal of the entry the stream stands on: its index among all the
    /// entries of the dictionary.
    pub fn ord(&self) -> (ord: usize)
        requires
            self.wf(),
            self.cursor() > self.first(),
        ensures
            ord == self.cursor() - 1,
    {
        self.cursor - 1
    }
}

} // verus!
