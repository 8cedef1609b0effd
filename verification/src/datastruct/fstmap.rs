//! A sorted map from byte keys to values, stored as a cascade of transducer
//! blocks behind the serialized values.

use core::marker::PhantomData;
use vstd::prelude::*;
use vstd::bytes::{spec_u64_from_le_bytes, u64_from_le_bytes};
use vstd::slice::slice_subrange;
use crate::common::serialize::{BinarySerializable, CodecError};
use crate::datastruct::fst_block::{
    Entries, block_at, block_entries, block_payload, find_offset, fst_first_at_or_after, fst_get, fst_opens,
    keys_increase, lemma_rank, lemma_rank_is, map_open, rank, tree,
};
use crate::datastruct::fst_block::entries_view;
use crate::datastruct::fst_stream::{FstMapStreamBuilder, RangeBound, lemma_upto_unbounded, upto};
use crate::datastruct::fst_walk::{collect_within, lemma_tree_entries, lookup, tree_entries};
use crate::datastruct::lex::{lemma_lex_asymmetric, lex_le, lex_lt};

verus! {

/// The size of the footer: the offset of the top block, then the depth.
pub const FOOTER_LEN: usize = 9;

/// Why a dictionary file could not be written or opened.
#[derive(Clone, Copy, Debug, PartialEq, Eq, Structural)]
pub enum DictionaryError {
    /// The file is too short to hold a footer.
    TruncatedFooter,
    /// The length of the top block reaches past the end of the file.
    BlockOverrun,
    /// A block is too long for its 32-bit length.
    BlockTooLarge,
    /// The top block holds no transducer.
    NotATransducer,
}

/// The offset of the top block, as the footer gives it.
pub open spec fn footer_top(file: Seq<u8>) -> u64 {
    spec_u64_from_le_bytes(file.subrange(file.len() - 9, file.len() - 1))
}

/// The number of levels, as the footer gives it; 0 for an empty dictionary.
pub open spec fn footer_depth(file: Seq<u8>) -> u8 {
    file[file.len() - 1]
}

/// The binary form of `v` stands in `file` at `offset`.
pub open spec fn placed<V: BinarySerializable>(file: Seq<u8>, offset: int, v: V::V) -> bool {
    &&& V::encodable(v)
    &&& 0 <= offset
    &&& offset + V::encode(v).len() <= file.len()
    &&& file.subrange(offset, offset + V::encode(v).len()) == V::encode(v)
}

/// `file` is a dictionary that holds exactly `values`: a lookup finds a key
/// of `values` at the place where its value stands, and no other key.
pub open spec fn holds_dictionary<V: BinarySerializable>(file: Seq<u8>, values: Map<Seq<u8>, V::V>) -> bool {
    &&& file.len() >= 9
    &&& footer_depth(file) >= 1 ==> exists|hi: Seq<u8>|
        tree(file, footer_top(file) as int, footer_depth(file) as nat, None, hi)
    &&& forall|k: Seq<u8>|
        match #[trigger] find_offset(file, footer_top(file) as int, footer_depth(file) as nat, k) {
            Some(offset) => values.dom().contains(k) && placed::<V>(file, offset as int, values[k]),
            None => !values.dom().contains(k),
        }
}

/// A value that stands in a file is read back from there.
pub proof fn lemma_placed_decodes<V: BinarySerializable>(file: Seq<u8>, offset: int, v: V::V)
    requires
        placed::<V>(file, offset, v),
    ensures
        V::decode(file.skip(offset)) == Ok::<(V::V, int), CodecError>((v, V::encode(v).len() as int)),
{
    let rest = file.skip(offset + V::encode(v).len());
    assert(file.skip(offset) == V::encode(v) + rest);
    V::lemma_decode_encode(v, rest);
}

/// A dictionary file opened for lookups.
pub struct FstMap<V: BinarySerializable> {
    source: Vec<u8>,
    top_offset: u64,
    depth: u8,
    _phantom_: PhantomData<V>,
}

impl<V: BinarySerializable> FstMap<V> {
    /// The bytes of the file.
    pub closed spec fn source_bytes(&self) -> Seq<u8> {
        self.source@
    }

    /// The footer has been read from the file.
    pub closed spec fn parsed(&self) -> bool {
        &&& self.source@.len() >= 9
        &&& self.top_offset == footer_top(self.source@)
        &&& self.depth == footer_depth(self.source@)
    }

    /// Where a lookup of `k` finds its value.
    pub closed spec fn offset_of(&self, k: Seq<u8>) -> Option<u64> {
        find_offset(self.source@, self.top_offset as int, self.depth as nat, k)
    }

    /// Validity: the blocks form a tree, and a value can be read wherever a
    /// lookup ends.
    pub closed spec fn wf(&self) -> bool {
        &&& self.parsed()
        &&& self.depth >= 1 ==> exists|hi: Seq<u8>|
            tree(self.source@, self.top_offset as int, self.depth as nat, None, hi)
        &&& forall|k: Seq<u8>| #[trigger]
            self.offset_of(k) matches Some(offset) ==> offset <= self.source@.len() && V::decode(
                self.source@.skip(offset as int),
            ) is Ok
    }

    /// Why `file` does not open as a dictionary, if it does not: the footer
    /// is read, and the top block, if there is one, is framed and opened.
    pub open spec fn refused(file: Seq<u8>) -> Option<DictionaryError> {
        if file.len() < 9 {
            Some(DictionaryError::TruncatedFooter)
        } else if footer_depth(file) == 0 {
            None
        } else {
            match block_at(file, footer_top(file) as int) {
                None => Some(DictionaryError::BlockOverrun),
                Some(payload) => if fst_opens(payload) {
                    None
                } else {
                    Some(DictionaryError::NotATransducer)
                },
            }
        }
    }

    /// Opens a dictionary file: reads the footer and opens the top block.
    /// The blocks below the top are opened only when a lookup reaches them.
    pub fn from_source(source: Vec<u8>) -> (res: Result<FstMap<V>, DictionaryError>)
        ensures
            match Self::refused(source@) {
                Some(e) => res == Err::<FstMap<V>, DictionaryError>(e),
                None => res matches Ok(map) && map.parsed() && map.source_bytes() == source@,
            },
    {
        let total_len = source.len();
        if total_len < FOOTER_LEN {
            return Err(DictionaryError::TruncatedFooter);
        }
        let depth = source[total_len - 1];
        let top_field = slice_subrange(source.as_slice(), total_len - FOOTER_LEN, total_len - 1);
        let top_offset = u64_from_le_bytes(top_field);
        if depth >= 1 {
            match block_payload(source.as_slice(), top_offset) {
                None => {
                    return Err(DictionaryError::BlockOverrun);
                },
                Some(payload) => {
                    if map_open(payload).is_none() {
                        return Err(DictionaryError::NotATransducer);
                    }
                },
            }
        }
        Ok(FstMap { source, top_offset, depth, _phantom_: PhantomData })
    }

    /// The value under `key`, or `None` where the dictionary lacks the key.
    pub fn get(&self, key: &[u8]) -> (value: Option<V>)
        requires
            self.wf(),
        ensures
            match value {
                Some(v) => self@.dom().contains(key@) && self@[key@] == v@,
                None => !self@.dom().contains(key@),
            },
    {
        if self.depth == 0 {
            return None;
        }
        let file = self.source.as_slice();
        let mut offset = self.top_offset;
        let mut height = self.depth;
        let ghost mut hi = choose|hi: Seq<u8>| tree(self.source@, self.top_offset as int, self.depth as nat, None, hi);
        let ghost mut lo: Option<Seq<u8>> = None;
        while height > 1
            invariant
                height >= 1,
                file@ == self.source@,
                tree(file@, offset as int, height as nat, lo, hi),
                self.offset_of(key@) == find_offset(file@, offset as int, height as nat, key@),
            decreases height,
        {
            let ghost e = block_entries(file@, offset as int)->0;
            let payload = match block_payload(file, offset) {
                Some(payload) => payload,
                None => vstd::pervasive::unreached(),
            };
            match fst_first_at_or_after(payload, key) {
                None => {
                    proof {
                        lemma_rank_is(e, key@, e.len() as int);
                    }
                    return None;
                },
                Some((child_key, child_offset)) => {
                    proof {
                        let i = choose|i: int|
                            0 <= i < e.len() && #[trigger] e[i] == (child_key@, child_offset) && lex_le(
                                key@,
                                child_key@,
                            ) && forall|j: int| 0 <= j < i ==> lex_lt((#[trigger] e[j]).0, key@);
                        lemma_rank_is(e, key@, i);
                        assert(tree(
                            file@,
                            e[i].1 as int,
                            (height - 1) as nat,
                            crate::datastruct::fst_block::child_floor(e, i, lo),
                            e[i].0,
                        ));
                        lo = crate::datastruct::fst_block::child_floor(e, i, lo);
                        hi = e[i].0;
                    }
                    offset = child_offset;
                    height = height - 1;
                },
            }
        }
        let ghost e = block_entries(file@, offset as int)->0;
        let payload = match block_payload(file, offset) {
            Some(payload) => payload,
            None => vstd::pervasive::unreached(),
        };
        match fst_get(payload, key) {
            None => {
                proof {
                    lemma_rank(e, key@);
                    let r = rank(e, key@);
                    if r < e.len() {
                        assert(e[r].0 != key@);
                    }
                }
                None
            },
            Some(value_offset) => {
                proof {
                    let i = choose|i: int| 0 <= i < e.len() && #[trigger] e[i] == (key@, value_offset);
                    assert forall|j: int| 0 <= j < i implies lex_lt((#[trigger] e[j]).0, key@) by {
                        assert(lex_lt(e[j].0, e[i].0));
                    }
                    lemma_rank_is(e, key@, i);
                    assert(self.offset_of(key@) == Some(value_offset));
                    assert(value_offset <= file@.len());
                }
                let len = file.len();
                assert(value_offset <= len);
                let start = value_offset as usize;
                match V::deserialize(file, start) {
                    Ok((v, _)) => Some(v),
                    Err(_) => vstd::pervasive::unreached(),
                }
            },
        }
    }
}

impl<V: BinarySerializable> FstMap<V> {
    /// Every key of the dictionary with the offset of its value, in key
    /// order.
    pub closed spec fn all_entries(&self) -> Entries {
        tree_entries(self.source@, self.top_offset as int, self.depth as nat)
    }

    /// The entries rise, and hold exactly the keys that a lookup finds.
    pub proof fn lemma_all_entries(&self)
        requires
            self.wf(),
        ensures
            keys_increase(self.all_entries()),
            forall|k: Seq<u8>| #[trigger] self.offset_of(k) == lookup(self.all_entries(), k),
            forall|k: Seq<u8>| #[trigger]
                self@.dom().contains(k) <==> exists|i: int|
                    0 <= i < self.all_entries().len() && (#[trigger] self.all_entries()[i]).0 == k,
    {
        if self.depth >= 1 {
            let hi = choose|hi: Seq<u8>| tree(self.source@, self.top_offset as int, self.depth as nat, None, hi);
            lemma_tree_entries(self.source@, self.top_offset as int, self.depth as nat, None, hi);
        }
        let e = self.all_entries();
        assert forall|k: Seq<u8>| #[trigger] self.offset_of(k) == lookup(e, k) by {
            if self.depth >= 1 {
                assert(find_offset(self.source@, self.top_offset as int, self.depth as nat, k) == lookup(e, k));
            }
        }
        assert forall|k: Seq<u8>| #[trigger]
            self@.dom().contains(k) <==> exists|i: int| 0 <= i < e.len() && (#[trigger] e[i]).0 == k by {
            assert(self.offset_of(k) == lookup(e, k));
            if exists|i: int| 0 <= i < e.len() && (#[trigger] e[i]).0 == k {
                let i = choose|i: int| 0 <= i < e.len() && (#[trigger] e[i]).0 == k;
                assert forall|j: int| 0 <= j < i implies lex_lt((#[trigger] e[j]).0, k) by {
                    assert(lex_lt(e[j].0, e[i].0));
                }
                lemma_rank_is(e, k, i);
            }
            if self@.dom().contains(k) {
                let r = rank(e, k);
                lemma_rank(e, k);
                assert(e[r].0 == k);
            }
        }
    }

    /// The keys of the dictionary that do not lie past `upper`, each with the
    /// offset of its value, in key order.
    pub fn entries_within(&self, upper: &RangeBound) -> (pairs: Vec<(Vec<u8>, u64)>)
        requires
            self.wf(),
        ensures
            entries_view(pairs@) == upto(self.all_entries(), upper@),
    {
        let mut pairs: Vec<(Vec<u8>, u64)> = Vec::new();
        proof {
            assert(entries_view(Seq::<(Vec<u8>, u64)>::empty()) =~= Seq::<(Seq<u8>, u64)>::empty());
        }
        if self.depth >= 1 {
            let ghost hi = choose|hi: Seq<u8>| tree(self.source@, self.top_offset as int, self.depth as nat, None, hi);
            collect_within(
                self.source.as_slice(),
                self.top_offset,
                self.depth,
                upper,
                &mut pairs,
                Ghost(None),
                Ghost(hi),
            );
            proof {
                let found = upto(self.all_entries(), upper@);
                assert(Seq::<(Seq<u8>, u64)>::empty() + found == found);
            }
        }
        pairs
    }

    /// Every key of the dictionary with the offset of its value, in key
    /// order.
    pub fn entries(&self) -> (pairs: Vec<(Vec<u8>, u64)>)
        requires
            self.wf(),
        ensures
            entries_view(pairs@) == self.all_entries(),
    {
        proof {
            lemma_upto_unbounded(self.all_entries());
        }
        self.entries_within(&RangeBound::Unbounded)
    }

    /// The keys of the dictionary, in order.
    pub fn keys(&self) -> (keys: Vec<Vec<u8>>)
        requires
            self.wf(),
        ensures
            keys@.len() == self.all_entries().len(),
            forall|i: int| 0 <= i < keys@.len() ==> (#[trigger] keys@[i])@ == self.all_entries()[i].0,
    {
        let mut pairs = self.entries();
        let mut keys: Vec<Vec<u8>> = Vec::new();
        let ghost e = self.all_entries();
        let mut i: usize = 0;
        while i < pairs.len()
            invariant
                i <= pairs@.len(),
                crate::datastruct::fst_block::entries_view(pairs@) == e,
                keys@.len() == i,
                forall|j: int| 0 <= j < i ==> (#[trigger] keys@[j])@ == e[j].0,
            decreases pairs@.len() - i,
        {
            proof {
                assert(e[i as int] == (pairs@[i as int].0@, pairs@[i as int].1));
            }
            keys.push(vstd::slice::slice_to_vec(pairs[i].0.as_slice()));
            i = i + 1;
        }
        keys
    }

    /// A range over the dictionary, to be narrowed by bounds.
    pub fn range<'a>(&'a self) -> (builder: FstMapStreamBuilder<'a, V>)
        ensures
            builder.map() == *self,
            builder.lower() == crate::datastruct::fst_stream::BoundView::Unbounded,
            builder.upper() == crate::datastruct::fst_stream::BoundView::Unbounded,
    {
        FstMapStreamBuilder::new(self)
    }

    /// Reads the value that stands at `offset`, an offset that a lookup
    /// finds.
    pub fn value_at(&self, offset: u64) -> (value: Option<V>)
        requires
            self.wf(),
            exists|k: Seq<u8>| self.offset_of(k) == Some(offset),
        ensures
            value is Some,
            forall|k: Seq<u8>| #[trigger] self.offset_of(k) == Some(offset) ==> self@.dom().contains(k) && self@[k]
                == value->0@,
    {
        let ghost k = choose|k: Seq<u8>| self.offset_of(k) == Some(offset);
        let file = self.source.as_slice();
        let len = file.len();
        assert(self.offset_of(k) matches Some(o) && o <= len);
        let start = offset as usize;
        match V::deserialize(file, start) {
            Ok((v, _)) => Some(v),
            Err(_) => vstd::pervasive::unreached(),
        }
    }
}

impl<V: BinarySerializable> View for FstMap<V> {
    type V = Map<Seq<u8>, V::V>;

    /// The keys that a lookup finds, each with the value read where the
    /// lookup ends.
    closed spec fn view(&self) -> Map<Seq<u8>, V::V> {
        Map::new(
            |k: Seq<u8>| self.offset_of(k) is Some,
            |k: Seq<u8>| V::decode(self.source@.skip(self.offset_of(k)->0 as int))->Ok_0.0,
        )
    }
}

/// A file that holds a dictionary opens as a valid map of what it holds.
pub proof fn lemma_opens_as<V: BinarySerializable>(map: FstMap<V>, values: Map<Seq<u8>, V::V>)
    requires
        map.parsed(),
        holds_dictionary::<V>(map.source_bytes(), values),
    ensures
        map.wf(),
        map@ == values,
{
    let file = map.source_bytes();
    assert forall|k: Seq<u8>| #[trigger] map.offset_of(k) is Some implies map.offset_of(k)->0 <= file.len()
        && V::decode(file.skip(map.offset_of(k)->0 as int)) is Ok by {
        let found = find_offset(file, footer_top(file) as int, footer_depth(file) as nat, k);
        lemma_placed_decodes::<V>(file, found->0 as int, values[k]);
    }
    assert forall|k: Seq<u8>| map@.dom().contains(k) == values.dom().contains(k) by {
        let found = find_offset(file, footer_top(file) as int, footer_depth(file) as nat, k);
        assert(map.offset_of(k) == found);
    }
    assert forall|k: Seq<u8>| map@.dom().contains(k) implies map@[k] == values[k] by {
        let found = find_offset(file, footer_top(file) as int, footer_depth(file) as nat, k);
        assert(map.offset_of(k) == found);
        lemma_placed_decodes::<V>(file, found->0 as int, values[k]);
    }
    assert(map@ =~= values);
}

} // verus!
