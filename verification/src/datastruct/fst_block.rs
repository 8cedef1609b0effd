//! Blocks of the cascaded dictionary file: each a transducer behind a 32-bit
//! length, leaves mapping keys to values and inner blocks mapping the last key
//! of a child block to that block's offset.

use fst::{IntoStreamer, Streamer};
use vstd::prelude::*;
use vstd::bytes::{spec_u32_from_le_bytes, u32_from_le_bytes};
use vstd::slice::slice_subrange;
use crate::datastruct::fst_stream::{BoundView, RangeBound, lemma_upto_unbounded, upto};
use crate::datastruct::lex::{
    above, lemma_lex_asymmetric, lemma_lex_total, lemma_lex_transitive, lex_le, lex_lt,
};

verus! {

/// Key-value pairs in the order a transducer yields them.
pub type Entries = Seq<(Seq<u8>, u64)>;

/// The builder of a transducer-backed map, from the `fst` crate.
#[verifier::external_type_specification]
#[verifier::external_body]
#[verifier::reject_recursive_types(W)]
pub struct ExMapBuilder<W>(fst::MapBuilder<W>);

/// The pairs inserted into a builder so far, in insertion order.
pub uninterp spec fn builder_entries(builder: fst::MapBuilder<Vec<u8>>) -> Entries;

/// The pairs, in key order, of the map that `fst::Map::new` opens on `bytes`;
/// `None` for bytes that no builder would write.
pub uninterp spec fn fst_image(bytes: Seq<u8>) -> Option<Entries>;

/// Whether `fst::Map::new` accepts `bytes`. It looks at the header and at the
/// address of the root only, so it accepts some bytes that hold no map.
pub uninterp spec fn fst_opens(bytes: Seq<u8>) -> bool;

/// The number of bytes that `fst::MapBuilder::into_inner` returns for a
/// builder that holds `entries`.
pub uninterp spec fn fst_size(entries: Seq<(Seq<u8>, u64)>) -> nat;

/// What a vector of owned pairs stands for.
pub open spec fn entries_view(pairs: Seq<(Vec<u8>, u64)>) -> Entries {
    Seq::new(pairs.len(), |i: int| (pairs[i].0@, pairs[i].1))
}

/// The keys rise strictly from each entry to the next.
pub open spec fn keys_increase(e: Entries) -> bool {
    forall|i: int, j: int| 0 <= i < j < e.len() ==> lex_lt(#[trigger] e[i].0, #[trigger] e[j].0)
}

/// Calls `fst::MapBuilder::memory`: a builder that holds nothing yet.
#[verifier::external_body]
pub(crate) fn builder_new() -> (builder: fst::MapBuilder<Vec<u8>>)
    ensures
        builder_entries(builder) == Seq::<(Seq<u8>, u64)>::empty(),
{
    fst::MapBuilder::memory()
}

/// Calls `fst::MapBuilder::insert`, which takes a key that comes after the
/// last one inserted and refuses any other, changing nothing.
#[verifier::external_body]
pub(crate) fn builder_insert(builder: &mut fst::MapBuilder<Vec<u8>>, key: &[u8], value: u64) -> (taken: bool)
    ensures
        taken == (builder_entries(*old(builder)).len() == 0 || lex_lt(
            builder_entries(*old(builder)).last().0,
            key@,
        )),
        taken ==> builder_entries(*final(builder)) == builder_entries(*old(builder)).push((key@, value)),
        !taken ==> builder_entries(*final(builder)) == builder_entries(*old(builder)),
{
    builder.insert(key, value).is_ok()
}

/// Calls `fst::MapBuilder::into_inner`: the bytes of the finished map, which
/// `fst::Map::new` accepts and opens as a map of the inserted pairs. Writing
/// into memory cannot fail. The number of the bytes depends on the pairs
/// alone, and has a name.
#[verifier::external_body]
pub(crate) fn builder_into_bytes(builder: fst::MapBuilder<Vec<u8>>) -> (bytes: Option<Vec<u8>>)
    ensures
        bytes is Some,
        bytes matches Some(b) ==> fst_image(b@) == Some(builder_entries(builder)),
        bytes matches Some(b) ==> fst_opens(b@),
        bytes matches Some(b) ==> b@.len() == fst_size(builder_entries(builder)),
{
    builder.into_inner().ok()
}

/// A transducer-backed map opened on bytes, from the `fst` crate.
#[verifier::external_type_specification]
#[verifier::external_body]
#[verifier::reject_recursive_types(D)]
pub struct ExMap<D>(fst::Map<D>);

/// The pairs of an opened map, in key order; `None` for a map opened on
/// bytes that no builder would write, which must not be read.
pub uninterp spec fn map_image(map: fst::Map<&[u8]>) -> Option<Entries>;

/// Calls `fst::Map::new`, which accepts the bytes or refuses them. The bytes
/// of a finished builder are accepted; a map that is opened holds what the
/// bytes hold.
#[verifier::external_body]
pub(crate) fn map_open<'a>(block: &'a [u8]) -> (map: Option<fst::Map<&'a [u8]>>)
    ensures
        map is Some <==> fst_opens(block@),
        fst_image(block@) is Some ==> map is Some,
        map matches Some(m) ==> map_image(m) == fst_image(block@),
{
    fst::Map::new(block).ok()
}

/// Calls `fst::Map::get`: the value under `key`, if the map holds the key.
#[verifier::external_body]
pub(crate) fn map_get(map: &fst::Map<&[u8]>, key: &[u8]) -> (value: Option<u64>)
    requires
        map_image(*map) is Some,
    ensures
        match value {
            Some(v) => exists|i: int|
                0 <= i < map_image(*map)->0.len() && #[trigger] map_image(*map)->0[i] == (key@, v),
            None => forall|i: int| 0 <= i < map_image(*map)->0.len() ==> (#[trigger] map_image(*map)->0[i]).0 != key@,
        },
{
    map.get(key)
}

/// Calls `fst::Map::range` with the bound `ge`, `IntoStreamer::into_stream`
/// and `Streamer::next`: the first pair whose key is `key` or comes after
/// it.
#[verifier::external_body]
pub(crate) fn map_first_at_or_after(map: &fst::Map<&[u8]>, key: &[u8]) -> (first: Option<(Vec<u8>, u64)>)
    requires
        map_image(*map) is Some,
    ensures
        match first {
            Some((k, v)) => exists|i: int|
                0 <= i < map_image(*map)->0.len() && #[trigger] map_image(*map)->0[i] == (k@, v) && lex_le(key@, k@)
                    && forall|j: int| 0 <= j < i ==> lex_lt((#[trigger] map_image(*map)->0[j]).0, key@),
            None => forall|i: int|
                0 <= i < map_image(*map)->0.len() ==> lex_lt((#[trigger] map_image(*map)->0[i]).0, key@),
        },
{
    map.range().ge(key).into_stream().next().map(|(k, v)| (k.to_vec(), v))
}

/// Calls `fst::Map::stream` and `Stream::into_byte_vec`: every pair of the
/// map, in key order.
#[verifier::external_body]
pub(crate) fn map_entries(map: &fst::Map<&[u8]>) -> (pairs: Vec<(Vec<u8>, u64)>)
    requires
        map_image(*map) is Some,
    ensures
        Some(entries_view(pairs@)) == map_image(*map),
{
    map.stream().into_byte_vec()
}

/// Calls `fst::Map::range` with the bound `le`, `IntoStreamer::into_stream`
/// and `Stream::into_byte_vec`: the pairs whose key is `key` or comes before
/// it, in key order.
#[verifier::external_body]
pub(crate) fn map_entries_upto(map: &fst::Map<&[u8]>, key: &[u8]) -> (pairs: Vec<(Vec<u8>, u64)>)
    requires
        map_image(*map) is Some,
    ensures
        entries_view(pairs@) == upto(map_image(*map)->0, BoundView::Included(key@)),
{
    map.range().le(key).into_stream().into_byte_vec()
}

/// Calls `fst::Map::range` with the bound `lt`, `IntoStreamer::into_stream`
/// and `Stream::into_byte_vec`: the pairs whose key comes before `key`, in
/// key order.
#[verifier::external_body]
pub(crate) fn map_entries_before(map: &fst::Map<&[u8]>, key: &[u8]) -> (pairs: Vec<(Vec<u8>, u64)>)
    requires
        map_image(*map) is Some,
    ensures
        entries_view(pairs@) == upto(map_image(*map)->0, BoundView::Excluded(key@)),
{
    map.range().lt(key).into_stream().into_byte_vec()
}

/// The pairs of the map that `block` holds that do not lie past `upper`, in
/// key order.
pub(crate) fn fst_within(block: &[u8], upper: &RangeBound) -> (pairs: Vec<(Vec<u8>, u64)>)
    requires
        fst_image(block@) is Some,
    ensures
        entries_view(pairs@) == upto(fst_image(block@)->0, upper@),
{
    match map_open(block) {
        Some(map) => match upper {
            RangeBound::Unbounded => {
                proof {
                    lemma_upto_unbounded(fst_image(block@)->0);
                }
                map_entries(&map)
            },
            RangeBound::Included(key) => map_entries_upto(&map, key.as_slice()),
            RangeBound::Excluded(key) => map_entries_before(&map, key.as_slice()),
        },
        None => vstd::pervasive::unreached(),
    }
}

/// The first pair of the map that `block` holds whose key is `key` or comes
/// after it.
pub(crate) fn fst_first_at_or_after(block: &[u8], key: &[u8]) -> (first: Option<(Vec<u8>, u64)>)
    requires
        fst_image(block@) is Some,
    ensures
        match first {
            Some((k, v)) => exists|i: int|
                0 <= i < fst_image(block@)->0.len() && #[trigger] fst_image(block@)->0[i] == (k@, v) && lex_le(
                    key@,
                    k@,
                ) && forall|j: int| 0 <= j < i ==> lex_lt((#[trigger] fst_image(block@)->0[j]).0, key@),
            None => forall|i: int|
                0 <= i < fst_image(block@)->0.len() ==> lex_lt((#[trigger] fst_image(block@)->0[i]).0, key@),
        },
{
    match map_open(block) {
        Some(map) => {
            let first = map_first_at_or_after(&map, key);
            proof {
                let e = fst_image(block@)->0;
                assert(map_image(map)->0 == e);
                if first is Some {
                    let found = first->0;
                    let i = choose|i: int|
                        0 <= i < e.len() && #[trigger] map_image(map)->0[i] == (found.0@, found.1) && lex_le(
                            key@,
                            found.0@,
                        ) && forall|j: int| 0 <= j < i ==> lex_lt((#[trigger] map_image(map)->0[j]).0, key@);
                    assert(e[i] == (found.0@, found.1));
                }
            }
            first
        },
        None => vstd::pervasive::unreached(),
    }
}

/// Every pair of the map that `block` holds, in key order.
pub(crate) fn fst_entries(block: &[u8]) -> (pairs: Vec<(Vec<u8>, u64)>)
    requires
        fst_image(block@) is Some,
    ensures
        entries_view(pairs@) == fst_image(block@)->0,
{
    match map_open(block) {
        Some(map) => map_entries(&map),
        None => vstd::pervasive::unreached(),
    }
}

/// The value under `key` in the map that `block` holds.
pub(crate) fn fst_get(block: &[u8], key: &[u8]) -> (value: Option<u64>)
    requires
        fst_image(block@) is Some,
    ensures
        match value {
            Some(v) => exists|i: int|
                0 <= i < fst_image(block@)->0.len() && #[trigger] fst_image(block@)->0[i] == (key@, v),
            None => forall|i: int| 0 <= i < fst_image(block@)->0.len() ==> (#[trigger] fst_image(block@)->0[i]).0 != key@,
        },
{
    match map_open(block) {
        Some(map) => {
            let value = map_get(&map, key);
            proof {
                let e = fst_image(block@)->0;
                assert(map_image(map)->0 == e);
                if value is Some {
                    let i = choose|i: int| 0 <= i < e.len() && #[trigger] map_image(map)->0[i] == (key@, value->0);
                    assert(e[i] == (key@, value->0));
                }
            }
            value
        },
        None => vstd::pervasive::unreached(),
    }
}

/// The payload of the block framed at `offset`: a `u32` length, then that
/// many bytes, all inside the file.
pub open spec fn block_at(file: Seq<u8>, offset: int) -> Option<Seq<u8>> {
    if 0 <= offset && offset + 4 <= file.len() {
        let len = spec_u32_from_le_bytes(file.subrange(offset, offset + 4)) as int;
        if offset + 4 + len <= file.len() {
            Some(file.subrange(offset + 4, offset + 4 + len))
        } else {
            None
        }
    } else {
        None
    }
}

/// The pairs of the block framed at `offset`.
pub open spec fn block_entries(file: Seq<u8>, offset: int) -> Option<Entries> {
    match block_at(file, offset) {
        Some(payload) => fst_image(payload),
        None => None,
    }
}

/// The payload of the block framed at `offset`, or `None` where the frame
/// does not fit inside the file.
pub fn block_payload(file: &[u8], offset: u64) -> (payload: Option<&[u8]>)
    ensures
        match block_at(file@, offset as int) {
            Some(p) => payload matches Some(slice) && slice@ == p,
            None => payload is None,
        },
{
    let len = file.len();
    if offset > len as u64 {
        return None;
    }
    let start = offset as usize;
    if len - start < 4 {
        return None;
    }
    let frame = slice_subrange(file, start, start + 4);
    let size = u32_from_le_bytes(frame) as u64;
    if size > (len - start - 4) as u64 {
        return None;
    }
    let size = size as usize;
    Some(slice_subrange(file, start + 4, start + 4 + size))
}

/// How many entries have a key that comes strictly before `k`.
pub open spec fn rank(e: Entries, k: Seq<u8>) -> int
    decreases e.len(),
{
    if e.len() == 0 {
        0
    } else {
        rank(e.drop_last(), k) + if lex_lt(e.last().0, k) {
            1int
        } else {
            0int
        }
    }
}

/// In entries with rising keys, the rank of `k` splits the keys before `k`
/// from the others.
pub proof fn lemma_rank(e: Entries, k: Seq<u8>)
    requires
        keys_increase(e),
    ensures
        0 <= rank(e, k) <= e.len(),
        forall|i: int| 0 <= i < rank(e, k) ==> lex_lt((#[trigger] e[i]).0, k),
        forall|i: int| rank(e, k) <= i < e.len() ==> lex_le(k, (#[trigger] e[i]).0),
    decreases e.len(),
{
    if e.len() > 0 {
        let front = e.drop_last();
        assert forall|i: int, j: int| 0 <= i < j < front.len() implies lex_lt(
            #[trigger] front[i].0,
            #[trigger] front[j].0,
        ) by {
            assert(lex_lt(e[i].0, e[j].0));
        }
        lemma_rank(front, k);
        let last = e.last().0;
        lemma_lex_total(last, k);
        if lex_lt(last, k) {
            assert forall|i: int| 0 <= i < front.len() implies lex_lt((#[trigger] front[i]).0, k) by {
                assert(lex_lt(e[i].0, e[e.len() - 1].0));
                lemma_lex_transitive(front[i].0, last, k);
            }
            if rank(front, k) < front.len() {
                let i = rank(front, k);
                assert(lex_le(k, front[i].0));
                assert(lex_lt(front[i].0, k));
                lemma_lex_asymmetric(front[i].0, k);
            }
            assert forall|i: int| 0 <= i < rank(e, k) implies lex_lt((#[trigger] e[i]).0, k) by {
                if i < front.len() {
                    assert(lex_lt(front[i].0, k));
                }
            }
        } else {
            assert forall|i: int| 0 <= i < rank(e, k) implies lex_lt((#[trigger] e[i]).0, k) by {
                assert(lex_lt(front[i].0, k));
            }
            assert forall|i: int| rank(e, k) <= i < e.len() implies lex_le(k, (#[trigger] e[i]).0) by {
                if i < front.len() {
                    assert(lex_le(k, front[i].0));
                }
            }
        }
    }
}

/// In entries with rising keys, the index below which every key comes
/// before `k` and at which the key does not is the rank of `k`.
pub proof fn lemma_rank_is(e: Entries, k: Seq<u8>, r: int)
    requires
        keys_increase(e),
        0 <= r <= e.len(),
        forall|i: int| 0 <= i < r ==> lex_lt((#[trigger] e[i]).0, k),
        r < e.len() ==> lex_le(k, e[r].0),
    ensures
        rank(e, k) == r,
{
    lemma_rank(e, k);
    let q = rank(e, k);
    if q < r {
        assert(lex_lt(e[q].0, k));
        assert(lex_le(k, e[q].0));
        lemma_lex_asymmetric(e[q].0, k);
    }
    if r < q {
        assert(lex_lt(e[r].0, k));
        lemma_lex_asymmetric(e[r].0, k);
    }
}

/// The value that a lookup of `k` finds in the tree of height `height` rooted
/// at the block at `offset`: each inner block sends the lookup to the child
/// under its first key at or after `k`.
pub open spec fn find_offset(file: Seq<u8>, offset: int, height: nat, k: Seq<u8>) -> Option<u64>
    decreases height,
{
    if height == 0 {
        None
    } else {
        match block_entries(file, offset) {
            None => None,
            Some(e) => {
                let r = rank(e, k);
                if r >= e.len() {
                    None
                } else if height == 1 {
                    if e[r].0 == k {
                        Some(e[r].1)
                    } else {
                        None
                    }
                } else {
                    find_offset(file, e[r].1 as int, (height - 1) as nat, k)
                }
            },
        }
    }
}

/// The lower bound of the child under entry `i` of a block bounded by `lo`.
pub open spec fn child_floor(e: Entries, i: int, lo: Option<Seq<u8>>) -> Option<Seq<u8>> {
    if i == 0 {
        lo
    } else {
        Some(e[i - 1].0)
    }
}

/// The block at `offset` roots a well-formed tree of height `height` whose
/// keys lie above `lo` and end with `hi`: keys rise, and each inner entry is
/// the last key of the child it points to.
pub open spec fn tree(file: Seq<u8>, offset: int, height: nat, lo: Option<Seq<u8>>, hi: Seq<u8>) -> bool
    decreases height,
{
    &&& height >= 1
    &&& block_entries(file, offset) matches Some(e)
    &&& e.len() >= 1
    &&& keys_increase(e)
    &&& above(lo, e[0].0)
    &&& e.last().0 == hi
    &&& height > 1 ==> forall|i: int|
        0 <= i < e.len() ==> tree(file, (#[trigger] e[i]).1 as int, (height - 1) as nat, child_floor(e, i, lo), e[i].0)
}

/// Appending to a file leaves its blocks as they are.
pub proof fn lemma_block_stable(file: Seq<u8>, longer: Seq<u8>, offset: int)
    requires
        file.len() <= longer.len(),
        longer.take(file.len() as int) == file,
        block_at(file, offset) is Some,
    ensures
        block_at(longer, offset) == block_at(file, offset),
{
    assert(longer.subrange(offset, offset + 4) == file.subrange(offset, offset + 4));
    let len = spec_u32_from_le_bytes(file.subrange(offset, offset + 4)) as int;
    assert(longer.subrange(offset + 4, offset + 4 + len) == file.subrange(offset + 4, offset + 4 + len));
}

/// Appending to a file leaves its trees and what lookups find in them as
/// they are.
pub proof fn lemma_tree_stable(
    file: Seq<u8>,
    longer: Seq<u8>,
    offset: int,
    height: nat,
    lo: Option<Seq<u8>>,
    hi: Seq<u8>,
)
    requires
        file.len() <= longer.len(),
        longer.take(file.len() as int) == file,
        tree(file, offset, height, lo, hi),
    ensures
        tree(longer, offset, height, lo, hi),
        forall|k: Seq<u8>| find_offset(longer, offset, height, k) == find_offset(file, offset, height, k),
    decreases height,
{
    lemma_block_stable(file, longer, offset);
    let e = block_entries(file, offset)->0;
    if height > 1 {
        assert forall|i: int| 0 <= i < e.len() implies tree(
            longer,
            (#[trigger] e[i]).1 as int,
            (height - 1) as nat,
            child_floor(e, i, lo),
            e[i].0,
        ) by {
            lemma_tree_stable(file, longer, e[i].1 as int, (height - 1) as nat, child_floor(e, i, lo), e[i].0);
        }
    }
    assert forall|k: Seq<u8>| find_offset(longer, offset, height, k) == find_offset(file, offset, height, k) by {
        let r = rank(e, k);
        lemma_rank(e, k);
        if height > 1 && r < e.len() {
            let child = e[r];
            assert(tree(file, child.1 as int, (height - 1) as nat, child_floor(e, r, lo), child.0));
            lemma_tree_stable(file, longer, child.1 as int, (height - 1) as nat, child_floor(e, r, lo), child.0);
            assert(find_offset(longer, child.1 as int, (height - 1) as nat, k) == find_offset(
                file,
                child.1 as int,
                (height - 1) as nat,
                k,
            ));
        }
    }
}

/// A lookup finds only keys above the floor of the tree and up to its last
/// key.
pub proof fn lemma_found_in_bounds(
    file: Seq<u8>,
    offset: int,
    height: nat,
    lo: Option<Seq<u8>>,
    hi: Seq<u8>,
    k: Seq<u8>,
)
    requires
        tree(file, offset, height, lo, hi),
        find_offset(file, offset, height, k) is Some,
    ensures
        above(lo, k),
        lex_le(k, hi),
    decreases height,
{
    let e = block_entries(file, offset)->0;
    let r = rank(e, k);
    lemma_rank(e, k);
    if height > 1 {
        let child = e[r];
        assert(tree(file, child.1 as int, (height - 1) as nat, child_floor(e, r, lo), child.0));
        lemma_found_in_bounds(file, child.1 as int, (height - 1) as nat, child_floor(e, r, lo), child.0, k);
    }
    // The key lies above the entry before `r`; the first entry lies above the floor.
    if r > 0 {
        assert(lex_lt(e[r - 1].0, k));
        if lo is Some {
            if r - 1 > 0 {
                assert(lex_lt(e[0].0, e[r - 1].0));
                lemma_lex_transitive(lo->0, e[0].0, e[r - 1].0);
            }
            lemma_lex_transitive(lo->0, e[r - 1].0, k);
        }
    }
    if r < e.len() - 1 {
        assert(lex_lt(e[r].0, e[e.len() - 1].0));
        if k != e[r].0 {
            lemma_lex_transitive(k, e[r].0, hi);
        }
    }
}

} // verus!
