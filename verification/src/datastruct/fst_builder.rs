//! The append-only writer of the cascaded dictionary file.

use core::marker::PhantomData;
use vstd::prelude::*;
use vstd::bytes::{
    lemma_auto_spec_u32_to_from_le_bytes, lemma_auto_spec_u64_to_from_le_bytes, spec_u32_to_le_bytes,
    spec_u64_to_le_bytes, u32_to_le_bytes, u64_to_le_bytes,
};
use vstd::slice::slice_to_vec;
use crate::common::serialize::BinarySerializable;
use crate::datastruct::fst_block::{
    Entries, block_at, block_entries, builder_entries, builder_insert, builder_into_bytes, builder_new,
    child_floor, find_offset, fst_image, fst_opens, fst_size, keys_increase, lemma_block_stable,
    lemma_found_in_bounds, lemma_rank,
    lemma_rank_is, lemma_tree_stable, rank, tree,
};
use crate::datastruct::fst_level::{Level, entries_size, is_full};
use crate::datastruct::fstmap::{
    DictionaryError, FstMap, footer_depth, footer_top, holds_dictionary, lemma_opens_as, placed,
};
use crate::datastruct::lex::{
    above, lemma_lex_asymmetric, lemma_lex_total, lemma_lex_transitive, lex_le, lex_lt,
};

verus! {

/// The size, in key bytes and values, past which a block is written out.
pub const DEFAULT_BLOCK_SIZE: usize = 2097152;

/// The entries gathered for the next block of a level, and the last key of
/// the block written before it.
pub ghost struct LevelView {
    /// The entries not yet written out.
    pub entries: Entries,
    /// The last key written out at this level, if any.
    pub floor: Option<Seq<u8>>,
}

/// The last key that a level has taken.
pub open spec fn top_key(v: LevelView) -> Option<Seq<u8>> {
    if v.entries.len() > 0 {
        Some(v.entries.last().0)
    } else {
        v.floor
    }
}

/// The offset recorded for `k`, if any.
pub open spec fn offset_get(offsets: Map<Seq<u8>, u64>, k: Seq<u8>) -> Option<u64> {
    if offsets.dom().contains(k) {
        Some(offsets[k])
    } else {
        None
    }
}

/// The entries of a level rise from above its floor.
pub open spec fn level_sorted(v: LevelView) -> bool {
    &&& keys_increase(v.entries)
    &&& v.entries.len() > 0 ==> above(v.floor, v.entries[0].0)
}

/// The leaf level holds exactly the recorded keys above its floor.
pub open spec fn leaf_ok(v: LevelView, offsets: Map<Seq<u8>, u64>) -> bool {
    &&& level_sorted(v)
    &&& forall|i: int|
        0 <= i < v.entries.len() ==> offsets.dom().contains((#[trigger] v.entries[i]).0) && offsets[v.entries[i].0]
            == v.entries[i].1
    &&& forall|k: Seq<u8>| #[trigger]
        offsets.dom().contains(k) && above(v.floor, k) ==> exists|i: int|
            0 <= i < v.entries.len() && (#[trigger] v.entries[i]).0 == k
}

/// The block at `offset` is a tree of height `height` for the keys above
/// `lo` up to `hi`, and finds each of them at its recorded offset.
#[verifier::opaque]
pub open spec fn answers(
    file: Seq<u8>,
    offset: u64,
    height: nat,
    lo: Option<Seq<u8>>,
    hi: Seq<u8>,
    offsets: Map<Seq<u8>, u64>,
) -> bool {
    &&& tree(file, offset as int, height, lo, hi)
    &&& forall|k: Seq<u8>|
        above(lo, k) && lex_le(k, hi) ==> #[trigger] find_offset(file, offset as int, height, k) == offset_get(
            offsets,
            k,
        )
}

/// Each entry of an inner level points to a block that answers for the keys
/// between the entry before it and itself.
pub open spec fn inner_ok(file: Seq<u8>, v: LevelView, height: nat, offsets: Map<Seq<u8>, u64>) -> bool {
    &&& level_sorted(v)
    &&& forall|i: int|
        0 <= i < v.entries.len() ==> answers(
            file,
            (#[trigger] v.entries[i]).1,
            height,
            child_floor(v.entries, i, v.floor),
            v.entries[i].0,
            offsets,
        )
}

/// The invariant of the levels: the leaf holds the newest keys, every
/// written block is registered one level up, and nothing lies past the last
/// key inserted.
#[verifier::opaque]
pub open spec fn cascade_ok(
    file: Seq<u8>,
    levels: Seq<LevelView>,
    offsets: Map<Seq<u8>, u64>,
    last: Option<Seq<u8>>,
) -> bool {
    &&& levels.len() >= 1
    &&& leaf_ok(levels[0], offsets)
    &&& forall|l: int| 1 <= l < levels.len() ==> inner_ok(file, #[trigger] levels[l], l as nat, offsets)
    &&& forall|l: int| 0 <= l < levels.len() - 1 ==> (#[trigger] levels[l]).floor == top_key(levels[l + 1])
    &&& levels.last().floor is None
    &&& last == top_key(levels[0])
    &&& forall|k: Seq<u8>| #[trigger] offsets.dom().contains(k) ==> last is Some && lex_le(k, last->0)
    &&& forall|l: int|
        0 <= l < levels.len() ==> (top_key(#[trigger] levels[l]) matches Some(t) ==> last is Some && lex_le(
            t,
            last->0,
        ))
}

/// What the invariant says of the recorded keys and the ends of the cascade.
pub proof fn lemma_cascade_facts(
    file: Seq<u8>,
    levels: Seq<LevelView>,
    offsets: Map<Seq<u8>, u64>,
    last: Option<Seq<u8>>,
)
    requires
        cascade_ok(file, levels, offsets, last),
    ensures
        levels.len() >= 1,
        last == top_key(levels[0]),
        levels.last().floor is None,
        leaf_ok(levels[0], offsets),
        forall|k: Seq<u8>| #[trigger] offsets.dom().contains(k) ==> last is Some && lex_le(k, last->0),
        forall|l: int| 0 <= l < levels.len() - 1 ==> (#[trigger] levels[l]).floor == top_key(levels[l + 1]),
        forall|l: int| 1 <= l < levels.len() ==> inner_ok(file, #[trigger] levels[l], l as nat, offsets),
        forall|l: int| 0 <= l < levels.len() ==> level_sorted(#[trigger] levels[l]),
{
    reveal(cascade_ok);
}

/// A single empty level over no keys satisfies the invariant.
pub proof fn lemma_cascade_initial(file: Seq<u8>)
    ensures
        cascade_ok(file, seq![LevelView { entries: Seq::empty(), floor: None }], Map::empty(), None),
{
    reveal(cascade_ok);
}

/// `longer` starts with `file`.
pub open spec fn extends(file: Seq<u8>, longer: Seq<u8>) -> bool {
    file.len() <= longer.len() && longer.take(file.len() as int) == file
}

/// Appending to the file keeps what a block answers.
pub proof fn lemma_answers_stable(
    file: Seq<u8>,
    longer: Seq<u8>,
    offset: u64,
    height: nat,
    lo: Option<Seq<u8>>,
    hi: Seq<u8>,
    offsets: Map<Seq<u8>, u64>,
)
    requires
        extends(file, longer),
        answers(file, offset, height, lo, hi, offsets),
    ensures
        answers(longer, offset, height, lo, hi, offsets),
{
    reveal(answers);
    lemma_tree_stable(file, longer, offset as int, height, lo, hi);
    assert forall|k: Seq<u8>| above(lo, k) && lex_le(k, hi) implies #[trigger] find_offset(
        longer,
        offset as int,
        height,
        k,
    ) == offset_get(offsets, k) by {
        assert(find_offset(longer, offset as int, height, k) == find_offset(file, offset as int, height, k));
    }
}

/// Appending to the file keeps the invariant of the levels.
pub proof fn lemma_cascade_stable(
    file: Seq<u8>,
    longer: Seq<u8>,
    levels: Seq<LevelView>,
    offsets: Map<Seq<u8>, u64>,
    last: Option<Seq<u8>>,
)
    requires
        extends(file, longer),
        cascade_ok(file, levels, offsets, last),
    ensures
        cascade_ok(longer, levels, offsets, last),
{
    reveal(cascade_ok);
    assert forall|l: int| 1 <= l < levels.len() implies inner_ok(longer, #[trigger] levels[l], l as nat, offsets) by {
        lemma_inner_stable(file, longer, levels[l], l as nat, offsets);
    }
}

/// Appending to the file keeps what the entries of a level point to.
pub proof fn lemma_inner_stable(
    file: Seq<u8>,
    longer: Seq<u8>,
    v: LevelView,
    height: nat,
    offsets: Map<Seq<u8>, u64>,
)
    requires
        extends(file, longer),
        inner_ok(file, v, height, offsets),
    ensures
        inner_ok(longer, v, height, offsets),
{
    assert forall|i: int| 0 <= i < v.entries.len() implies answers(
        longer,
        (#[trigger] v.entries[i]).1,
        height,
        child_floor(v.entries, i, v.floor),
        v.entries[i].0,
        offsets,
    ) by {
        lemma_answers_stable(
            file,
            longer,
            v.entries[i].1,
            height,
            child_floor(v.entries, i, v.floor),
            v.entries[i].0,
            offsets,
        );
    }
}

/// A key past every recorded key changes nothing that a block answers.
pub proof fn lemma_answers_grow(
    file: Seq<u8>,
    offset: u64,
    height: nat,
    lo: Option<Seq<u8>>,
    hi: Seq<u8>,
    offsets: Map<Seq<u8>, u64>,
    key: Seq<u8>,
    at: u64,
)
    requires
        answers(file, offset, height, lo, hi, offsets),
        lex_lt(hi, key),
    ensures
        answers(file, offset, height, lo, hi, offsets.insert(key, at)),
{
    reveal(answers);
    assert forall|k: Seq<u8>| above(lo, k) && lex_le(k, hi) implies #[trigger] find_offset(
        file,
        offset as int,
        height,
        k,
    ) == offset_get(offsets.insert(key, at), k) by {
        if k == key {
            lemma_lex_asymmetric(hi, key);
            if k != hi {
                lemma_lex_asymmetric(k, hi);
            }
        }
    }
}

/// In a sorted level every key is at most the last one.
pub proof fn lemma_below_top(v: LevelView, i: int)
    requires
        level_sorted(v),
        0 <= i < v.entries.len(),
    ensures
        lex_le(v.entries[i].0, top_key(v)->0),
{
    if i < v.entries.len() - 1 {
        assert(lex_lt(v.entries[i].0, v.entries[v.entries.len() - 1].0));
    }
}

/// `a` at most `b` and `b` before `c` put `a` before `c`.
pub proof fn lemma_le_lt(a: Seq<u8>, b: Seq<u8>, c: Seq<u8>)
    requires
        lex_le(a, b),
        lex_lt(b, c),
    ensures
        lex_lt(a, c),
{
    if a != b {
        lemma_lex_transitive(a, b, c);
    }
}

/// Taking a key that comes after the last one keeps the invariant.
pub proof fn lemma_cascade_insert(
    file: Seq<u8>,
    levels: Seq<LevelView>,
    offsets: Map<Seq<u8>, u64>,
    last: Option<Seq<u8>>,
    key: Seq<u8>,
    at: u64,
)
    requires
        cascade_ok(file, levels, offsets, last),
        above(last, key),
    ensures
        cascade_ok(
            file,
            levels.update(0, LevelView { entries: levels[0].entries.push((key, at)), floor: levels[0].floor }),
            offsets.insert(key, at),
            Some(key),
        ),
{
    reveal(cascade_ok);
    let leaf = levels[0];
    let grown = LevelView { entries: leaf.entries.push((key, at)), floor: leaf.floor };
    let after = levels.update(0, grown);
    let recorded = offsets.insert(key, at);
    // the leaf
    assert forall|i: int, j: int| 0 <= i < j < grown.entries.len() implies lex_lt(
        #[trigger] grown.entries[i].0,
        #[trigger] grown.entries[j].0,
    ) by {
        if j == leaf.entries.len() {
            lemma_below_top(leaf, i);
            lemma_le_lt(leaf.entries[i].0, last->0, key);
        } else {
            assert(lex_lt(leaf.entries[i].0, leaf.entries[j].0));
        }
    }
    if leaf.entries.len() == 0 {
        assert(leaf.floor == last);
    } else {
        assert(grown.entries[0] == leaf.entries[0]);
    }
    assert forall|i: int| 0 <= i < grown.entries.len() implies recorded.dom().contains(
        (#[trigger] grown.entries[i]).0,
    ) && recorded[grown.entries[i].0] == grown.entries[i].1 by {
        if i < leaf.entries.len() {
            assert(offsets.dom().contains(leaf.entries[i].0));
            lemma_below_top(leaf, i);
            lemma_le_lt(leaf.entries[i].0, last->0, key);
            lemma_lex_asymmetric(leaf.entries[i].0, key);
        }
    }
    assert forall|k: Seq<u8>| #[trigger] recorded.dom().contains(k) && above(grown.floor, k) implies exists|
        i: int,
    | 0 <= i < grown.entries.len() && (#[trigger] grown.entries[i]).0 == k by {
        if k == key {
            assert(grown.entries[leaf.entries.len() as int].0 == k);
        } else {
            assert(offsets.dom().contains(k));
            let i = choose|i: int| 0 <= i < leaf.entries.len() && (#[trigger] leaf.entries[i]).0 == k;
            assert(grown.entries[i].0 == k);
        }
    }
    // the inner levels
    assert forall|l: int| 1 <= l < after.len() implies inner_ok(file, #[trigger] after[l], l as nat, recorded) by {
        let v = levels[l];
        assert(inner_ok(file, v, l as nat, offsets));
        assert forall|i: int| 0 <= i < v.entries.len() implies answers(
            file,
            (#[trigger] v.entries[i]).1,
            l as nat,
            child_floor(v.entries, i, v.floor),
            v.entries[i].0,
            recorded,
        ) by {
            lemma_below_top(v, i);
            assert(lex_le(top_key(v)->0, last->0));
            lemma_le_lt(top_key(v)->0, last->0, key);
            lemma_le_lt(v.entries[i].0, top_key(v)->0, key);
            lemma_answers_grow(
                file,
                v.entries[i].1,
                l as nat,
                child_floor(v.entries, i, v.floor),
                v.entries[i].0,
                offsets,
                key,
                at,
            );
        }
    }
    assert forall|l: int| 0 <= l < after.len() - 1 implies (#[trigger] after[l]).floor == top_key(after[l + 1]) by {
        assert(levels[l].floor == top_key(levels[l + 1]));
    }
    assert forall|k: Seq<u8>| #[trigger] recorded.dom().contains(k) implies lex_le(k, key) by {
        if k != key {
            assert(offsets.dom().contains(k));
            lemma_le_lt(k, last->0, key);
        }
    }
    assert forall|l: int| 0 <= l < after.len() implies (top_key(#[trigger] after[l]) matches Some(t) ==> lex_le(
        t,
        key,
    )) by {
        if l > 0 {
            if top_key(levels[l]) is Some {
                lemma_le_lt(top_key(levels[l])->0, last->0, key);
            }
        }
    }
}


/// The levels after level `level` wrote its entries out as the block at
/// `block` and registered it one level up under its last key.
pub open spec fn spilled(levels: Seq<LevelView>, level: int, block: u64) -> Seq<LevelView> {
    let key = top_key(levels[level])->0;
    let emptied = LevelView { entries: Seq::empty(), floor: Some(key) };
    if level + 1 < levels.len() {
        levels.update(level, emptied).update(
            level + 1,
            LevelView { entries: levels[level + 1].entries.push((key, block)), floor: levels[level + 1].floor },
        )
    } else {
        levels.update(level, emptied).push(LevelView { entries: seq![(key, block)], floor: None })
    }
}

/// The levels once the leaf has taken `key`, whose value will stand at
/// `at`.
pub open spec fn keyed(levels: Seq<LevelView>, key: Seq<u8>, at: nat) -> Seq<LevelView> {
    levels.update(0, LevelView { entries: levels[0].entries.push((key, at as u64)), floor: levels[0].floor })
}

/// What writing out the full levels gives, from level `level` upwards, for a
/// file of `written` bytes: a full level is written out as a block and
/// registered one level up, which may fill that level in turn; the first
/// level that is not full ends it. The result is the levels and the length
/// of the file afterwards, or `BlockTooLarge` where a block to be written is
/// too long for its 32-bit length. There are never more than 255 levels: the
/// top level of 255 is not written out, however full.
pub open spec fn cascade(levels: Seq<LevelView>, level: nat, block_size: nat, written: nat) -> Result<
    (Seq<LevelView>, nat),
    DictionaryError,
>
    decreases 255 - level,
{
    if level < 255 && level < levels.len() && is_full(levels[level as int], block_size) && (level + 1
        < levels.len() || levels.len() < 255) {
        let size = fst_size(levels[level as int].entries);
        if size > u32::MAX {
            Err(DictionaryError::BlockTooLarge)
        } else {
            cascade(spilled(levels, level as int, written as u64), level + 1, block_size, written + 4 + size)
        }
    } else {
        Ok((levels, written))
    }
}

/// Where the leaf level is not full nothing is written out, and nothing
/// fails.
pub proof fn lemma_cascade_rests(levels: Seq<LevelView>, block_size: nat, written: nat)
    requires
        levels.len() >= 1,
        !is_full(levels[0], block_size),
    ensures
        cascade(levels, 0, block_size, written) == Ok::<(Seq<LevelView>, nat), DictionaryError>((levels, written)),
{
}

/// What writing out every level that holds an entry gives, from level
/// `level` upwards, for a file of `written` bytes: the offset of the top
/// block, the number of levels written, and the length of the file before
/// its footer; or `BlockTooLarge` where a block to be written is too long
/// for its 32-bit length. A dictionary without entries has no block, and 0
/// levels.
pub open spec fn closing(levels: Seq<LevelView>, level: nat, written: nat) -> Result<
    (u64, u8, nat),
    DictionaryError,
>
    decreases levels.len() - level,
{
    if level + 1 < levels.len() {
        if levels[level as int].entries.len() >= 1 {
            let size = fst_size(levels[level as int].entries);
            if size > u32::MAX {
                Err(DictionaryError::BlockTooLarge)
            } else {
                closing(spilled(levels, level as int, written as u64), level + 1, written + 4 + size)
            }
        } else {
            closing(levels, level + 1, written)
        }
    } else if level < levels.len() && levels[level as int].entries.len() >= 1 {
        let size = fst_size(levels[level as int].entries);
        if size > u32::MAX {
            Err(DictionaryError::BlockTooLarge)
        } else {
            Ok((written as u64, (level + 1) as u8, written + 4 + size))
        }
    } else {
        Ok((0, 0, written))
    }
}

/// No key at or below the last key of rising entries has every entry before
/// it.
pub proof fn lemma_rank_below_top(e: Entries, k: Seq<u8>)
    requires
        keys_increase(e),
        e.len() >= 1,
        lex_le(k, e.last().0),
    ensures
        0 <= rank(e, k) < e.len(),
        lex_le(k, e[rank(e, k)].0),
        rank(e, k) > 0 ==> lex_lt(e[rank(e, k) - 1].0, k),
{
    lemma_rank(e, k);
    if rank(e, k) >= e.len() {
        assert(lex_lt(e[e.len() - 1].0, k));
        lemma_lex_asymmetric(e.last().0, k);
        if k != e.last().0 {
            lemma_lex_asymmetric(k, e.last().0);
        }
    }
}

/// A leaf block that holds the entries of the leaf level answers for the
/// keys of that level.
pub proof fn lemma_leaf_block_answers(file: Seq<u8>, block: u64, v: LevelView, offsets: Map<Seq<u8>, u64>)
    requires
        block_entries(file, block as int) == Some(v.entries),
        v.entries.len() >= 1,
        leaf_ok(v, offsets),
    ensures
        answers(file, block, 1, v.floor, top_key(v)->0, offsets),
{
    reveal(answers);
    let e = v.entries;
    let hi = top_key(v)->0;
    assert(tree(file, block as int, 1, v.floor, hi));
    assert forall|k: Seq<u8>| above(v.floor, k) && lex_le(k, hi) implies #[trigger] find_offset(
        file,
        block as int,
        1,
        k,
    ) == offset_get(offsets, k) by {
        lemma_rank_below_top(e, k);
        let r = rank(e, k);
        if offsets.dom().contains(k) {
            let i = choose|i: int| 0 <= i < e.len() && (#[trigger] e[i]).0 == k;
            assert forall|j: int| 0 <= j < i implies lex_lt((#[trigger] e[j]).0, k) by {
                assert(lex_lt(e[j].0, e[i].0));
            }
            lemma_rank_is(e, k, i);
            assert(offsets[e[i].0] == e[i].1);
        } else if e[r].0 == k {
            assert(offsets.dom().contains(e[r].0));
        }
    }
}

/// An inner block that holds the entries of an inner level answers for the
/// keys of that level.
pub proof fn lemma_inner_block_answers(
    file: Seq<u8>,
    block: u64,
    level: nat,
    v: LevelView,
    offsets: Map<Seq<u8>, u64>,
)
    requires
        level >= 1,
        block_entries(file, block as int) == Some(v.entries),
        v.entries.len() >= 1,
        inner_ok(file, v, level, offsets),
    ensures
        answers(file, block, level + 1, v.floor, top_key(v)->0, offsets),
{
    reveal(answers);
    let e = v.entries;
    let hi = top_key(v)->0;
    let height = level + 1;
    assert forall|i: int| 0 <= i < e.len() implies tree(
        file,
        (#[trigger] e[i]).1 as int,
        (height - 1) as nat,
        child_floor(e, i, v.floor),
        e[i].0,
    ) by {
        assert(answers(file, e[i].1, level, child_floor(e, i, v.floor), e[i].0, offsets));
    }
    assert(tree(file, block as int, height, v.floor, hi));
    assert forall|k: Seq<u8>| above(v.floor, k) && lex_le(k, hi) implies #[trigger] find_offset(
        file,
        block as int,
        height,
        k,
    ) == offset_get(offsets, k) by {
        lemma_rank_below_top(e, k);
        let r = rank(e, k);
        let child = e[r];
        assert(answers(file, child.1, level, child_floor(e, r, v.floor), child.0, offsets));
        assert(above(child_floor(e, r, v.floor), k));
        assert(find_offset(file, block as int, height, k) == find_offset(file, child.1 as int, level, k));
    }
}

/// Writing a level out and registering the block one level up keeps the
/// invariant.
pub proof fn lemma_cascade_spill(
    file: Seq<u8>,
    longer: Seq<u8>,
    levels: Seq<LevelView>,
    level: int,
    block: u64,
    offsets: Map<Seq<u8>, u64>,
    last: Option<Seq<u8>>,
)
    requires
        cascade_ok(file, levels, offsets, last),
        extends(file, longer),
        0 <= level < levels.len(),
        levels[level].entries.len() >= 1,
        answers(longer, block, (level + 1) as nat, levels[level].floor, top_key(levels[level])->0, offsets),
    ensures
        cascade_ok(longer, spilled(levels, level, block), offsets, last),
{
    reveal(cascade_ok);
    lemma_cascade_stable(file, longer, levels, offsets, last);
    let after = spilled(levels, level, block);
    let v = levels[level];
    let key = top_key(v)->0;
    let n = levels.len() as int;
    lemma_below_top(v, 0);
    // the leaf
    if level == 0 {
        assert forall|k: Seq<u8>| #[trigger] offsets.dom().contains(k) && above(after[0].floor, k) implies exists|
            i: int,
        | 0 <= i < after[0].entries.len() && (#[trigger] after[0].entries[i]).0 == k by {
            lemma_lex_asymmetric(key, k);
            if k != key {
                lemma_lex_asymmetric(k, key);
            }
        }
    } else {
        assert(after[0] == levels[0]);
    }
    // the level above, which took the block
    let up = after[level + 1];
    let was: Entries = if level + 1 < n {
        levels[level + 1].entries
    } else {
        Seq::empty()
    };
    let up_floor: Option<Seq<u8>> = if level + 1 < n {
        levels[level + 1].floor
    } else {
        None
    };
    assert(up.entries =~= was.push((key, block)));
    assert(up.floor == up_floor);
    let before_key: Option<Seq<u8>> = if was.len() > 0 {
        Some(was.last().0)
    } else {
        up_floor
    };
    assert(before_key == v.floor) by {
        if level + 1 < n {
            assert(levels[level].floor == top_key(levels[level + 1]));
        }
    }
    if v.floor is Some {
        lemma_le_lt(v.floor->0, v.floor->0, v.entries[0].0);
        if v.entries[0].0 != key {
            lemma_lex_transitive(v.floor->0, v.entries[0].0, key);
        }
    }
    assert(above(before_key, key));
    assert forall|i: int, j: int| 0 <= i < j < up.entries.len() implies lex_lt(
        #[trigger] up.entries[i].0,
        #[trigger] up.entries[j].0,
    ) by {
        if j == was.len() {
            lemma_below_top(levels[level + 1], i);
            lemma_le_lt(was[i].0, was.last().0, key);
        } else {
            assert(lex_lt(levels[level + 1].entries[i].0, levels[level + 1].entries[j].0));
        }
    }
    if was.len() > 0 {
        assert(up.entries[0] == was[0]);
    }
    assert(level_sorted(up));
    assert forall|i: int| 0 <= i < up.entries.len() implies answers(
        longer,
        (#[trigger] up.entries[i]).1,
        (level + 1) as nat,
        child_floor(up.entries, i, up.floor),
        up.entries[i].0,
        offsets,
    ) by {
        if i < was.len() {
            assert(inner_ok(longer, levels[level + 1], (level + 1) as nat, offsets));
            assert(answers(
                longer,
                levels[level + 1].entries[i].1,
                (level + 1) as nat,
                child_floor(levels[level + 1].entries, i, up_floor),
                levels[level + 1].entries[i].0,
                offsets,
            ));
            assert(child_floor(up.entries, i, up.floor) == child_floor(levels[level + 1].entries, i, up_floor));
        } else {
            assert(child_floor(up.entries, i, up.floor) == before_key);
        }
    }
    assert(inner_ok(longer, up, (level + 1) as nat, offsets));
    assert forall|l: int| 1 <= l < after.len() implies inner_ok(longer, #[trigger] after[l], l as nat, offsets) by {
        if l == level + 1 {
        } else if l == level {
        } else {
            assert(after[l] == levels[l]);
            assert(inner_ok(longer, levels[l], l as nat, offsets));
        }
    }
    assert forall|l: int| 0 <= l < after.len() - 1 implies (#[trigger] after[l]).floor == top_key(after[l + 1]) by {
        if l == level {
        } else if l == level - 1 {
            assert(levels[l].floor == top_key(levels[l + 1]));
        } else if l == level + 1 {
            assert(levels[l].floor == top_key(levels[l + 1]));
        } else {
            assert(levels[l].floor == top_key(levels[l + 1]));
            assert(after[l] == levels[l]);
            assert(after[l + 1] == levels[l + 1]);
        }
    }
    assert(after.last().floor is None) by {
        if level + 1 < n {
            if level + 1 == n - 1 {
                assert(after.last().floor == levels[n - 1].floor);
            } else {
                assert(after.last() == levels[n - 1]);
            }
        }
    }
    assert(last == top_key(after[0]));
    assert forall|l: int| 0 <= l < after.len() implies (top_key(#[trigger] after[l]) matches Some(t) ==> last
        is Some && lex_le(t, last->0)) by {
        assert(top_key(levels[level]) matches Some(t) ==> last is Some && lex_le(t, last->0));
        if l != level && l != level + 1 {
            assert(after[l] == levels[l]);
            assert(top_key(levels[l]) matches Some(t) ==> last is Some && lex_le(t, last->0));
        }
    }
}

/// Appends `payload` to `file` as a block and returns the offset of the
/// block. A payload longer than a `u32` can tell is refused.
pub fn append_block(file: &mut Vec<u8>, payload: Vec<u8>) -> (res: Result<u64, DictionaryError>)
    ensures
        match res {
            Ok(offset) => {
                &&& payload@.len() <= u32::MAX
                &&& offset == old(file)@.len()
                &&& final(file)@ == old(file)@ + spec_u32_to_le_bytes(payload@.len() as u32) + payload@
                &&& final(file)@.len() == old(file)@.len() + 4 + payload@.len()
                &&& extends(old(file)@, final(file)@)
                &&& block_at(final(file)@, offset as int) == Some(payload@)
            },
            Err(e) => e == DictionaryError::BlockTooLarge && payload@.len() > u32::MAX && final(file)@ == old(
                file,
            )@,
        },
{
    if payload.len() > u32::MAX as usize {
        return Err(DictionaryError::BlockTooLarge);
    }
    let offset = file.len();
    let mut frame = u32_to_le_bytes(payload.len() as u32);
    let mut payload = payload;
    let ghost body = payload@;
    file.append(&mut frame);
    file.append(&mut payload);
    proof {
        lemma_auto_spec_u32_to_from_le_bytes();
        let head = spec_u32_to_le_bytes(body.len() as u32);
        assert(file@.subrange(offset as int, offset + 4) == head);
        assert(file@.subrange(offset + 4, offset + 4 + body.len()) == body);
        assert(file@.take(offset as int) == old(file)@);
    }
    Ok(offset as u64)
}


/// What the levels stand for.
pub open spec fn level_views(levels: Seq<Level>) -> Seq<LevelView> {
    Seq::new(levels.len(), |i: int| levels[i].view())
}

/// The values written so far stand in the file at their recorded offsets;
/// a key that still waits for its value points at the end of the file.
pub open spec fn values_ok<V: BinarySerializable>(
    file: Seq<u8>,
    offsets: Map<Seq<u8>, u64>,
    values: Map<Seq<u8>, V::V>,
    waiting: Option<Seq<u8>>,
) -> bool {
    &&& forall|k: Seq<u8>| #[trigger]
        values.dom().contains(k) ==> offsets.dom().contains(k) && placed::<V>(file, offsets[k] as int, values[k])
    &&& forall|k: Seq<u8>| #[trigger] offsets.dom().contains(k) ==> values.dom().contains(k) || waiting == Some(k)
    &&& waiting matches Some(k) ==> offsets.dom().contains(k) && !values.dom().contains(k) && offsets[k]
        == file.len()
}

/// Appending to the file leaves the written values where they stand.
pub proof fn lemma_values_stable<V: BinarySerializable>(
    file: Seq<u8>,
    longer: Seq<u8>,
    offsets: Map<Seq<u8>, u64>,
    values: Map<Seq<u8>, V::V>,
)
    requires
        extends(file, longer),
        values_ok::<V>(file, offsets, values, None),
    ensures
        values_ok::<V>(longer, offsets, values, None),
{
    assert forall|k: Seq<u8>| #[trigger] values.dom().contains(k) implies placed::<V>(
        longer,
        offsets[k] as int,
        values[k],
    ) by {
        let at = offsets[k] as int;
        let n = V::encode(values[k]).len() as int;
        assert(longer.subrange(at, at + n) == file.subrange(at, at + n));
    }
}

/// Builds a dictionary file in memory. Keys come in strictly rising order,
/// each followed by its value.
pub struct FstMapBuilder<V: BinarySerializable> {
    file: Vec<u8>,
    levels: Vec<Level>,
    block_size: usize,
    waiting: bool,
    offsets: Ghost<Map<Seq<u8>, u64>>,
    values: Ghost<Map<Seq<u8>, V::V>>,
    _phantom_: PhantomData<V>,
}

impl<V: BinarySerializable> FstMapBuilder<V> {
    /// The keys inserted so far, each with its value. A key that still waits
    /// for its value is not among them.
    pub closed spec fn entries(&self) -> Map<Seq<u8>, V::V> {
        self.values@
    }

    /// The last key inserted.
    pub closed spec fn last_key(&self) -> Option<Seq<u8>> {
        top_key(self.levels@[0].view())
    }

    /// Whether the last key inserted still waits for its value.
    pub closed spec fn awaits_value(&self) -> bool {
        self.waiting
    }

    /// The levels of the cascade, the leaf level first: for each the entries
    /// gathered for its next block.
    pub closed spec fn levels(&self) -> Seq<LevelView> {
        level_views(self.levels@)
    }

    /// The number of bytes written to the file so far.
    pub closed spec fn written(&self) -> nat {
        self.file@.len()
    }

    /// The size past which a level is written out.
    pub closed spec fn block_size(&self) -> nat {
        self.block_size as nat
    }

    /// Validity of the builder.
    pub closed spec fn wf(&self) -> bool {
        &&& 1 <= self.levels@.len() <= 255
        &&& forall|l: int| 0 <= l < self.levels@.len() ==> (#[trigger] self.levels@[l]).wf()
        &&& cascade_ok(self.file@, level_views(self.levels@), self.offsets@, self.last_key())
        &&& values_ok::<V>(
            self.file@,
            self.offsets@,
            self.values@,
            if self.waiting {
                self.last_key()
            } else {
                None
            },
        )
        &&& self.waiting ==> self.last_key() is Some
    }

    /// A builder that writes a block out once its entries take more than two
    /// mebibytes.
    pub fn new() -> (res: Result<FstMapBuilder<V>, DictionaryError>)
        ensures
            res matches Ok(builder) && builder.wf() && builder.entries() == Map::<Seq<u8>, V::V>::empty()
                && builder.last_key() is None && !builder.awaits_value() && builder.block_size()
                == DEFAULT_BLOCK_SIZE && builder.written() == 0 && builder.levels() == seq![
                LevelView { entries: Seq::empty(), floor: None },
            ],
    {
        Ok(Self::with_block_size(DEFAULT_BLOCK_SIZE))
    }

    /// A builder that writes a block out once its entries take more than
    /// `block_size` bytes.
    pub fn with_block_size(block_size: usize) -> (builder: FstMapBuilder<V>)
        ensures
            builder.wf(),
            builder.entries() == Map::<Seq<u8>, V::V>::empty(),
            builder.last_key() is None,
            !builder.awaits_value(),
            builder.block_size() == block_size,
            builder.written() == 0,
            builder.levels() == seq![LevelView { entries: Seq::empty(), floor: None }],
    {
        let mut levels: Vec<Level> = Vec::new();
        levels.push(Level::new());
        let builder = FstMapBuilder {
            file: Vec::new(),
            levels,
            block_size,
            waiting: false,
            offsets: Ghost(Map::empty()),
            values: Ghost(Map::empty()),
            _phantom_: PhantomData,
        };
        proof {
            lemma_cascade_initial(builder.file@);
            assert(level_views(builder.levels@) =~= seq![LevelView { entries: Seq::empty(), floor: None }]);
        }
        builder
    }

    /// Takes the next key, which comes after every key inserted before. Its
    /// value is to follow.
    pub fn insert_key(&mut self, key: &[u8]) -> (res: Result<(), DictionaryError>)
        requires
            old(self).wf(),
            !old(self).awaits_value(),
            above(old(self).last_key(), key@),
        ensures
            res is Ok,
            final(self).wf(),
            final(self).awaits_value(),
            final(self).last_key() == Some(key@),
            final(self).entries() == old(self).entries(),
            final(self).levels() == keyed(old(self).levels(), key@, old(self).written()),
            final(self).written() == old(self).written(),
            final(self).block_size() == old(self).block_size(),
    {
        let ghost views = level_views(self.levels@);
        let ghost last = self.last_key();
        let at = self.file.len() as u64;
        proof {
            assert(views[0] == self.levels@[0].view());
            lemma_cascade_insert(self.file@, views, self.offsets@, last, key@, at);
            lemma_cascade_facts(self.file@, views, self.offsets@, last);
        }
        self.levels[0].push(key, at);
        self.offsets = Ghost(self.offsets@.insert(key@, at));
        self.waiting = true;
        proof {
            let grown = LevelView { entries: views[0].entries.push((key@, at)), floor: views[0].floor };
            assert(level_views(self.levels@) =~= views.update(0, grown));
            assert forall|k: Seq<u8>| #[trigger] self.values@.dom().contains(k) implies k != key@ by {
                if k == key@ {
                    assert(old(self).offsets@.dom().contains(k));
                    lemma_le_lt(k, last->0, key@);
                    lemma_lex_asymmetric(k, key@);
                }
            }
        }
        Ok(())
    }
}


impl<V: BinarySerializable> FstMapBuilder<V> {
    /// Writes level `level` out as a block and registers the block one level
    /// up, under the last key of the level.
    fn spill(&mut self, level: usize) -> (res: Result<(), DictionaryError>)
        requires
            old(self).wf(),
            !old(self).waiting,
            level < old(self).levels@.len(),
            old(self).levels@[level as int].view().entries.len() >= 1,
            level + 1 < old(self).levels@.len() || old(self).levels@.len() < 255,
        ensures
            match res {
                Ok(()) => {
                    &&& final(self).wf()
                    &&& !final(self).waiting
                    &&& final(self).values@ == old(self).values@
                    &&& final(self).offsets@ == old(self).offsets@
                    &&& final(self).block_size == old(self).block_size
                    &&& final(self).last_key() == old(self).last_key()
                    &&& final(self).levels@.len() == (if level + 1 < old(self).levels@.len() {
                        old(self).levels@.len()
                    } else {
                        old(self).levels@.len() + 1
                    })
                    &&& forall|j: int|
                        0 <= j < level ==> (#[trigger] final(self).levels@[j]).view() == old(self).levels@[j].view()
                    &&& final(self).levels@[level as int].view().entries.len() == 0
                    &&& final(self).levels@[level as int].view().floor == top_key(
                        old(self).levels@[level as int].view(),
                    )
                    &&& level_views(final(self).levels@) == spilled(
                        level_views(old(self).levels@),
                        level as int,
                        old(self).file@.len() as u64,
                    )
                    &&& final(self).file@.len() == old(self).file@.len() + 4 + fst_size(
                        old(self).levels@[level as int].view().entries,
                    )
                },
                Err(e) => e == DictionaryError::BlockTooLarge,
            },
            res is Err <==> fst_size(old(self).levels@[level as int].view().entries) > u32::MAX,
    {
        let ghost views = level_views(self.levels@);
        let ghost last = self.last_key();
        let ghost v = views[level as int];
        let ghost file = self.file@;
        proof {
            assert(v == self.levels@[level as int].view());
            assert(views[0] == self.levels@[0].view());
            lemma_cascade_facts(file, views, self.offsets@, last);
            assert(self.levels@[level as int].wf());
        }
        let key = self.levels[level].last_key();
        let payload = self.levels[level].take_block();
        let block = match append_block(&mut self.file, payload) {
            Ok(block) => block,
            Err(e) => {
                return Err(e);
            },
        };
        proof {
            lemma_cascade_stable(file, self.file@, views, self.offsets@, last);
            lemma_cascade_facts(self.file@, views, self.offsets@, last);
            assert(block_entries(self.file@, block as int) == Some(v.entries));
            if level == 0 {
                lemma_leaf_block_answers(self.file@, block, v, self.offsets@);
            } else {
                assert(inner_ok(self.file@, views[level as int], level as nat, self.offsets@));
                lemma_inner_block_answers(self.file@, block, level as nat, v, self.offsets@);
            }
            lemma_cascade_spill(file, self.file@, views, level as int, block, self.offsets@, last);
            lemma_values_stable::<V>(file, self.file@, self.offsets@, self.values@);
            assert(level_sorted(v));
            lemma_below_top(v, 0);
            if level + 1 < views.len() {
                assert(views[level as int].floor == top_key(views[level + 1]));
                assert(views[level + 1] == self.levels@[level + 1].view());
                if v.floor is Some {
                    lemma_le_lt(v.floor->0, v.floor->0, v.entries[0].0);
                    if v.entries[0].0 != key@ {
                        lemma_lex_transitive(v.floor->0, v.entries[0].0, key@);
                    }
                }
            }
        }
        if level + 1 == self.levels.len() {
            self.levels.push(Level::new());
        }
        let ghost mid = self.levels@;
        proof {
            assert(mid[level + 1].wf());
        }
        self.levels[level + 1].push(key.as_slice(), block);
        proof {
            let after = spilled(views, level as int, block);
            assert(level_views(self.levels@).len() == after.len());
            assert forall|j: int| 0 <= j < after.len() implies level_views(self.levels@)[j] == after[j] by {
                if j == level {
                } else if j == level + 1 {
                } else {
                    assert(self.levels@[j] == old(self).levels@[j]);
                    assert(views[j] == old(self).levels@[j].view());
                }
            }
            assert(level_views(self.levels@) =~= after);
            assert forall|l: int| 0 <= l < self.levels@.len() implies (#[trigger] self.levels@[l]).wf() by {
                if l != level && l != level + 1 {
                    assert(self.levels@[l] == old(self).levels@[l]);
                }
            }
            lemma_cascade_facts(self.file@, after, self.offsets@, last);
            assert(after[0] == self.levels@[0].view());
        }
        Ok(())
    }

    /// Writes the value of the key inserted last, then writes out every level
    /// that has grown past the block size.
    pub fn insert_value(&mut self, value: &V) -> (res: Result<(), DictionaryError>)
        requires
            old(self).wf(),
            old(self).awaits_value(),
            V::encodable(value@),
        ensures
            match cascade(
                old(self).levels(),
                0,
                old(self).block_size(),
                old(self).written() + V::encode(value@).len(),
            ) {
                Err(e) => res == Err::<(), DictionaryError>(e),
                Ok((levels, written)) => {
                    &&& res is Ok
                    &&& final(self).wf()
                    &&& !final(self).awaits_value()
                    &&& final(self).last_key() == old(self).last_key()
                    &&& final(self).entries() == old(self).entries().insert(old(self).last_key()->0, value@)
                    &&& final(self).levels() == levels
                    &&& final(self).written() == written
                    &&& final(self).block_size() == old(self).block_size()
                },
            },
    {
        let ghost views = level_views(self.levels@);
        let ghost last = self.last_key();
        let ghost key = last->0;
        let ghost file = self.file@;
        let ghost at = self.offsets@[key] as int;
        value.serialize(&mut self.file);
        self.values = Ghost(self.values@.insert(key, value@));
        self.waiting = false;
        proof {
            assert(extends(file, self.file@)) by {
                assert(self.file@.take(file.len() as int) == file);
            }
            lemma_cascade_stable(file, self.file@, views, self.offsets@, last);
            let n = V::encode(value@).len() as int;
            assert(self.file@.subrange(at, at + n) == V::encode(value@));
            assert forall|k: Seq<u8>| #[trigger] self.values@.dom().contains(k) implies placed::<V>(
                self.file@,
                self.offsets@[k] as int,
                self.values@[k],
            ) by {
                if k != key {
                    let o = self.offsets@[k] as int;
                    let m = V::encode(self.values@[k]).len() as int;
                    assert(old(self).values@.dom().contains(k));
                    assert(self.file@.subrange(o, o + m) == file.subrange(o, o + m));
                }
            }
        }
        let ghost grown = self.file@.len();
        let mut level: usize = 0;
        while level < self.levels.len() && self.levels[level].is_full(self.block_size) && (level + 1
            < self.levels.len() || self.levels.len() < 255)
            invariant
                self.wf(),
                !self.waiting,
                level <= self.levels@.len(),
                self.values@ == old(self).values@.insert(key, value@),
                self.last_key() == last,
                self.block_size == old(self).block_size,
                views == level_views(old(self).levels@),
                grown == old(self).file@.len() + V::encode(value@).len(),
                cascade(views, 0, self.block_size as nat, grown) == cascade(
                    level_views(self.levels@),
                    level as nat,
                    self.block_size as nat,
                    self.file@.len(),
                ),
            decreases 256 - level,
        {
            let ghost now = level_views(self.levels@);
            let ghost len = self.file@.len();
            proof {
                assert(self.levels@[level as int].wf());
                assert(now[level as int] == self.levels@[level as int].view());
                assert(is_full(now[level as int], self.block_size as nat));
                assert(level < 255 && level < now.len());
                assert(cascade(now, level as nat, self.block_size as nat, len) == (if fst_size(
                    now[level as int].entries,
                ) > u32::MAX {
                    Err::<(Seq<LevelView>, nat), DictionaryError>(DictionaryError::BlockTooLarge)
                } else {
                    cascade(
                        spilled(now, level as int, len as u64),
                        (level + 1) as nat,
                        self.block_size as nat,
                        len + 4 + fst_size(now[level as int].entries),
                    )
                }));
            }
            match self.spill(level) {
                Ok(()) => {},
                Err(e) => {
                    return Err(e);
                },
            }
            level = level + 1;
        }
        Ok(())
    }

    /// Takes a key, which comes after every key inserted before, and its
    /// value.
    pub fn insert(&mut self, key: &[u8], value: &V) -> (res: Result<(), DictionaryError>)
        requires
            old(self).wf(),
            !old(self).awaits_value(),
            above(old(self).last_key(), key@),
            V::encodable(value@),
        ensures
            match cascade(
                keyed(old(self).levels(), key@, old(self).written()),
                0,
                old(self).block_size(),
                old(self).written() + V::encode(value@).len(),
            ) {
                Err(e) => res == Err::<(), DictionaryError>(e),
                Ok((levels, written)) => {
                    &&& res is Ok
                    &&& final(self).wf()
                    &&& !final(self).awaits_value()
                    &&& final(self).last_key() == Some(key@)
                    &&& final(self).entries() == old(self).entries().insert(key@, value@)
                    &&& final(self).levels() == levels
                    &&& final(self).written() == written
                    &&& final(self).block_size() == old(self).block_size()
                },
            },
    {
        match self.insert_key(key) {
            Ok(()) => self.insert_value(value),
            Err(e) => Err(e),
        }
    }

    /// Writes out every level below the top one that holds an entry, from the
    /// leaf level upwards.
    fn flush_below_top(&mut self) -> (res: Result<(), DictionaryError>)
        requires
            old(self).wf(),
            !old(self).waiting,
        ensures
            match res {
                Ok(()) => {
                    &&& final(self).wf()
                    &&& !final(self).waiting
                    &&& final(self).values@ == old(self).values@
                    &&& final(self).last_key() == old(self).last_key()
                    &&& final(self).levels@.len() == old(self).levels@.len()
                    &&& top_key(final(self).levels@.last().view()) == old(self).last_key()
                    &&& closing(level_views(old(self).levels@), 0, old(self).file@.len()) == closing(
                        level_views(final(self).levels@),
                        (final(self).levels@.len() - 1) as nat,
                        final(self).file@.len(),
                    )
                },
                Err(e) => closing(level_views(old(self).levels@), 0, old(self).file@.len()) == Err::<
                    (u64, u8, nat),
                    DictionaryError,
                >(e),
            },
    {
        let n = self.levels.len();
        let ghost last = self.last_key();
        let ghost outcome = closing(level_views(self.levels@), 0, self.file@.len());
        let mut level: usize = 0;
        proof {
            assert(level_views(self.levels@)[0] == self.levels@[0].view());
        }
        while level + 1 < n
            invariant
                self.wf(),
                outcome == closing(level_views(old(self).levels@), 0, old(self).file@.len()),
                outcome == closing(level_views(self.levels@), level as nat, self.file@.len()),
                !self.waiting,
                self.levels@.len() == n,
                n == old(self).levels@.len(),
                level < n,
                self.values@ == old(self).values@,
                self.last_key() == last,
                last == old(self).last_key(),
                top_key(self.levels@[level as int].view()) == last,
            decreases n - level,
        {
            let ghost was = self.levels@[level as int].view();
            let ghost now = level_views(self.levels@);
            let ghost len = self.file@.len();
            proof {
                assert(self.levels@[level as int].wf());
                assert(now[level as int] == was);
                assert(closing(now, level as nat, len) == (if was.entries.len() >= 1 {
                    if fst_size(was.entries) > u32::MAX {
                        Err::<(u64, u8, nat), DictionaryError>(DictionaryError::BlockTooLarge)
                    } else {
                        closing(
                            spilled(now, level as int, len as u64),
                            (level + 1) as nat,
                            len + 4 + fst_size(was.entries),
                        )
                    }
                } else {
                    closing(now, (level + 1) as nat, len)
                }));
            }
            if !self.levels[level].is_empty() {
                match self.spill(level) {
                    Ok(()) => {},
                    Err(e) => {
                        return Err(e);
                    },
                }
            }
            proof {
                let here = self.levels@[level as int].view();
                let next = self.levels@[level + 1].view();
                assert(here.entries.len() == 0);
                assert(here.floor == last);
                assert(here.floor == top_key(next)) by {
                    let views = level_views(self.levels@);
                    lemma_cascade_facts(self.file@, views, self.offsets@, last);
                    assert(views[level as int] == here);
                    assert(views[level + 1] == next);
                }
            }
            level = level + 1;
        }
        Ok(())
    }

    /// Writes out what the levels still hold, then the footer, and returns
    /// the file.
    pub fn finish(self) -> (res: Result<Vec<u8>, DictionaryError>)
        requires
            self.wf(),
            !self.awaits_value(),
        ensures
            match closing(self.levels(), 0, self.written()) {
                Err(e) => res == Err::<Vec<u8>, DictionaryError>(e),
                Ok((top, depth, written)) => {
                    &&& res matches Ok(file)
                    &&& file@.len() == written + 9
                    &&& footer_top(file@) == top
                    &&& footer_depth(file@) == depth
                    &&& holds_dictionary::<V>(file@, self.entries())
                    &&& FstMap::<V>::refused(file@) is None
                },
            },
    {
        let mut this = self;
        let ghost last = this.last_key();
        match this.flush_below_top() {
            Ok(()) => {},
            Err(e) => {
                return Err(e);
            },
        }
        let level: usize = this.levels.len() - 1;
        let ghost views = level_views(this.levels@);
        let ghost file = this.file@;
        let ghost top_view = views[level as int];
        proof {
            lemma_cascade_facts(file, views, this.offsets@, last);
            assert(top_view == this.levels@[level as int].view());
            assert(this.levels@[level as int].wf());
            assert(views.last() == top_view);
            assert(closing(views, level as nat, file.len()) == (if top_view.entries.len() >= 1 {
                if fst_size(top_view.entries) > u32::MAX {
                    Err::<(u64, u8, nat), DictionaryError>(DictionaryError::BlockTooLarge)
                } else {
                    Ok::<(u64, u8, nat), DictionaryError>(
                        (file.len() as u64, (level + 1) as u8, file.len() + 4 + fst_size(top_view.entries)),
                    )
                }
            } else {
                Ok::<(u64, u8, nat), DictionaryError>((0, 0, file.len()))
            }));
        }
        let mut top: u64 = 0;
        let mut depth: u8 = 0;
        let ghost mut top_payload: Seq<u8> = Seq::empty();
        if !this.levels[level].is_empty() {
            let payload = this.levels[level].take_block();
            proof {
                top_payload = payload@;
            }
            top = match append_block(&mut this.file, payload) {
                Ok(block) => block,
                Err(e) => {
                    return Err(e);
                },
            };
            depth = (level + 1) as u8;
            proof {
                lemma_cascade_stable(file, this.file@, views, this.offsets@, last);
                lemma_cascade_facts(this.file@, views, this.offsets@, last);
                lemma_values_stable::<V>(file, this.file@, this.offsets@, this.values@);
                assert(block_entries(this.file@, top as int) == Some(top_view.entries));
                if level == 0 {
                    lemma_leaf_block_answers(this.file@, top, top_view, this.offsets@);
                } else {
                    assert(inner_ok(this.file@, views[level as int], level as nat, this.offsets@));
                    lemma_inner_block_answers(this.file@, top, level as nat, top_view, this.offsets@);
                }
            }
        }
        let ghost body = this.file@;
        let mut top_field = u64_to_le_bytes(top);
        this.file.append(&mut top_field);
        this.file.push(depth);
        proof {
            let done = this.file@;
            lemma_auto_spec_u64_to_from_le_bytes();
            assert(done.subrange(done.len() - 9, done.len() - 1) == spec_u64_to_le_bytes(top));
            assert(footer_top(done) == top);
            assert(footer_depth(done) == depth);
            assert(extends(body, done)) by {
                assert(done.take(body.len() as int) == body);
            }
            lemma_values_stable::<V>(body, done, this.offsets@, this.values@);
            lemma_finished::<V>(body, done, top, depth as nat, top_view, this.offsets@, this.values@, last);
            assert(done.len() == body.len() + 9);
            if depth >= 1 {
                assert(block_at(body, top as int) == Some(top_payload));
                lemma_block_stable(body, done, top as int);
                assert(fst_opens(top_payload));
            }
            assert(FstMap::<V>::refused(done) is None);
        }
        Ok(this.file)
    }

    /// Finishes the file and opens it for lookups.
    pub fn into_map(self) -> (res: Result<FstMap<V>, DictionaryError>)
        requires
            self.wf(),
            !self.awaits_value(),
        ensures
            match closing(self.levels(), 0, self.written()) {
                Err(e) => res == Err::<FstMap<V>, DictionaryError>(e),
                Ok(_) => res matches Ok(map) && map.wf() && map@ == self.entries(),
            },
    {
        let file = match self.finish() {
            Ok(file) => file,
            Err(e) => {
                return Err(e);
            },
        };
        proof {
            let top = footer_top(file@) as int;
            let depth = footer_depth(file@) as nat;
            if depth >= 1 {
                let hi = choose|hi: Seq<u8>| tree(file@, top, depth, None, hi);
                assert(block_entries(file@, top) is Some);
            }
        }
        match FstMap::from_source(file) {
            Ok(map) => {
                proof {
                    lemma_opens_as::<V>(map, self.entries());
                }
                Ok(map)
            },
            Err(_) => vstd::pervasive::unreached(),
        }
    }
}

/// Once the top level is written out and the footer stands behind it, the
/// file holds the dictionary of the inserted keys.
pub proof fn lemma_finished<V: BinarySerializable>(
    body: Seq<u8>,
    done: Seq<u8>,
    top: u64,
    depth: nat,
    top_view: LevelView,
    offsets: Map<Seq<u8>, u64>,
    values: Map<Seq<u8>, V::V>,
    last: Option<Seq<u8>>,
)
    requires
        extends(body, done),
        done.len() >= 9,
        footer_top(done) == top,
        footer_depth(done) == depth,
        values_ok::<V>(done, offsets, values, None),
        top_view.floor is None,
        top_key(top_view) == last,
        forall|k: Seq<u8>| #[trigger] offsets.dom().contains(k) ==> last is Some && lex_le(k, last->0),
        depth == 0 ==> top_view.entries.len() == 0,
        depth >= 1 ==> top_view.entries.len() >= 1 && answers(body, top, depth, None, last->0, offsets),
    ensures
        holds_dictionary::<V>(done, values),
{
    reveal(answers);
    if depth >= 1 {
        lemma_tree_stable(body, done, top as int, depth, None, last->0);
        assert(tree(done, top as int, depth, None, last->0));
    }
    assert forall|k: Seq<u8>|
        match #[trigger] find_offset(done, footer_top(done) as int, footer_depth(done) as nat, k) {
            Some(offset) => values.dom().contains(k) && placed::<V>(done, offset as int, values[k]),
            None => !values.dom().contains(k),
        } by {
        let found = find_offset(done, top as int, depth, k);
        if depth >= 1 {
            assert(found == find_offset(body, top as int, depth, k));
            if found is Some {
                lemma_found_in_bounds(done, top as int, depth, None, last->0, k);
            }
            if values.dom().contains(k) {
                assert(offsets.dom().contains(k));
            }
            if lex_le(k, last->0) {
                assert(found == offset_get(offsets, k));
            }
        } else {
            if values.dom().contains(k) {
                assert(offsets.dom().contains(k));
            }
        }
    }
}

} // verus!
