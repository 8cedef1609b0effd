//! One level of the cascade that a dictionary file is written from.

use vstd::prelude::*;
use vstd::slice::slice_to_vec;
use crate::datastruct::fst_block::{
    Entries, builder_entries, builder_insert, builder_into_bytes, builder_new, fst_image, fst_opens, fst_size,
};
use crate::datastruct::fst_builder::{LevelView, top_key};
use crate::datastruct::lex::lex_lt;

verus! {

/// The size of the entries of a block being filled: the bytes of each key,
/// and eight bytes for each value.
pub open spec fn entries_size(e: Entries) -> nat
    decreases e.len(),
{
    if e.len() == 0 {
        0
    } else {
        entries_size(e.drop_last()) + e.last().0.len() + 8
    }
}

/// The size of entries as a `usize` tells it: no more than the largest
/// `usize`.
pub open spec fn pending_size(e: Entries) -> nat {
    if entries_size(e) <= usize::MAX {
        entries_size(e)
    } else {
        usize::MAX as nat
    }
}

/// A level is full once it holds two entries or more that take more than
/// `block_size` bytes.
pub open spec fn is_full(v: LevelView, block_size: nat) -> bool {
    v.entries.len() >= 2 && pending_size(v.entries) > block_size
}

/// One level of the cascade: the block being filled, and what it takes to
/// register it one level up once it is written out.
pub struct Level {
    builder: fst::MapBuilder<Vec<u8>>,
    /// The number of entries in the block being filled.
    count: usize,
    /// The size of the entries in the block being filled: the keys, and eight
    /// bytes for each value.
    pending_bytes: usize,
    /// The last key taken.
    last_key: Vec<u8>,
    floor: Ghost<Option<Seq<u8>>>,
}

impl Level {
    /// The entries and the floor of the level.
    pub closed spec fn view(&self) -> LevelView {
        LevelView { entries: builder_entries(self.builder), floor: self.floor@ }
    }

    /// The bookkeeping matches the entries: their number and their size, as
    /// far as a `usize` can tell them.
    pub closed spec fn wf(&self) -> bool {
        let e = builder_entries(self.builder);
        &&& self.count == (if e.len() <= usize::MAX {
            e.len()
        } else {
            usize::MAX as nat
        })
        &&& self.pending_bytes == pending_size(e)
        &&& self.count > 0 ==> self.last_key@ == e.last().0
    }

    /// A level that holds nothing and has written nothing out.
    pub fn new() -> (level: Level)
        ensures
            level.wf(),
            level.view() == (LevelView { entries: Seq::empty(), floor: None }),
    {
        Level { builder: builder_new(), count: 0, pending_bytes: 0, last_key: Vec::new(), floor: Ghost(None) }
    }

    /// Takes an entry whose key comes after the last one.
    pub fn push(&mut self, key: &[u8], value: u64)
        requires
            old(self).wf(),
            old(self).view().entries.len() > 0 ==> lex_lt(old(self).view().entries.last().0, key@),
        ensures
            final(self).wf(),
            final(self).view() == (LevelView {
                entries: old(self).view().entries.push((key@, value)),
                floor: old(self).view().floor,
            }),
    {
        let ghost before = builder_entries(self.builder);
        let taken = builder_insert(&mut self.builder, key, value);
        assert(taken);
        proof {
            assert(before.push((key@, value)).drop_last() == before);
        }
        self.count = self.count.saturating_add(1);
        self.pending_bytes = self.pending_bytes.saturating_add(key.len()).saturating_add(8);
        self.last_key = slice_to_vec(key);
    }

    /// Hands out the finished block and starts an empty one above the last
    /// key.
    pub fn take_block(&mut self) -> (payload: Vec<u8>)
        requires
            old(self).wf(),
            old(self).view().entries.len() >= 1,
        ensures
            final(self).wf(),
            fst_image(payload@) == Some(old(self).view().entries),
            fst_opens(payload@),
            payload@.len() == fst_size(old(self).view().entries),
            final(self).view() == (LevelView { entries: Seq::empty(), floor: top_key(old(self).view()) }),
    {
        let mut builder = builder_new();
        core::mem::swap(&mut self.builder, &mut builder);
        self.floor = Ghost(Some(self.last_key@));
        self.count = 0;
        self.pending_bytes = 0;
        match builder_into_bytes(builder) {
            Some(payload) => payload,
            None => vstd::pervasive::unreached(),
        }
    }

    /// Whether the level holds no entry.
    pub fn is_empty(&self) -> (empty: bool)
        requires
            self.wf(),
        ensures
            empty == (self.view().entries.len() == 0),
    {
        self.count == 0
    }

    /// Whether the level is full for blocks of `block_size` bytes.
    pub fn is_full(&self, block_size: usize) -> (full: bool)
        requires
            self.wf(),
        ensures
            full == is_full(self.view(), block_size as nat),
    {
        self.count >= 2 && self.pending_bytes > block_size
    }

    /// The last key taken by a level that holds an entry.
    pub fn last_key(&self) -> (key: Vec<u8>)
        requires
            self.wf(),
            self.view().entries.len() >= 1,
        ensures
            key@ == self.view().entries.last().0,
    {
        slice_to_vec(self.last_key.as_slice())
    }
}

} // verus!
