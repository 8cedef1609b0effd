//! The merge of several sorted term streams, which groups equal terms.

use vstd::prelude::*;
use vstd::slice::slice_to_vec;
use crate::datastruct::fst_stream::FstMapStreamer;
use crate::datastruct::lex::{key_eq, key_lt, lemma_lex_total, lemma_lex_transitive, lex_le, lex_lt};
use crate::termdict::dictionary::TermStreamer;
use crate::termdict::term_info::TermInfo;

verus! {

/// Whether a stream has an entry left to move to.
pub open spec fn has_head(stream: TermStreamer<'_>) -> bool {
    stream.cursor() < stream.limit()
}

/// The term that a stream moves to next.
pub open spec fn head_key(stream: TermStreamer<'_>) -> Seq<u8> {
    stream.map().all_entries()[stream.cursor() as int].0
}

/// `after` is `before` moved on by one entry if `moved`, and `before` itself
/// otherwise.
pub open spec fn stepped(before: TermStreamer<'_>, after: TermStreamer<'_>, moved: bool) -> bool {
    &&& after.wf()
    &&& after.map() == before.map()
    &&& after.first() == before.first()
    &&& after.limit() == before.limit()
    &&& after.cursor() == before.cursor() + if moved {
        1nat
    } else {
        0nat
    }
}

/// Merges sorted term streams, one per segment. Each step yields the least
/// term still ahead in any stream, together with the segments whose stream
/// holds it.
pub struct TermMerger<'a> {
    streams: Vec<TermStreamer<'a>>,
    current: Vec<usize>,
    key: Vec<u8>,
}

impl<'a> TermMerger<'a> {
    /// The streams, by segment.
    pub closed spec fn streams(&self) -> Seq<TermStreamer<'a>> {
        self.streams@
    }

    /// The segments whose stream stands on the current term, ascending.
    pub closed spec fn group(&self) -> Seq<usize> {
        self.current@
    }

    /// The current term.
    pub closed spec fn key_spec(&self) -> Seq<u8> {
        self.key@
    }

    /// Validity: every stream is valid, and the group names streams that
    /// stand on an entry.
    pub closed spec fn wf(&self) -> bool {
        &&& forall|i: int| 0 <= i < self.streams@.len() ==> (#[trigger] self.streams@[i]).wf()
        &&& forall|a: int, b: int| 0 <= a < b < self.current@.len() ==> self.current@[a] < self.current@[b]
        &&& forall|a: int|
            0 <= a < self.current@.len() ==> (#[trigger] self.current@[a]) < self.streams@.len()
                && self.streams@[self.current@[a] as int].cursor() > self.streams@[self.current@[a] as int].first()
    }

    /// The streams of the group stand on an entry.
    pub proof fn lemma_group(&self, a: int)
        requires
            self.wf(),
            0 <= a < self.group().len(),
        ensures
            self.group()[a] < self.streams().len(),
            self.streams()[self.group()[a] as int].wf(),
            self.streams()[self.group()[a] as int].cursor() > self.streams()[self.group()[a] as int].first(),
    {
    }

    /// The merge of `streams`, none of which has moved yet.
    pub fn new(streams: Vec<TermStreamer<'a>>) -> (merger: TermMerger<'a>)
        requires
            forall|i: int| 0 <= i < streams@.len() ==> (#[trigger] streams@[i]).wf(),
        ensures
            merger.wf(),
            merger.streams() == streams@,
            merger.group().len() == 0,
    {
        TermMerger { streams, current: Vec::new(), key: Vec::new() }
    }

    /// Moves to the next term; `false` once every stream is exhausted.
    pub fn advance(&mut self) -> (more: bool)
        requires
            old(self).wf(),
        ensures
            final(self).wf(),
            final(self).streams().len() == old(self).streams().len(),
            more == exists|i: int| 0 <= i < old(self).streams().len() && has_head(#[trigger] old(self).streams()[i]),
            forall|i: int|
                0 <= i < old(self).streams().len() ==> stepped(
                    old(self).streams()[i],
                    #[trigger] final(self).streams()[i],
                    more && has_head(old(self).streams()[i]) && head_key(old(self).streams()[i]) == final(self).key_spec(),
                ),
            more ==> forall|i: int|
                0 <= i < old(self).streams().len() && has_head(#[trigger] old(self).streams()[i]) ==> lex_le(
                    final(self).key_spec(),
                    head_key(old(self).streams()[i]),
                ),
            more ==> final(self).group().len() >= 1,
            forall|i: int|
                0 <= i < old(self).streams().len() ==> (final(self).group().contains(i as usize) <==> more
                    && has_head(#[trigger] old(self).streams()[i]) && head_key(old(self).streams()[i]) == final(self).key_spec()),
            forall|a: int, b: int|
                0 <= a < b < final(self).group().len() ==> final(self).group()[a] < final(self).group()[b],
    {
        let n = self.streams.len();
        let ghost before = self.streams@;
        let mut best: Option<usize> = None;
        let mut i: usize = 0;
        while i < n
            invariant
                i <= n,
                n == self.streams@.len(),
                self.streams@ == before,
                forall|j: int| 0 <= j < n ==> (#[trigger] before[j]).wf(),
                match best {
                    Some(b) => b < i && has_head(before[b as int]) && forall|j: int|
                        0 <= j < i && has_head(#[trigger] before[j]) ==> lex_le(
                            head_key(before[b as int]),
                            head_key(before[j]),
                        ),
                    None => forall|j: int| 0 <= j < i ==> !has_head(#[trigger] before[j]),
                },
            decreases n - i,
        {
            match self.streams[i].peek_key() {
                Some(candidate) => {
                    let better = match best {
                        Some(b) => {
                            let held = self.streams[b].peek_key();
                            key_lt(candidate, held.unwrap())
                        },
                        None => true,
                    };
                    proof {
                        if best is Some {
                            let b = best->0 as int;
                            let c = head_key(before[i as int]);
                            let h = head_key(before[b]);
                            lemma_lex_total(c, h);
                            if better {
                                assert forall|j: int| 0 <= j < i && has_head(#[trigger] before[j]) implies lex_le(
                                    c,
                                    head_key(before[j]),
                                ) by {
                                    if h != head_key(before[j]) {
                                        lemma_lex_transitive(c, h, head_key(before[j]));
                                    }
                                }
                            }
                        }
                    }
                    if better {
                        best = Some(i);
                    }
                },
                None => {},
            }
            i = i + 1;
        }
        self.current.clear();
        let least = match best {
            Some(b) => b,
            None => {
                return false;
            },
        };
        self.key = slice_to_vec(self.streams[least].peek_key().unwrap());
        let ghost key = self.key@;
        let mut i: usize = 0;
        while i < n
            invariant
                i <= n,
                n == self.streams@.len(),
                n == before.len(),
                self.key@ == key,
                least < n,
                has_head(before[least as int]),
                head_key(before[least as int]) == key,
                forall|j: int| 0 <= j < n ==> (#[trigger] before[j]).wf(),
                forall|j: int| i <= j < n ==> #[trigger] self.streams@[j] == before[j],
                forall|j: int|
                    0 <= j < i ==> stepped(
                        before[j],
                        #[trigger] self.streams@[j],
                        has_head(before[j]) && head_key(before[j]) == key,
                    ),
                forall|j: int|
                    0 <= j < n ==> (self.current@.contains(j as usize) <==> j < i && has_head(#[trigger] before[j])
                        && head_key(before[j]) == key),
                forall|a: int| 0 <= a < self.current@.len() ==> (#[trigger] self.current@[a]) < i,
                forall|a: int, b: int| 0 <= a < b < self.current@.len() ==> self.current@[a] < self.current@[b],
                i > least ==> self.current@.len() >= 1,
            decreases n - i,
        {
            let ghost group = self.current@;
            let same = match self.streams[i].peek_key() {
                Some(candidate) => key_eq(candidate, self.key.as_slice()),
                None => false,
            };
            if same {
                let moved = self.streams[i].next();
                self.current.push(i);
                proof {
                    assert(self.current@[group.len() as int] == i);
                    assert forall|j: int| 0 <= j < n implies (self.current@.contains(j as usize) <==> j < i + 1
                        && has_head(#[trigger] before[j]) && head_key(before[j]) == key) by {
                        if group.contains(j as usize) {
                            let a = choose|a: int| 0 <= a < group.len() && group[a] == j as usize;
                            assert(self.current@[a] == j as usize);
                        }
                        if self.current@.contains(j as usize) {
                            let a = choose|a: int| 0 <= a < self.current@.len() && self.current@[a] == j as usize;
                            if a < group.len() {
                                assert(group[a] == j as usize);
                            }
                        }
                    }
                }
            }
            i = i + 1;
        }
        proof {
            assert forall|a: int| 0 <= a < self.current@.len() implies (#[trigger] self.current@[a]) < self.streams@.len()
                && self.streams@[self.current@[a] as int].cursor() > self.streams@[self.current@[a] as int].first() by {
                let j = self.current@[a] as int;
                assert(self.current@.contains(j as usize));
                assert(stepped(before[j], self.streams@[j], true));
                before[j].lemma_bounds();
            }
        }
        true
    }

    /// The current term.
    pub fn key(&self) -> (key: &[u8])
        ensures
            key@ == self.key_spec(),
    {
        self.key.as_slice()
    }

    /// The segments whose stream stands on the current term, ascending.
    pub fn current_kvs(&self) -> (segments: &Vec<usize>)
        ensures
            segments@ == self.group(),
    {
        &self.current
    }

    /// The stream of segment `segment_ord`.
    pub fn streamer(&self, segment_ord: usize) -> (stream: &TermStreamer<'a>)
        requires
            segment_ord < self.streams().len(),
        ensures
            *stream == self.streams()[segment_ord as int],
    {
        &self.streams[segment_ord]
    }
}

} // verus!
