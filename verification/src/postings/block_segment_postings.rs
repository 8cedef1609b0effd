//! The postings of one term, read block by block.

use vstd::prelude::*;
use crate::common::vint::{decode_vint, read_vint, vint_len, vint_value};
use crate::postings::docset::DocId;

verus! {

/// The largest number of docs in a block.
pub const NUM_DOCS_PER_BLOCK: usize = 128;

/// What a reader of postings does with the term frequencies.
#[derive(Clone, Copy, Debug, PartialEq, Eq, Structural)]
pub enum FreqReadingOption {
    /// The postings hold no frequencies.
    NoFreq,
    /// The postings hold frequencies, which are passed over.
    SkipFreq,
    /// The postings hold frequencies, which are read.
    ReadFreq,
}

/// The doc that follows `prev` at distance `gap`: the first doc is its gap,
/// every other doc lies at least one past the doc before.
pub open spec fn next_doc(prev: Option<u32>, gap: u64) -> Option<u32> {
    match prev {
        None => if gap <= u32::MAX {
            Some(gap as u32)
        } else {
            None
        },
        Some(p) => if gap >= 1 && p + gap <= u32::MAX {
            Some((p + gap) as u32)
        } else {
            None
        },
    }
}

/// The `n` postings at the front of `data`, each a doc and a term
/// frequency: the doc as its distance from the doc before, then, where the
/// postings hold frequencies, the frequency. A posting without a recorded
/// frequency counts once.
pub open spec fn records(data: Seq<u8>, n: nat, with_freq: bool, prev: Option<u32>) -> Option<Seq<(u32, u32)>>
    decreases n,
{
    if n == 0 {
        Some(Seq::empty())
    } else {
        match decode_vint(data) {
            None => None,
            Some((gap, a)) => match next_doc(prev, gap) {
                None => None,
                Some(doc) => {
                    if with_freq {
                        match decode_vint(data.skip(a)) {
                            None => None,
                            Some((tf, b)) => if tf > u32::MAX {
                                None
                            } else {
                                match records(data.skip(a + b), (n - 1) as nat, with_freq, Some(doc)) {
                                    None => None,
                                    Some(rest) => Some(seq![(doc, tf as u32)] + rest),
                                }
                            },
                        }
                    } else {
                        match records(data.skip(a), (n - 1) as nat, with_freq, Some(doc)) {
                            None => None,
                            Some(rest) => Some(seq![(doc, 1u32)] + rest),
                        }
                    }
                },
            },
        }
    }
}

/// Postings that can be read hold as many postings as asked for, with
/// docs that rise from above the doc before.
pub proof fn lemma_records(data: Seq<u8>, n: nat, with_freq: bool, prev: Option<u32>)
    requires
        records(data, n, with_freq, prev) is Some,
    ensures
        records(data, n, with_freq, prev)->0.len() == n,
        forall|i: int|
            0 <= i < n ==> (prev matches Some(p) ==> p < (#[trigger] records(data, n, with_freq, prev)->0[i]).0),
        forall|i: int, j: int|
            0 <= i < j < n ==> records(data, n, with_freq, prev)->0[i].0 < records(data, n, with_freq, prev)->0[j].0,
    decreases n,
{
    if n > 0 {
        let gap = vint_value(data);
        let a = vint_len(data);
        let doc = next_doc(prev, gap)->0;
        let rest_data = if with_freq {
            data.skip(a + vint_len(data.skip(a)))
        } else {
            data.skip(a)
        };
        lemma_records(rest_data, (n - 1) as nat, with_freq, Some(doc));
        let rest = records(rest_data, (n - 1) as nat, with_freq, Some(doc))->0;
        let all = records(data, n, with_freq, prev)->0;
        assert(all[0].0 == doc);
        assert forall|i: int| 1 <= i < n implies (#[trigger] all[i]) == rest[i - 1] by {}
        assert forall|i: int, j: int| 0 <= i < j < n implies all[i].0 < all[j].0 by {
            assert(all[j] == rest[j - 1]);
            if i > 0 {
                assert(all[i] == rest[i - 1]);
            }
        }
        assert forall|i: int| 0 <= i < n implies (prev matches Some(p) ==> p < (#[trigger] all[i]).0) by {
            if i > 0 {
                assert(all[i] == rest[i - 1]);
            }
        }
    }
}

/// Reading postings one by one is reading them all at once.
pub proof fn lemma_records_step(data: Seq<u8>, n: nat, with_freq: bool, prev: Option<u32>)
    requires
        n >= 1,
        records(data, n, with_freq, prev) is Some,
    ensures
        decode_vint(data) is Some,
        next_doc(prev, vint_value(data)) is Some,
        with_freq ==> decode_vint(data.skip(vint_len(data))) is Some && vint_value(data.skip(vint_len(data)))
            <= u32::MAX,
{
}

/// Whether the front of `data` holds `doc_freq` postings that can be read.
pub fn holds_postings(data: &[u8], doc_freq: usize, with_freq: bool) -> (ok: bool)
    ensures
        ok == records(data@, doc_freq as nat, with_freq, None) is Some,
{
    let mut pos: usize = 0;
    let mut left: usize = doc_freq;
    let mut prev: Option<u32> = None;
    proof {
        assert(data@.skip(0) == data@);
    }
    while left > 0
        invariant
            pos <= data@.len(),
            left <= doc_freq,
            (records(data@, doc_freq as nat, with_freq, None) is Some) == (records(
                data@.skip(pos as int),
                left as nat,
                with_freq,
                prev,
            ) is Some),
        decreases left,
    {
        let ghost rest = data@.skip(pos as int);
        let (gap, after_gap) = match read_vint(data, pos) {
            Some(read) => read,
            None => {
                return false;
            },
        };
        let doc: u32 = match prev {
            None => {
                if gap > u32::MAX as u64 {
                    return false;
                }
                gap as u32
            },
            Some(p) => {
                if gap < 1 || gap > (u32::MAX - p) as u64 {
                    return false;
                }
                p + gap as u32
            },
        };
        let mut next: usize = after_gap;
        proof {
            assert(rest.skip(after_gap - pos) == data@.skip(after_gap as int));
        }
        if with_freq {
            let (tf, after_tf) = match read_vint(data, after_gap) {
                Some(read) => read,
                None => {
                    return false;
                },
            };
            if tf > u32::MAX as u64 {
                return false;
            }
            next = after_tf;
            proof {
                assert(rest.skip((after_gap - pos) + (after_tf - after_gap)) == data@.skip(after_tf as int));
            }
        }
        pos = next;
        prev = Some(doc);
        left = left - 1;
    }
    true
}

/// The postings of a term, read a block of docs at a time.
pub struct BlockSegmentPostings<'a> {
    data: &'a [u8],
    pos: usize,
    doc_freq: usize,
    remaining: usize,
    prev: Option<u32>,
    option: FreqReadingOption,
    docs: Vec<DocId>,
    freqs: Vec<u32>,
}

impl<'a> BlockSegmentPostings<'a> {
    /// Whether the postings hold frequencies.
    pub closed spec fn with_freq(&self) -> bool {
        !(self.option is NoFreq)
    }

    /// What the reader does with the frequencies.
    pub closed spec fn option(&self) -> FreqReadingOption {
        self.option
    }

    /// Every posting of the term: its doc, and its term frequency.
    pub closed spec fn all(&self) -> Seq<(u32, u32)> {
        records(self.data@, self.doc_freq as nat, !(self.option is NoFreq), None)->0
    }

    /// How many postings the blocks read so far hold.
    pub closed spec fn loaded(&self) -> nat {
        (self.doc_freq - self.remaining) as nat
    }

    /// The docs of the block read last.
    pub closed spec fn block_docs(&self) -> Seq<DocId> {
        self.docs@
    }

    /// The frequencies of the block read last; none unless they are read.
    pub closed spec fn block_freqs(&self) -> Seq<u32> {
        self.freqs@
    }

    /// Validity: the reader stands behind the postings read so far, and what
    /// is left can be read.
    pub closed spec fn wf(&self) -> bool {
        &&& self.remaining <= self.doc_freq
        &&& self.pos <= self.data@.len()
        &&& records(self.data@, self.doc_freq as nat, self.with_freq(), None) is Some
        &&& records(self.data@.skip(self.pos as int), self.remaining as nat, self.with_freq(), self.prev) == Some(
            self.all().skip(self.loaded() as int),
        )
        &&& self.docs@.len() <= self.loaded()
        &&& self.docs@.len() <= NUM_DOCS_PER_BLOCK
        &&& forall|i: int|
            0 <= i < self.docs@.len() ==> #[trigger] self.docs@[i] == self.all()[self.loaded() - self.docs@.len() + i].0
        &&& self.option is ReadFreq ==> self.freqs@.len() == self.docs@.len() && forall|i: int|
            0 <= i < self.docs@.len() ==> #[trigger] self.freqs@[i] == self.all()[self.loaded() - self.docs@.len()
                + i].1
        &&& !(self.option is ReadFreq) ==> self.freqs@.len() == 0
    }

    /// The postings rise, the blocks read so far lie within them, and the
    /// block read last ends where they end.
    pub proof fn lemma_wf(&self)
        requires
            self.wf(),
        ensures
            self.block_docs().len() <= self.loaded() <= self.all().len(),
            forall|i: int, j: int| 0 <= i < j < self.all().len() ==> self.all()[i].0 < self.all()[j].0,
            forall|i: int|
                0 <= i < self.block_docs().len() ==> #[trigger] self.block_docs()[i] == self.all()[self.loaded()
                    - self.block_docs().len() + i].0,
            self.option() is ReadFreq ==> self.block_freqs().len() == self.block_docs().len() && forall|i: int|
                0 <= i < self.block_docs().len() ==> #[trigger] self.block_freqs()[i] == self.all()[self.loaded()
                    - self.block_docs().len() + i].1,
            !(self.option() is ReadFreq) ==> self.block_freqs().len() == 0,
            self.all().len() <= usize::MAX,
    {
        lemma_records(self.data@, self.doc_freq as nat, self.with_freq(), None);
    }

    /// A reader at the start of the `doc_freq` postings that `data` holds.
    pub fn from_data(doc_freq: usize, data: &'a [u8], freq_reading_option: FreqReadingOption) -> (postings: Self)
        requires
            records(data@, doc_freq as nat, !(freq_reading_option is NoFreq), None) is Some,
        ensures
            postings.wf(),
            postings.option() == freq_reading_option,
            postings.all() == records(data@, doc_freq as nat, !(freq_reading_option is NoFreq), None)->0,
            postings.loaded() == 0,
            postings.block_docs().len() == 0,
    {
        let postings = BlockSegmentPostings {
            data,
            pos: 0,
            doc_freq,
            remaining: doc_freq,
            prev: None,
            option: freq_reading_option,
            docs: Vec::new(),
            freqs: Vec::new(),
        };
        proof {
            assert(data@.skip(0) == data@);
            assert(postings.all().skip(0) == postings.all());
        }
        postings
    }

    /// A reader at the start of the `doc_freq` postings that `data` holds, or
    /// `None` where `data` holds no such postings.
    pub fn try_from_data(doc_freq: usize, data: &'a [u8], freq_reading_option: FreqReadingOption) -> (res: Option<
        Self,
    >)
        ensures
            res is Some <==> records(data@, doc_freq as nat, !(freq_reading_option is NoFreq), None) is Some,
            res matches Some(postings) ==> postings.wf() && postings.option() == freq_reading_option
                && postings.all() == records(data@, doc_freq as nat, !(freq_reading_option is NoFreq), None)->0
                && postings.loaded() == 0 && postings.block_docs().len() == 0,
    {
        let with_freq = match freq_reading_option {
            FreqReadingOption::NoFreq => false,
            _ => true,
        };
        if holds_postings(data, doc_freq, with_freq) {
            Some(Self::from_data(doc_freq, data, freq_reading_option))
        } else {
            None
        }
    }

    /// Moves the reader to the start of the `doc_freq` postings that `data`
    /// holds. What it does with the frequencies stays.
    pub fn reset(&mut self, doc_freq: usize, data: &'a [u8])
        requires
            records(data@, doc_freq as nat, old(self).with_freq(), None) is Some,
        ensures
            final(self).wf(),
            final(self).option() == old(self).option(),
            final(self).all() == records(data@, doc_freq as nat, old(self).with_freq(), None)->0,
            final(self).loaded() == 0,
            final(self).block_docs().len() == 0,
    {
        self.data = data;
        self.pos = 0;
        self.doc_freq = doc_freq;
        self.remaining = doc_freq;
        self.prev = None;
        self.docs.clear();
        self.freqs.clear();
        proof {
            assert(data@.skip(0) == data@);
            assert(self.all().skip(0) == self.all());
        }
    }

    /// The number of docs that hold the term.
    pub fn doc_freq(&self) -> (doc_freq: usize)
        requires
            self.wf(),
        ensures
            doc_freq == self.all().len(),
    {
        proof {
            lemma_records(self.data@, self.doc_freq as nat, self.with_freq(), None);
        }
        self.doc_freq
    }

    /// The docs of the block read last.
    pub fn docs(&self) -> (docs: &[DocId])
        ensures
            docs@ == self.block_docs(),
    {
        self.docs.as_slice()
    }

    /// The frequencies of the block read last.
    pub fn freqs(&self) -> (freqs: &[u32])
        ensures
            freqs@ == self.block_freqs(),
    {
        self.freqs.as_slice()
    }

    /// Reads the next block: up to 128 postings. `false` where none is left.
    pub fn advance(&mut self) -> (more: bool)
        requires
            old(self).wf(),
        ensures
            final(self).wf(),
            final(self).all() == old(self).all(),
            final(self).option() == old(self).option(),
            more == (old(self).loaded() < old(self).all().len()),
            more ==> final(self).block_docs().len() >= 1 && final(self).loaded() == old(self).loaded() + final(self).block_docs().len(),
            !more ==> final(self).loaded() == old(self).loaded() && final(self).block_docs().len() == 0,
    {
        proof {
            lemma_records(self.data@, self.doc_freq as nat, self.with_freq(), None);
        }
        self.docs.clear();
        self.freqs.clear();
        if self.remaining == 0 {
            return false;
        }
        let ghost all = self.all();
        let ghost start = self.loaded() as int;
        let with_freq = match self.option {
            FreqReadingOption::NoFreq => false,
            _ => true,
        };
        let read_freq = match self.option {
            FreqReadingOption::ReadFreq => true,
            _ => false,
        };
        while self.remaining > 0 && self.docs.len() < NUM_DOCS_PER_BLOCK
            invariant
                self.data == old(self).data,
                self.doc_freq == old(self).doc_freq,
                self.option == old(self).option,
                all == self.all(),
                with_freq == self.with_freq(),
                read_freq == (self.option is ReadFreq),
                self.remaining <= self.doc_freq,
                self.pos <= self.data@.len(),
                all.len() == self.doc_freq,
                records(self.data@, self.doc_freq as nat, with_freq, None) is Some,
                records(self.data@.skip(self.pos as int), self.remaining as nat, with_freq, self.prev) == Some(
                    all.skip(self.loaded() as int),
                ),
                self.loaded() == start + self.docs@.len(),
                self.docs@.len() <= NUM_DOCS_PER_BLOCK,
                forall|i: int| 0 <= i < self.docs@.len() ==> #[trigger] self.docs@[i] == all[start + i].0,
                read_freq ==> self.freqs@.len() == self.docs@.len() && forall|i: int|
                    0 <= i < self.docs@.len() ==> #[trigger] self.freqs@[i] == all[start + i].1,
                !read_freq ==> self.freqs@.len() == 0,
            decreases self.remaining,
        {
            let ghost rest = self.data@.skip(self.pos as int);
            let ghost at = self.loaded() as int;
            proof {
                lemma_records_step(rest, self.remaining as nat, with_freq, self.prev);
            }
            let (gap, after_gap) = match read_vint(self.data, self.pos) {
                Some(read) => read,
                None => {
                    assert(false);
                    return false;
                },
            };
            proof {
                assert(vint_value(rest) == gap);
                assert(vint_len(rest) == after_gap - self.pos);
            }
            let doc: u32 = match self.prev {
                None => gap as u32,
                Some(p) => (p as u64 + gap) as u32,
            };
            let mut next = after_gap;
            let mut tf: u32 = 1;
            if with_freq {
                proof {
                    assert(rest.skip(after_gap - self.pos) == self.data@.skip(after_gap as int));
                }
                match read_vint(self.data, after_gap) {
                    Some((value, after_tf)) => {
                        proof {
                            assert(vint_value(self.data@.skip(after_gap as int)) == value);
                        }
                        tf = value as u32;
                        next = after_tf;
                    },
                    None => {
                        assert(false);
                        return false;
                    },
                }
            }
            proof {
                assert(rest.skip(next - self.pos) == self.data@.skip(next as int));
                let tail = records(self.data@.skip(next as int), (self.remaining - 1) as nat, with_freq, Some(doc))->0;
                assert(all.skip(at) == seq![(doc, tf)] + tail);
                assert(all.skip(at)[0] == (doc, tf));
                assert(all[at] == (doc, tf));
                lemma_records(self.data@.skip(next as int), (self.remaining - 1) as nat, with_freq, Some(doc));
                assert(all.skip(at).len() == tail.len() + 1);
                assert(all.skip(at + 1).len() == tail.len());
                assert forall|i: int| 0 <= i < tail.len() implies all.skip(at + 1)[i] == tail[i] by {
                    assert(all.skip(at)[i + 1] == (seq![(doc, tf)] + tail)[i + 1]);
                    assert(all.skip(at + 1)[i] == all[at + 1 + i]);
                    assert(all.skip(at)[i + 1] == all[at + i + 1]);
                }
                assert(all.skip(at + 1) =~= tail);
            }
            self.docs.push(doc);
            if read_freq {
                self.freqs.push(tf);
            }
            self.prev = Some(doc);
            self.pos = next;
            self.remaining = self.remaining - 1;
        }
        true
    }
}

} // verus!
