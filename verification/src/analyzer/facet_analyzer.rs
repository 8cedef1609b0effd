//! The tokenizer that turns an encoded facet into the encodings of the facet
//! and of all its ancestors.

use vstd::prelude::*;
use vstd::string::StringSliceAdditionalSpecFns;
use vstd::utf8::{encode_utf8, encode_utf8_valid_utf8, is_char_boundary, is_char_boundary_iff_not_is_continuation_byte, is_char_boundary_start_end_of_seq, is_continuation_byte};
use crate::analyzer::token::{Token, TokenStream};
use crate::schema::facet::{FACET_SEP_BYTE, cuts_upto, prefix_cuts};

verus! {

/// Tokenizer for encoded facets.
#[derive(Clone, Copy)]
pub struct FacetTokenizer;

/// The stream of prefixes of one encoded facet.
pub struct FacetTokenStream<'a> {
    text: &'a str,
    /// Where the search for the next separator starts.
    pos: usize,
    done: bool,
    token: Token,
}

impl FacetTokenizer {
    /// The stream of the prefixes of `text` that end at a separator, followed
    /// by `text` itself.
    pub fn token_stream<'a>(&mut self, text: &'a str) -> (stream: FacetTokenStream<'a>)
        ensures
            stream.wf(),
            stream.text_bytes() == text.spec_bytes(),
            stream.emitted() == 0,
    {
        FacetTokenStream { text, pos: 0, done: false, token: Token::default() }
    }
}

/// Stretches without separators add no cut.
pub proof fn lemma_cuts_no_sep(bytes: Seq<u8>, from: int, to: int)
    requires
        0 <= from <= to <= bytes.len(),
        forall|i: int| from <= i < to ==> bytes[i] != FACET_SEP_BYTE,
    ensures
        cuts_upto(bytes, to) == cuts_upto(bytes, from),
    decreases to - from,
{
    if from < to {
        lemma_cuts_no_sep(bytes, from, to - 1);
    }
}

/// The cuts below `n` are the first cuts below any later bound.
pub proof fn lemma_cuts_prefix(bytes: Seq<u8>, n: int, m: int)
    requires
        0 <= n <= m <= bytes.len(),
    ensures
        cuts_upto(bytes, n).len() <= cuts_upto(bytes, m).len(),
        cuts_upto(bytes, m).take(cuts_upto(bytes, n).len() as int) == cuts_upto(bytes, n),
    decreases m - n,
{
    if n < m {
        lemma_cuts_prefix(bytes, n, m - 1);
        let shorter = cuts_upto(bytes, m - 1);
        let longer = cuts_upto(bytes, m);
        let k = cuts_upto(bytes, n).len() as int;
        assert(longer.take(k) == shorter.take(k));
    } else {
        assert(cuts_upto(bytes, m).take(cuts_upto(bytes, n).len() as int) == cuts_upto(bytes, n));
    }
}

impl<'a> FacetTokenStream<'a> {
    /// The encoded facet being tokenized.
    pub closed spec fn text_bytes(&self) -> Seq<u8> {
        self.text.spec_bytes()
    }

    /// How many tokens have come out.
    pub closed spec fn emitted(&self) -> nat {
        if self.done {
            prefix_cuts(self.text.spec_bytes()).len()
        } else {
            cuts_upto(self.text.spec_bytes(), self.pos as int).len()
        }
    }

    /// The token to be filled by filters further down the pipeline.
    pub fn token_mut(&mut self) -> (token: &mut Token)
        requires
            old(self).wf(),
        ensures
            *token == old(self).current(),
            final(self).current() == *final(token),
            final(self).wf(),
            final(self).text_bytes() == old(self).text_bytes(),
            final(self).emitted() == old(self).emitted(),
    {
        &mut self.token
    }
}

impl<'a> TokenStream for FacetTokenStream<'a> {
    closed spec fn wf(&self) -> bool {
        &&& self.pos <= self.text.spec_bytes().len()
        &&& self.pos > 0 ==> self.text.spec_bytes()[self.pos - 1] == FACET_SEP_BYTE
    }

    closed spec fn current(&self) -> Token {
        self.token
    }

    /// Moves to the next prefix: the `k`-th token is the text up to its `k`-th
    /// separator, the last one the whole text.
    fn advance(&mut self) -> (more: bool)
        ensures
            final(self).text_bytes() == old(self).text_bytes(),
            more == (old(self).emitted() < prefix_cuts(old(self).text_bytes()).len()),
            more ==> final(self).emitted() == old(self).emitted() + 1 && encode_utf8(final(self).current().term@)
                == old(self).text_bytes().take(prefix_cuts(old(self).text_bytes())[old(self).emitted() as int]),
            !more ==> final(self).emitted() == old(self).emitted(),
    {
        if self.done {
            return false;
        }
        let bytes = self.text.as_bytes();
        let mut end = self.pos;
        while end < bytes.len() && bytes[end] != FACET_SEP_BYTE
            invariant
                self.pos <= end <= bytes@.len(),
                bytes@ == self.text.spec_bytes(),
                forall|i: int| self.pos <= i < end ==> bytes@[i] != FACET_SEP_BYTE,
            decreases bytes@.len() - end,
        {
            end = end + 1;
        }
        proof {
            encode_utf8_valid_utf8(self.text@);
            if end < bytes@.len() {
                assert(!is_continuation_byte(FACET_SEP_BYTE)) by {
                    assert(31u8 & 0xC0 != 0x80) by (bit_vector);
                }
                is_char_boundary_iff_not_is_continuation_byte(bytes@, end as int);
            } else {
                is_char_boundary_start_end_of_seq(bytes@);
            }
            lemma_cuts_no_sep(bytes@, self.pos as int, end as int);
            if end < bytes@.len() {
                lemma_cuts_prefix(bytes@, end + 1, bytes@.len() as int);
                assert(cuts_upto(bytes@, end + 1).last() == end);
                let k = cuts_upto(bytes@, self.pos as int).len() as int;
                assert(cuts_upto(bytes@, bytes@.len() as int).take(k + 1)[k] == end);
            }
        }
        let (prefix, _) = self.text.split_at(end);
        self.token.term = prefix.to_owned();
        if end == bytes.len() {
            self.done = true;
        } else {
            self.pos = end + 1;
        }
        true
    }

    fn token(&self) -> (token: &Token) {
        &self.token
    }
}

} // verus!
