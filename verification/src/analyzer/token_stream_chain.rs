//! The concatenation of the token streams of the values of one field.

use vstd::prelude::*;
use crate::analyzer::token::{Token, TokenStream};

verus! {

/// The gap put between the positions of two field values, so that a phrase
/// cannot match across the end of one value and the start of the next.
pub const POSITION_GAP: usize = 2;

/// `a + b`, or the largest `usize` where that is less.
pub open spec fn capped_sum(a: usize, b: usize) -> usize {
    if a + b <= usize::MAX {
        (a + b) as usize
    } else {
        usize::MAX
    }
}

/// `TokenStreamChain` is the result of the concatenation of a list of token
/// streams. The offsets of the tokens of each stream are shifted by the
/// offset given for the stream; the positions go on from the last position
/// of the stream before, after a gap.
pub struct TokenStreamChain<TTokenStream: TokenStream> {
    offsets: Vec<usize>,
    token_streams: Vec<TTokenStream>,
    position_shift: usize,
    stream_idx: usize,
    token: Token,
}

impl<TTokenStream: TokenStream> TokenStreamChain<TTokenStream> {
    /// The offset by which the tokens of each stream are shifted.
    pub closed spec fn offsets(&self) -> Seq<usize> {
        self.offsets@
    }

    /// The streams of the chain.
    pub closed spec fn streams(&self) -> Seq<TTokenStream> {
        self.token_streams@
    }

    /// The index of the stream that yields the tokens; the number of streams
    /// once the chain is exhausted.
    pub closed spec fn stream_idx(&self) -> nat {
        self.stream_idx as nat
    }

    /// What is added to the positions of the stream that yields the tokens.
    pub closed spec fn position_shift(&self) -> usize {
        self.position_shift
    }

    /// The token the chain stands on.
    pub closed spec fn token_spec(&self) -> Token {
        self.token
    }

    /// Validity: there is an offset for every stream, and every stream is
    /// valid.
    pub closed spec fn chain_wf(&self) -> bool {
        &&& self.offsets@.len() >= self.token_streams@.len()
        &&& self.stream_idx <= self.token_streams@.len()
        &&& forall|i: int| 0 <= i < self.token_streams@.len() ==> (#[trigger] self.token_streams@[i]).wf()
    }

    /// Creates a new chained token stream. There is an offset in `offsets`
    /// for each stream.
    pub fn new(offsets: Vec<usize>, token_streams: Vec<TTokenStream>) -> (chain: TokenStreamChain<TTokenStream>)
        requires
            offsets@.len() >= token_streams@.len(),
            forall|i: int| 0 <= i < token_streams@.len() ==> (#[trigger] token_streams@[i]).wf(),
        ensures
            chain.chain_wf(),
            chain.offsets() == offsets@,
            chain.streams() == token_streams@,
            chain.stream_idx() == 0,
            chain.position_shift() == 0,
    {
        TokenStreamChain { offsets, stream_idx: 0, token_streams, position_shift: 0, token: Token::default() }
    }

    /// `after` is the chain `before` moved to its next token, `more` telling
    /// whether there was one: the chain stands on the token of a stream at or
    /// after the one it stood in, with the offsets shifted by the offset of
    /// that stream and the position by the shift; the shift goes on from the
    /// last position of the chain, after the gap, once the stream has
    /// changed. A chain without a token left keeps the token it had.
    pub open spec fn chain_step(before: Self, after: Self, more: bool) -> bool {
        &&& after.chain_wf()
        &&& after.offsets() == before.offsets()
        &&& after.streams().len() == before.streams().len()
        &&& after.stream_idx() >= before.stream_idx()
        &&& more == (after.stream_idx() < after.streams().len())
        &&& more ==> {
            let idx = after.stream_idx() as int;
            let from = after.streams()[idx].current();
            &&& after.token_spec().offset_from == capped_sum(from.offset_from, after.offsets()[idx])
            &&& after.token_spec().offset_to == capped_sum(from.offset_to, after.offsets()[idx])
            &&& after.token_spec().position == capped_sum(from.position, after.position_shift())
            &&& after.token_spec().term@ == from.term@
            &&& after.position_shift() == (if idx == before.stream_idx() {
                before.position_shift()
            } else {
                capped_sum(before.token_spec().position, POSITION_GAP)
            })
        }
        &&& !more ==> after.token_spec() == before.token_spec()
    }

    /// Moves to the next token: that of the first stream, from the current
    /// one on, that has a token left.
    pub fn advance_chain(&mut self) -> (more: bool)
        requires
            old(self).chain_wf(),
        ensures
            Self::chain_step(*old(self), *final(self), more),
    {
        while self.stream_idx < self.token_streams.len()
            invariant
                self.chain_wf(),
                self.offsets@ == old(self).offsets@,
                self.token_streams@.len() == old(self).token_streams@.len(),
                self.stream_idx >= old(self).stream_idx,
                self.token == old(self).token,
                self.position_shift == (if self.stream_idx == old(self).stream_idx {
                    old(self).position_shift
                } else {
                    capped_sum(old(self).token.position, POSITION_GAP)
                }),
            decreases self.token_streams@.len() - self.stream_idx,
        {
            let idx = self.stream_idx;
            let ghost before = self.token_streams@;
            let more = self.token_streams[idx].advance();
            proof {
                assert forall|i: int| 0 <= i < self.token_streams@.len() implies (#[trigger] self.token_streams@[i]).wf() by {
                    if i != idx {
                        assert(self.token_streams@[i] == before[i]);
                        assert(before[i].wf());
                    }
                }
            }
            if more {
                let offset_offset = self.offsets[idx];
                let token = self.token_streams[idx].token();
                let offset_from = token.offset_from.saturating_add(offset_offset);
                let offset_to = token.offset_to.saturating_add(offset_offset);
                let position = token.position.saturating_add(self.position_shift);
                let term = token.term.clone();
                self.token = Token { offset_from, offset_to, position, term };
                return true;
            } else {
                self.stream_idx = self.stream_idx + 1;
                self.position_shift = self.token.position.saturating_add(POSITION_GAP);
            }
        }
        false
    }

    /// The token the chain stands on. The chain is not exhausted.
    pub fn chain_token(&self) -> (token: &Token)
        requires
            self.chain_wf(),
            self.stream_idx() < self.streams().len(),
        ensures
            *token == self.token_spec(),
    {
        &self.token
    }

    /// The token the chain stands on, to be changed by filters. The chain is
    /// not exhausted.
    pub fn token_mut(&mut self) -> (token: &mut Token)
        requires
            old(self).chain_wf(),
            old(self).stream_idx() < old(self).streams().len(),
        ensures
            *token == old(self).token_spec(),
            final(self).token_spec() == *final(token),
            final(self).chain_wf(),
            final(self).offsets() == old(self).offsets(),
            final(self).streams() == old(self).streams(),
            final(self).stream_idx() == old(self).stream_idx(),
            final(self).position_shift() == old(self).position_shift(),
    {
        &mut self.token
    }
}

impl<TTokenStream: TokenStream> TokenStream for TokenStreamChain<TTokenStream> {
    closed spec fn wf(&self) -> bool {
        self.chain_wf()
    }

    closed spec fn current(&self) -> Token {
        self.token
    }

    /// Moves to the next token of the chain.
    fn advance(&mut self) -> (more: bool)
        ensures
            Self::chain_step(*old(self), *final(self), more),
    {
        self.advance_chain()
    }

    fn token(&self) -> (token: &Token) {
        &self.token
    }
}

} // verus!
