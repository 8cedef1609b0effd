//! Tokens and the streams that yield them.

use vstd::prelude::*;

verus! {

/// A piece of text cut out by a tokenizer.
pub struct Token {
    /// Offset, in bytes, of the first byte of the token.
    pub offset_from: usize,
    /// Offset, in bytes, one past the last byte of the token.
    pub offset_to: usize,
    /// Position of the token, counted in tokens.
    pub position: usize,
    /// The text of the token.
    pub term: String,
}

impl Default for Token {
    fn default() -> (token: Token)
        ensures
            token.offset_from == 0,
            token.offset_to == 0,
            token.position == 0,
            token.term@ == Seq::<char>::empty(),
    {
        Token { offset_from: 0, offset_to: 0, position: 0, term: String::new() }
    }
}

/// A stream of tokens, consumed one `advance` at a time.
pub trait TokenStream {
    /// Validity of the stream.
    spec fn wf(&self) -> bool;

    /// The token the stream stands on.
    spec fn current(&self) -> Token;

    /// Moves to the next token; `false` once the stream is exhausted.
    fn advance(&mut self) -> (more: bool)
        requires
            old(self).wf(),
        ensures
            final(self).wf(),
    ;

    /// The token the stream stands on.
    fn token(&self) -> (token: &Token)
        requires
            self.wf(),
        ensures
            *token == self.current(),
    ;
}

} // verus!
