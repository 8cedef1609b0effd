//! Tokenizers.

pub mod facet_analyzer;
pub mod token;
pub mod token_stream_chain;

pub use self::facet_analyzer::{FacetTokenStream, FacetTokenizer};
pub use self::token::{Token, TokenStream};
pub use self::token_stream_chain::TokenStreamChain;
