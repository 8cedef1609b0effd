//! Term dictionaries and the merge of their streams.

pub mod dictionary;
pub mod merger;
pub mod term_info;

pub use self::dictionary::{TermDictionaryBuilderImpl, TermDictionaryImpl, TermStreamer, TermStreamerBuilder};
pub use self::merger::TermMerger;
pub use self::term_info::TermInfo;
