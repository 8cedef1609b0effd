//! Data structures of the segment files.

pub mod fst_block;
pub mod fst_builder;
pub mod fst_level;
pub mod fst_stream;
pub mod fst_walk;
pub mod fstmap;
pub mod lex;

pub use self::fst_builder::FstMapBuilder;
pub use self::fst_stream::{FstMapStreamBuilder, FstMapStreamer};
pub use self::fstmap::{DictionaryError, FstMap};
