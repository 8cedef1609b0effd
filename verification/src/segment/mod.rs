//! Readers of the segment files.

pub mod fieldnorm;
pub mod inverted_index_reader;

pub use self::fieldnorm::FIELDNORM_TABLE;
pub use self::inverted_index_reader::InvertedIndexReader;
