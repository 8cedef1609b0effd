//! Posting lists and the algebra that composes them.

pub mod block_segment_postings;
pub mod difference;
pub mod docset;
pub mod intersection;
pub mod segment_postings;
pub mod union;
pub mod union_all;
pub mod vec_postings;

pub use self::block_segment_postings::{BlockSegmentPostings, FreqReadingOption};
pub use self::difference::DifferenceDocSet;
pub use self::docset::{DocId, DocSet, SkipResult};
pub use self::intersection::IntersectionDocSet;
pub use self::segment_postings::SegmentPostings;
pub use crate::termdict::term_info::TermInfo;
pub use self::union::UnionDocSet;
pub use self::union_all::UnionAllDocSet;
pub use self::vec_postings::VecPostings;
