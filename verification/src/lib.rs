//! Segment-level core of a full-text search index: facets, posting-list
//! algebra, term dictionaries and the document store.

pub mod analyzer;
pub mod collector;
pub mod common;
pub mod compression;
pub mod datastruct;
pub mod fastfield;
pub mod segment;
pub mod postings;
pub mod query;
pub mod schema;
pub mod store;
pub mod termdict;
