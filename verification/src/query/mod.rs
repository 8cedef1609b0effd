//! Queries and the doc sets they produce.

pub mod all_query;
pub mod boolean_query;

pub use self::all_query::{AllQuery, AllScorer, AllWeight};
pub use self::boolean_query::{BooleanDocSet, BooleanQuery, Occur};
