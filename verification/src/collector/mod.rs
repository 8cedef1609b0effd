//! Collectors: visitors of the docs that a query matches.

pub mod counts_spec;
pub mod facet_collector;
pub mod facet_counts;
pub mod merge_scene;

pub use self::facet_collector::{FacetCollector, FacetCounts};
pub use self::facet_counts::{FacetIterator, FacetIteratorWithDepth};
