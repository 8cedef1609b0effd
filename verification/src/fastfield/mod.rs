//! Columnar per-doc storage of `u64` values.

pub mod bitpacked;
pub mod delete;
pub mod facet_reader;
pub mod multivalued;
pub mod serializer;

pub use self::bitpacked::{FastSingleFieldSerializer, U64FastFieldReader};
pub use self::delete::DeleteBitSet;
pub use self::facet_reader::FacetReader;
pub use self::multivalued::{MultiValueIntFastFieldReader, MultiValueIntFastFieldWriter};
pub use self::serializer::FastFieldSerializer;
