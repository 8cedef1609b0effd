//! Multi-valued fast fields.

pub mod reader;
pub mod writer;

pub use self::reader::MultiValueIntFastFieldReader;
pub use self::writer::MultiValueIntFastFieldWriter;
