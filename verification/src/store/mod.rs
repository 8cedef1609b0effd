//! The document store: the documents of a segment, block-compressed, to be
//! fetched by doc id.

pub mod layout;
pub mod reader;
pub mod writer;

pub use self::layout::StoreError;
pub use self::reader::StoreReader;
pub use self::writer::StoreWriter;
