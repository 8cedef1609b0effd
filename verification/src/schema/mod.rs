//! Field values of documents.

pub mod facet;
pub mod field_value;
pub mod index_record_option;
pub mod named_field_document;
pub mod term;
pub mod value;

pub use self::facet::Facet;
pub use self::field_value::{Field, FieldValue};
pub use self::index_record_option::IndexRecordOption;
pub use self::named_field_document::NamedFieldDocument;
pub use self::term::Term;
pub use self::value::Value;
