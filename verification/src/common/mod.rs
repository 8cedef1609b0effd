//! Byte-level helpers shared by the file formats.

pub mod counting_writer;
pub mod serialize;
pub mod vint;

pub use self::counting_writer::CountingWriter;
pub use self::serialize::{BinarySerializable, CodecError};
