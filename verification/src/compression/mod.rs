//! Compressed streams of integers.

pub mod stream;

pub use self::stream::CompressedIntStream;
