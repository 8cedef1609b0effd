//! A writer that counts the bytes it passes on.

use vstd::prelude::*;

verus! {

/// The error type of `std::io`.
#[verifier::external_type_specification]
#[verifier::external_body]
pub struct ExIoError(std::io::Error);

/// Calls `std::io::Write::write`: on success the number of bytes taken from
/// the front of `buf`, never more than `buf` holds.
#[verifier::external_body]
fn write_some<W: std::io::Write>(writer: &mut W, buf: &[u8]) -> (res: Result<usize, std::io::Error>)
    ensures
        res matches Ok(n) ==> n <= buf@.len(),
{
    writer.write(buf)
}

/// Calls `std::io::Write::flush`.
#[verifier::external_body]
fn flush_writer<W: std::io::Write>(writer: &mut W) -> Result<(), std::io::Error> {
    writer.flush()
}

/// Wraps a writer and counts the bytes that it accepted.
pub struct CountingWriter<W> {
    underlying_writer: W,
    bytes_written: usize,
}

impl<W: std::io::Write> CountingWriter<W> {
    /// The number of bytes the underlying writer has accepted so far.
    pub closed spec fn written(&self) -> nat {
        self.bytes_written as nat
    }

    /// The writer underneath.
    pub closed spec fn inner(&self) -> W {
        self.underlying_writer
    }

    /// Wraps `writer`; nothing has been written yet.
    pub fn from(writer: W) -> (counting: CountingWriter<W>)
        ensures
            counting.written() == 0,
            counting.inner() == writer,
    {
        CountingWriter { underlying_writer: writer, bytes_written: 0 }
    }

    /// The number of bytes successfully written through this writer.
    pub fn bytes_written(&self) -> (count: usize)
        ensures
            count == self.written(),
    {
        self.bytes_written
    }

    /// Gives the underlying writer back.
    pub fn into_inner(self) -> (writer: W)
        ensures
            writer == self.inner(),
    {
        self.underlying_writer
    }

    /// Takes what a write to the underlying writer has reported: the bytes
    /// that it accepted are added to the count, and the report is passed on
    /// as it came.
    pub fn record(&mut self, outcome: Result<usize, std::io::Error>) -> (res: Result<usize, std::io::Error>)
        ensures
            res == outcome,
            final(self).inner() == old(self).inner(),
            final(self).written() == (match outcome {
                Ok(n) => counted(old(self).written(), n as nat),
                Err(_) => old(self).written(),
            }),
    {
        match outcome {
            Ok(extra_bytes_written) => {
                self.bytes_written = self.bytes_written.saturating_add(extra_bytes_written);
                Ok(extra_bytes_written)
            },
            Err(e) => Err(e),
        }
    }
}

/// The count after `extra` more bytes: it stops at the largest `usize`.
pub open spec fn counted(before: nat, extra: nat) -> nat {
    if before + extra <= usize::MAX {
        before + extra
    } else {
        usize::MAX as nat
    }
}

impl<W: std::io::Write> std::io::Write for CountingWriter<W> {
    /// Hands `buf` to the underlying writer and adds what it accepted to the
    /// count.
    fn write(&mut self, buf: &[u8]) -> (res: Result<usize, std::io::Error>)
        ensures
            match res {
                Ok(n) => n <= buf@.len() && final(self).written() == counted(old(self).written(), n as nat),
                Err(_) => final(self).written() == old(self).written(),
            },
    {
        let outcome = write_some(&mut self.underlying_writer, buf);
        self.record(outcome)
    }

    /// Flushes the underlying writer; the count stays.
    fn flush(&mut self) -> (res: Result<(), std::io::Error>)
        ensures
            final(self).written() == old(self).written(),
    {
        flush_writer(&mut self.underlying_writer)
    }
}

} // verus!
