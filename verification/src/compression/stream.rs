//! Streams of variable-length integers, as the positions file holds them.

use vstd::prelude::*;
use crate::common::vint::{decode_vint, read_vint};

verus! {

/// Where a reader stands in `data` after skipping `n` integers from `pos`
/// on; it stays where the integers end.
pub open spec fn skip_vints(data: Seq<u8>, pos: int, n: nat) -> int
    decreases n,
{
    if n == 0 || pos < 0 || pos > data.len() {
        pos
    } else {
        match decode_vint(data.skip(pos)) {
            Some((v, len)) => skip_vints(data, pos + len, (n - 1) as nat),
            None => pos,
        }
    }
}

/// A reader of the integers of a position stream.
pub struct CompressedIntStream<'a> {
    data: &'a [u8],
    pos: usize,
}

impl<'a> CompressedIntStream<'a> {
    /// The bytes of the stream.
    pub closed spec fn data(&self) -> Seq<u8> {
        self.data@
    }

    /// Where the reader stands.
    pub closed spec fn pos(&self) -> int {
        self.pos as int
    }

    /// Validity: the reader stands inside the bytes.
    pub closed spec fn wf(&self) -> bool {
        self.pos <= self.data@.len()
    }

    /// A reader at the start of `source`.
    pub fn wrap(source: &'a [u8]) -> (stream: CompressedIntStream<'a>)
        ensures
            stream.wf(),
            stream.data() == source@,
            stream.pos() == 0,
    {
        CompressedIntStream { data: source, pos: 0 }
    }

    /// Skips the next `skip_len` integers, or as many as are left.
    pub fn skip(&mut self, skip_len: usize)
        requires
            old(self).wf(),
        ensures
            final(self).wf(),
            final(self).data() == old(self).data(),
            final(self).pos() == skip_vints(old(self).data(), old(self).pos(), skip_len as nat),
    {
        let mut left = skip_len;
        while left > 0
            invariant
                self.wf(),
                self.data == old(self).data,
                skip_vints(self.data@, self.pos as int, left as nat) == skip_vints(
                    old(self).data@,
                    old(self).pos as int,
                    skip_len as nat,
                ),
            decreases left,
        {
            match read_vint(self.data, self.pos) {
                Some((_, next)) => {
                    proof {
                        assert(decode_vint(self.data@.skip(self.pos as int)) is Some);
                    }
                    self.pos = next;
                    left = left - 1;
                },
                None => {
                    return ;
                },
            }
        }
    }

    /// The next integer, or `None` at the end of the stream.
    pub fn read(&mut self) -> (value: Option<u64>)
        requires
            old(self).wf(),
        ensures
            final(self).wf(),
            final(self).data() == old(self).data(),
            match decode_vint(old(self).data().skip(old(self).pos())) {
                Some((v, len)) => value == Some(v) && final(self).pos() == old(self).pos() + len,
                None => value is None && final(self).pos() == old(self).pos(),
            },
    {
        match read_vint(self.data, self.pos) {
            Some((v, next)) => {
                self.pos = next;
                Some(v)
            },
            None => None,
        }
    }
}

} // verus!
