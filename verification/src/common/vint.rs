//! Variable-length integers: seven bits per byte, the lowest first, the last
//! byte marked by its high bit.

use vstd::prelude::*;

verus! {

/// What a byte adds to a number at a shift.
pub open spec fn vint_add(acc: u64, b: u8, shift: nat) -> u64 {
    acc | (((b & 127) as u64) << (shift as u64))
}

/// The number that starts at index `i`, given what the bytes before it have
/// added, and the index after it. `None` where the bytes end before the
/// number does, or the number is longer than ten bytes.
pub open spec fn decode_vint_from(bytes: Seq<u8>, i: int, shift: nat, acc: u64) -> Option<(u64, int)>
    decreases bytes.len() - i,
{
    if i < 0 || i >= bytes.len() || shift > 63 {
        None
    } else if bytes[i] & 128 != 0 {
        Some((vint_add(acc, bytes[i], shift), i + 1))
    } else {
        decode_vint_from(bytes, i + 1, shift + 7, vint_add(acc, bytes[i], shift))
    }
}

/// The number at the front of `bytes`, and how many bytes it takes.
pub open spec fn decode_vint(bytes: Seq<u8>) -> Option<(u64, int)> {
    decode_vint_from(bytes, 0, 0, 0)
}

/// The number at the front of `bytes`; 0 where there is none.
pub open spec fn vint_value(bytes: Seq<u8>) -> u64 {
    match decode_vint(bytes) {
        Some((v, n)) => v,
        None => 0,
    }
}

/// How many bytes the number at the front of `bytes` takes; 0 where there
/// is none.
pub open spec fn vint_len(bytes: Seq<u8>) -> int {
    match decode_vint(bytes) {
        Some((v, n)) => n,
        None => 0,
    }
}

/// Decoding from the middle of a byte string is decoding from the front of
/// what is left of it.
pub proof fn lemma_decode_vint_skip(bytes: Seq<u8>, pos: int, i: int, shift: nat, acc: u64)
    requires
        0 <= pos <= bytes.len(),
        0 <= i,
    ensures
        decode_vint_from(bytes.skip(pos), i, shift, acc) == (match decode_vint_from(bytes, pos + i, shift, acc) {
            Some((v, next)) => Some((v, next - pos)),
            None => None,
        }),
    decreases bytes.len() - pos - i,
{
    let rest = bytes.skip(pos);
    assert(rest.len() == bytes.len() - pos);
    if pos + i < bytes.len() && shift <= 63 {
        assert(rest[i] == bytes[pos + i]);
        if bytes[pos + i] & 128 == 0 {
            lemma_decode_vint_skip(bytes, pos, i + 1, shift + 7, vint_add(acc, bytes[pos + i], shift));
        }
    }
}

/// Reads the number that starts at `pos`, and returns it with the position
/// after it.
pub fn read_vint(data: &[u8], pos: usize) -> (res: Option<(u64, usize)>)
    requires
        pos <= data@.len(),
    ensures
        match res {
            Some((v, next)) => decode_vint(data@.skip(pos as int)) == Some((v, next - pos)) && pos < next
                <= data@.len(),
            None => decode_vint(data@.skip(pos as int)) is None,
        },
{
    let mut acc: u64 = 0;
    let mut shift: u32 = 0;
    let mut i: usize = pos;
    proof {
        lemma_decode_vint_skip(data@, pos as int, 0, 0, 0);
    }
    loop
        invariant
            pos <= i <= data@.len(),
            shift == 7 * (i - pos),
            decode_vint_from(data@, pos as int, 0, 0) == decode_vint_from(data@, i as int, shift as nat, acc),
            decode_vint(data@.skip(pos as int)) == (match decode_vint_from(data@, pos as int, 0, 0) {
                Some((v, next)) => Some((v, next - pos)),
                None => None,
            }),
        decreases data@.len() - i,
    {
        if i >= data.len() || shift > 63 {
            return None;
        }
        let b = data[i];
        acc = acc | (((b & 127) as u64) << shift);
        if b & 128 != 0 {
            return Some((acc, i + 1));
        }
        shift = shift + 7;
        i = i + 1;
    }
}

} // verus!
