//! The fixed-layout binary codec of the segment files: little-endian
//! integers, and byte strings behind a 32-bit length.

use vstd::prelude::*;
use vstd::bytes::{
    lemma_auto_spec_u32_to_from_le_bytes, lemma_auto_spec_u64_to_from_le_bytes, spec_u32_from_le_bytes,
    spec_u32_to_le_bytes, spec_u64_from_le_bytes, spec_u64_to_le_bytes, u32_from_le_bytes, u32_to_le_bytes,
    u64_from_le_bytes, u64_to_le_bytes,
};
use vstd::slice::{slice_subrange, slice_to_vec};
use vstd::string::StringSliceAdditionalSpecFns;
use vstd::utf8::{decode_utf8, encode_utf8, encode_utf8_decode_utf8, encode_utf8_valid_utf8, valid_utf8};

verus! {

/// Why bytes could not be read back as a value.
#[derive(Clone, Copy, Debug, PartialEq, Eq, Structural)]
pub enum CodecError {
    /// The bytes end before the value does.
    UnexpectedEof,
    /// The bytes cannot stand for a value of the type.
    InvalidData,
}

/// A type with a binary form.
pub trait BinarySerializable: View + Sized {
    /// Whether a value has a binary form at all.
    spec fn encodable(v: Self::V) -> bool;

    /// The binary form of a value.
    spec fn encode(v: Self::V) -> Seq<u8>;

    /// The value at the front of `bytes` and the number of bytes it takes.
    spec fn decode(bytes: Seq<u8>) -> Result<(Self::V, int), CodecError>;

    /// A value is read back from its binary form, whatever follows it.
    proof fn lemma_decode_encode(v: Self::V, rest: Seq<u8>)
        requires
            Self::encodable(v),
        ensures
            Self::decode(Self::encode(v) + rest) == Ok::<(Self::V, int), CodecError>((v, Self::encode(v).len() as int)),
    ;

    /// Appends the binary form of `self` to `out`.
    fn serialize(&self, out: &mut Vec<u8>)
        requires
            Self::encodable(self@),
        ensures
            final(out)@ == old(out)@ + Self::encode(self@),
    ;

    /// Reads the value that starts at `pos`, and returns it with the position
    /// after it.
    fn deserialize(bytes: &[u8], pos: usize) -> (res: Result<(Self, usize), CodecError>)
        requires
            pos <= bytes@.len(),
        ensures
            match Self::decode(bytes@.skip(pos as int)) {
                Ok((v, n)) => res matches Ok((value, next)) && value@ == v && next == pos + n && next <= bytes@.len(),
                Err(e) => res == Err::<(Self, usize), CodecError>(e),
            },
    ;
}

impl BinarySerializable for u8 {
    open spec fn encodable(v: u8) -> bool {
        true
    }

    open spec fn encode(v: u8) -> Seq<u8> {
        seq![v]
    }

    open spec fn decode(bytes: Seq<u8>) -> Result<(u8, int), CodecError> {
        if bytes.len() < 1 {
            Err(CodecError::UnexpectedEof)
        } else {
            Ok((bytes[0], 1))
        }
    }

    proof fn lemma_decode_encode(v: u8, rest: Seq<u8>) {
    }

    fn serialize(&self, out: &mut Vec<u8>) {
        out.push(*self);
    }

    fn deserialize(bytes: &[u8], pos: usize) -> (res: Result<(u8, usize), CodecError>) {
        if pos < bytes.len() {
            Ok((bytes[pos], pos + 1))
        } else {
            Err(CodecError::UnexpectedEof)
        }
    }
}

impl BinarySerializable for u32 {
    open spec fn encodable(v: u32) -> bool {
        true
    }

    open spec fn encode(v: u32) -> Seq<u8> {
        spec_u32_to_le_bytes(v)
    }

    open spec fn decode(bytes: Seq<u8>) -> Result<(u32, int), CodecError> {
        if bytes.len() < 4 {
            Err(CodecError::UnexpectedEof)
        } else {
            Ok((spec_u32_from_le_bytes(bytes.take(4)), 4))
        }
    }

    proof fn lemma_decode_encode(v: u32, rest: Seq<u8>) {
        lemma_auto_spec_u32_to_from_le_bytes();
        assert((spec_u32_to_le_bytes(v) + rest).take(4) == spec_u32_to_le_bytes(v));
    }

    fn serialize(&self, out: &mut Vec<u8>) {
        let mut bytes = u32_to_le_bytes(*self);
        out.append(&mut bytes);
    }

    fn deserialize(bytes: &[u8], pos: usize) -> (res: Result<(u32, usize), CodecError>) {
        if bytes.len() - pos < 4 {
            return Err(CodecError::UnexpectedEof);
        }
        let field = slice_subrange(bytes, pos, pos + 4);
        proof {
            assert(field@ == bytes@.skip(pos as int).take(4));
        }
        Ok((u32_from_le_bytes(field), pos + 4))
    }
}

impl BinarySerializable for u64 {
    open spec fn encodable(v: u64) -> bool {
        true
    }

    open spec fn encode(v: u64) -> Seq<u8> {
        spec_u64_to_le_bytes(v)
    }

    open spec fn decode(bytes: Seq<u8>) -> Result<(u64, int), CodecError> {
        if bytes.len() < 8 {
            Err(CodecError::UnexpectedEof)
        } else {
            Ok((spec_u64_from_le_bytes(bytes.take(8)), 8))
        }
    }

    proof fn lemma_decode_encode(v: u64, rest: Seq<u8>) {
        lemma_auto_spec_u64_to_from_le_bytes();
        assert((spec_u64_to_le_bytes(v) + rest).take(8) == spec_u64_to_le_bytes(v));
    }

    fn serialize(&self, out: &mut Vec<u8>) {
        let mut bytes = u64_to_le_bytes(*self);
        out.append(&mut bytes);
    }

    fn deserialize(bytes: &[u8], pos: usize) -> (res: Result<(u64, usize), CodecError>) {
        if bytes.len() - pos < 8 {
            return Err(CodecError::UnexpectedEof);
        }
        let field = slice_subrange(bytes, pos, pos + 8);
        proof {
            assert(field@ == bytes@.skip(pos as int).take(8));
        }
        Ok((u64_from_le_bytes(field), pos + 8))
    }
}

impl BinarySerializable for i64 {
    open spec fn encodable(v: i64) -> bool {
        true
    }

    open spec fn encode(v: i64) -> Seq<u8> {
        spec_u64_to_le_bytes(v as u64)
    }

    open spec fn decode(bytes: Seq<u8>) -> Result<(i64, int), CodecError> {
        if bytes.len() < 8 {
            Err(CodecError::UnexpectedEof)
        } else {
            Ok((spec_u64_from_le_bytes(bytes.take(8)) as i64, 8))
        }
    }

    proof fn lemma_decode_encode(v: i64, rest: Seq<u8>) {
        lemma_auto_spec_u64_to_from_le_bytes();
        assert((spec_u64_to_le_bytes(v as u64) + rest).take(8) == spec_u64_to_le_bytes(v as u64));
        assert((v as u64) as i64 == v) by (bit_vector);
    }

    fn serialize(&self, out: &mut Vec<u8>) {
        let mut bytes = u64_to_le_bytes(*self as u64);
        out.append(&mut bytes);
    }

    fn deserialize(bytes: &[u8], pos: usize) -> (res: Result<(i64, usize), CodecError>) {
        if bytes.len() - pos < 8 {
            return Err(CodecError::UnexpectedEof);
        }
        let field = slice_subrange(bytes, pos, pos + 8);
        proof {
            assert(field@ == bytes@.skip(pos as int).take(8));
        }
        Ok((u64_from_le_bytes(field) as i64, pos + 8))
    }
}

/// The binary form of a byte string: its length as a `u32`, then the bytes.
pub open spec fn encode_bytes(payload: Seq<u8>) -> Seq<u8> {
    spec_u32_to_le_bytes(payload.len() as u32) + payload
}

/// The byte string at the front of `bytes` and the number of bytes it takes
/// with its length.
pub open spec fn decode_bytes(bytes: Seq<u8>) -> Result<(Seq<u8>, int), CodecError> {
    if bytes.len() < 4 {
        Err(CodecError::UnexpectedEof)
    } else {
        let len = spec_u32_from_le_bytes(bytes.take(4)) as int;
        if bytes.len() - 4 < len {
            Err(CodecError::UnexpectedEof)
        } else {
            Ok((bytes.subrange(4, 4 + len), 4 + len))
        }
    }
}

/// A byte string short enough for a 32-bit length is read back from its
/// binary form.
pub proof fn lemma_decode_encode_bytes(payload: Seq<u8>, rest: Seq<u8>)
    requires
        payload.len() <= u32::MAX,
    ensures
        decode_bytes(encode_bytes(payload) + rest) == Ok::<(Seq<u8>, int), CodecError>(
            (payload, 4 + payload.len() as int),
        ),
        encode_bytes(payload).len() == 4 + payload.len(),
{
    lemma_auto_spec_u32_to_from_le_bytes();
    let head = spec_u32_to_le_bytes(payload.len() as u32);
    let all = encode_bytes(payload) + rest;
    assert(all.take(4) == head);
    assert(all.subrange(4, 4 + payload.len() as int) == payload);
}

/// Appends the binary form of a byte string to `out`.
pub fn serialize_bytes(payload: &[u8], out: &mut Vec<u8>)
    requires
        payload@.len() <= u32::MAX,
    ensures
        final(out)@ == old(out)@ + encode_bytes(payload@),
{
    let mut head = u32_to_le_bytes(payload.len() as u32);
    out.append(&mut head);
    let mut body = slice_to_vec(payload);
    out.append(&mut body);
}

/// Reads the byte string that starts at `pos`, and returns it with the
/// position after it.
pub fn deserialize_bytes(bytes: &[u8], pos: usize) -> (res: Result<(Vec<u8>, usize), CodecError>)
    requires
        pos <= bytes@.len(),
    ensures
        match decode_bytes(bytes@.skip(pos as int)) {
            Ok((v, n)) => res matches Ok((value, next)) && value@ == v && next == pos + n && next <= bytes@.len(),
            Err(e) => res == Err::<(Vec<u8>, usize), CodecError>(e),
        },
{
    if bytes.len() - pos < 4 {
        return Err(CodecError::UnexpectedEof);
    }
    let field = slice_subrange(bytes, pos, pos + 4);
    proof {
        assert(field@ == bytes@.skip(pos as int).take(4));
    }
    let len = u32_from_le_bytes(field) as usize;
    if bytes.len() - pos - 4 < len {
        return Err(CodecError::UnexpectedEof);
    }
    let payload = slice_subrange(bytes, pos + 4, pos + 4 + len);
    proof {
        assert(payload@ == bytes@.skip(pos as int).subrange(4, 4 + len));
    }
    Ok((slice_to_vec(payload), pos + 4 + len))
}

impl BinarySerializable for Vec<u8> {
    open spec fn encodable(v: Seq<u8>) -> bool {
        v.len() <= u32::MAX
    }

    open spec fn encode(v: Seq<u8>) -> Seq<u8> {
        encode_bytes(v)
    }

    open spec fn decode(bytes: Seq<u8>) -> Result<(Seq<u8>, int), CodecError> {
        decode_bytes(bytes)
    }

    proof fn lemma_decode_encode(v: Seq<u8>, rest: Seq<u8>) {
        lemma_decode_encode_bytes(v, rest);
    }

    fn serialize(&self, out: &mut Vec<u8>) {
        serialize_bytes(self.as_slice(), out);
    }

    fn deserialize(bytes: &[u8], pos: usize) -> (res: Result<(Vec<u8>, usize), CodecError>) {
        deserialize_bytes(bytes, pos)
    }
}

/// Calls `String::from_utf8`: the text of `bytes`, or `None` where they are
/// not valid UTF-8.
#[verifier::external_body]
fn string_from_utf8(bytes: Vec<u8>) -> (res: Option<String>)
    ensures
        res is Some <==> valid_utf8(bytes@),
        res matches Some(text) ==> text@ == decode_utf8(bytes@),
{
    String::from_utf8(bytes).ok()
}

impl BinarySerializable for String {
    open spec fn encodable(v: Seq<char>) -> bool {
        encode_utf8(v).len() <= u32::MAX
    }

    open spec fn encode(v: Seq<char>) -> Seq<u8> {
        encode_bytes(encode_utf8(v))
    }

    open spec fn decode(bytes: Seq<u8>) -> Result<(Seq<char>, int), CodecError> {
        match decode_bytes(bytes) {
            Ok((payload, n)) => if valid_utf8(payload) {
                Ok((decode_utf8(payload), n))
            } else {
                Err(CodecError::InvalidData)
            },
            Err(e) => Err(e),
        }
    }

    proof fn lemma_decode_encode(v: Seq<char>, rest: Seq<u8>) {
        lemma_decode_encode_bytes(encode_utf8(v), rest);
        encode_utf8_valid_utf8(v);
        encode_utf8_decode_utf8(v);
    }

    fn serialize(&self, out: &mut Vec<u8>) {
        serialize_bytes(self.as_str().as_bytes(), out);
    }

    fn deserialize(bytes: &[u8], pos: usize) -> (res: Result<(String, usize), CodecError>) {
        match deserialize_bytes(bytes, pos) {
            Ok((payload, next)) => match string_from_utf8(payload) {
                Some(text) => Ok((text, next)),
                None => Err(CodecError::InvalidData),
            },
            Err(e) => Err(e),
        }
    }
}

} // verus!
