//! The value of a document field.

use vstd::prelude::*;
use vstd::std_specs::convert::FromSpecImpl;
use crate::common::serialize::{BinarySerializable, CodecError};

verus! {

/// The code that announces a text value in the binary form.
pub const TEXT_CODE: u8 = 0;

/// The code that announces an unsigned integer in the binary form.
pub const U64_CODE: u8 = 1;

/// The code that announces a signed integer in the binary form.
pub const I64_CODE: u8 = 2;

/// The value of a field: one variant per field type.
#[derive(Debug, Clone, Eq, PartialEq, Ord, PartialOrd)]
pub enum Value {
    /// Text.
    Str(String),
    /// Unsigned 64-bit integer.
    U64(u64),
    /// Signed 64-bit integer.
    I64(i64),
}

/// A [`Value`] as a mathematical value.
pub ghost enum ValueView {
    /// Text.
    Str(Seq<char>),
    /// Unsigned 64-bit integer.
    U64(u64),
    /// Signed 64-bit integer.
    I64(i64),
}

impl View for Value {
    type V = ValueView;

    open spec fn view(&self) -> ValueView {
        match self {
            Value::Str(text) => ValueView::Str(text@),
            Value::U64(value) => ValueView::U64(*value),
            Value::I64(value) => ValueView::I64(*value),
        }
    }
}

impl Value {
    /// The text of a `Str` value.
    pub fn text(&self) -> (text: &str)
        requires
            self is Str,
        ensures
            self@ == ValueView::Str(text@),
    {
        match self {
            Value::Str(text) => text.as_str(),
            _ => "",
        }
    }

    /// The integer of a `U64` value.
    pub fn u64_value(&self) -> (value: u64)
        requires
            self is U64,
        ensures
            *self == Value::U64(value),
    {
        match self {
            Value::U64(value) => *value,
            _ => 0,
        }
    }

    /// The integer of an `I64` value.
    pub fn i64_value(&self) -> (value: i64)
        requires
            self is I64,
        ensures
            *self == Value::I64(value),
    {
        match self {
            Value::I64(value) => *value,
            _ => 0,
        }
    }
}

impl From<String> for Value {
    fn from(s: String) -> (value: Value) {
        Value::Str(s)
    }
}

impl FromSpecImpl<String> for Value {
    open spec fn obeys_from_spec() -> bool {
        true
    }

    open spec fn from_spec(s: String) -> Value {
        Value::Str(s)
    }
}

impl From<u64> for Value {
    fn from(v: u64) -> (value: Value) {
        Value::U64(v)
    }
}

impl FromSpecImpl<u64> for Value {
    open spec fn obeys_from_spec() -> bool {
        true
    }

    open spec fn from_spec(v: u64) -> Value {
        Value::U64(v)
    }
}

impl From<i64> for Value {
    fn from(v: i64) -> (value: Value) {
        Value::I64(v)
    }
}

impl FromSpecImpl<i64> for Value {
    open spec fn obeys_from_spec() -> bool {
        true
    }

    open spec fn from_spec(v: i64) -> Value {
        Value::I64(v)
    }
}

impl Value {
    /// The text value that holds a copy of `s`.
    pub fn from_text(s: &str) -> (value: Value)
        ensures
            value@ == ValueView::Str(s@),
    {
        Value::Str(s.to_owned())
    }
}

impl BinarySerializable for Value {
    open spec fn encodable(v: ValueView) -> bool {
        match v {
            ValueView::Str(text) => String::encodable(text),
            _ => true,
        }
    }

    open spec fn encode(v: ValueView) -> Seq<u8> {
        match v {
            ValueView::Str(text) => seq![TEXT_CODE] + String::encode(text),
            ValueView::U64(value) => seq![U64_CODE] + u64::encode(value),
            ValueView::I64(value) => seq![I64_CODE] + i64::encode(value),
        }
    }

    open spec fn decode(bytes: Seq<u8>) -> Result<(ValueView, int), CodecError> {
        if bytes.len() < 1 {
            Err(CodecError::UnexpectedEof)
        } else if bytes[0] == TEXT_CODE {
            match String::decode(bytes.skip(1)) {
                Ok((text, n)) => Ok((ValueView::Str(text), n + 1)),
                Err(e) => Err(e),
            }
        } else if bytes[0] == U64_CODE {
            match u64::decode(bytes.skip(1)) {
                Ok((value, n)) => Ok((ValueView::U64(value), n + 1)),
                Err(e) => Err(e),
            }
        } else if bytes[0] == I64_CODE {
            match i64::decode(bytes.skip(1)) {
                Ok((value, n)) => Ok((ValueView::I64(value), n + 1)),
                Err(e) => Err(e),
            }
        } else {
            Err(CodecError::InvalidData)
        }
    }

    proof fn lemma_decode_encode(v: ValueView, rest: Seq<u8>) {
        match v {
            ValueView::Str(text) => {
                String::lemma_decode_encode(text, rest);
                assert((seq![TEXT_CODE] + String::encode(text) + rest).skip(1) == String::encode(text) + rest);
            },
            ValueView::U64(value) => {
                u64::lemma_decode_encode(value, rest);
                assert((seq![U64_CODE] + u64::encode(value) + rest).skip(1) == u64::encode(value) + rest);
            },
            ValueView::I64(value) => {
                i64::lemma_decode_encode(value, rest);
                assert((seq![I64_CODE] + i64::encode(value) + rest).skip(1) == i64::encode(value) + rest);
            },
        }
    }

    fn serialize(&self, out: &mut Vec<u8>) {
        let ghost start = out@;
        match self {
            Value::Str(text) => {
                out.push(TEXT_CODE);
                text.serialize(out);
                assert(out@ == start + (seq![TEXT_CODE] + String::encode(text@)));
            },
            Value::U64(value) => {
                out.push(U64_CODE);
                value.serialize(out);
                assert(out@ == start + (seq![U64_CODE] + u64::encode(*value)));
            },
            Value::I64(value) => {
                out.push(I64_CODE);
                value.serialize(out);
                assert(out@ == start + (seq![I64_CODE] + i64::encode(*value)));
            },
        }
    }

    fn deserialize(bytes: &[u8], pos: usize) -> (res: Result<(Value, usize), CodecError>) {
        if pos >= bytes.len() {
            return Err(CodecError::UnexpectedEof);
        }
        let type_code = bytes[pos];
        proof {
            assert(bytes@.skip(pos as int).skip(1) == bytes@.skip(pos + 1));
        }
        if type_code == TEXT_CODE {
            match String::deserialize(bytes, pos + 1) {
                Ok((text, next)) => Ok((Value::Str(text), next)),
                Err(e) => Err(e),
            }
        } else if type_code == U64_CODE {
            match u64::deserialize(bytes, pos + 1) {
                Ok((value, next)) => Ok((Value::U64(value), next)),
                Err(e) => Err(e),
            }
        } else if type_code == I64_CODE {
            match i64::deserialize(bytes, pos + 1) {
                Ok((value, next)) => Ok((Value::I64(value), next)),
                Err(e) => Err(e),
            }
        } else {
            Err(CodecError::InvalidData)
        }
    }
}

} // verus!
