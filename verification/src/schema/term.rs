//! Terms: the values that an index is searched for.

use vstd::prelude::*;
use crate::schema::field_value::Field;

verus! {

/// A value of a field, as the index holds it: UTF-8 for text, big-endian
/// for integers, the encoding of the path for facets.
#[derive(Clone, PartialEq, Eq, PartialOrd, Ord, Hash, Debug)]
pub struct Term {
    field: Field,
    value: Vec<u8>,
}

impl Term {
    /// The field, in specifications.
    pub closed spec fn field_spec(&self) -> Field {
        self.field
    }

    /// The bytes of the value, in specifications.
    pub closed spec fn value_spec(&self) -> Seq<u8> {
        self.value@
    }

    /// The term of `field` whose value is `value_bytes`.
    pub fn from_field_bytes(field: Field, value_bytes: Vec<u8>) -> (term: Term)
        ensures
            term.field_spec() == field,
            term.value_spec() == value_bytes@,
    {
        Term { field, value: value_bytes }
    }

    /// The term of `field` for an unsigned integer: the integer in big-endian
    /// order, so that terms sort as the integers do.
    pub fn from_field_u64(field: Field, val: u64) -> (term: Term)
        ensures
            term.field_spec() == field,
            term.value_spec() == big_endian(val),
    {
        let mut value: Vec<u8> = Vec::new();
        value.push((val >> 56) as u8);
        value.push((val >> 48) as u8);
        value.push((val >> 40) as u8);
        value.push((val >> 32) as u8);
        value.push((val >> 24) as u8);
        value.push((val >> 16) as u8);
        value.push((val >> 8) as u8);
        value.push(val as u8);
        proof {
            assert(value@ == big_endian(val));
        }
        Term { field, value }
    }

    /// The field of the term.
    pub fn field(&self) -> (field: Field)
        ensures
            field == self.field_spec(),
    {
        self.field
    }

    /// The bytes of the value of the term.
    pub fn value_bytes(&self) -> (bytes: &[u8])
        ensures
            bytes@ == self.value_spec(),
    {
        self.value.as_slice()
    }
}

/// The eight bytes of `val`, the highest first.
pub open spec fn big_endian(val: u64) -> Seq<u8> {
    seq![
        (val >> 56) as u8,
        (val >> 48) as u8,
        (val >> 40) as u8,
        (val >> 32) as u8,
        (val >> 24) as u8,
        (val >> 16) as u8,
        (val >> 8) as u8,
        val as u8,
    ]
}

} // verus!
