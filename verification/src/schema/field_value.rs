//! A field together with one of its values.

use vstd::prelude::*;
use crate::schema::value::Value;

verus! {

/// Handle of a field of the schema.
#[derive(Copy, Clone, Debug, PartialEq, PartialOrd, Eq, Ord, Hash)]
pub struct Field(pub u32);

/// `FieldValue` holds together a `Field` and its `Value`.
#[derive(Debug, Clone, Ord, PartialEq, Eq, PartialOrd)]
pub struct FieldValue {
    field: Field,
    value: Value,
}

impl FieldValue {
    /// The field, in specifications.
    pub closed spec fn field_spec(&self) -> Field {
        self.field
    }

    /// The value, in specifications.
    pub closed spec fn value_spec(&self) -> Value {
        self.value
    }

    /// Constructor.
    pub fn new(field: Field, value: Value) -> (field_value: FieldValue)
        ensures
            field_value.field_spec() == field,
            field_value.value_spec() == value,
    {
        FieldValue { field, value }
    }

    /// Field accessor.
    pub fn field(&self) -> (field: Field)
        ensures
            field == self.field_spec(),
    {
        self.field
    }

    /// Value accessor.
    pub fn value(&self) -> (value: &Value)
        ensures
            *value == self.value_spec(),
    {
        &self.value
    }
}

} // verus!
