//! The file of the fast fields of a segment: one column after another.

use vstd::prelude::*;
use crate::fastfield::bitpacked::FastSingleFieldSerializer;
use crate::schema::field_value::Field;

verus! {

/// One finished column of the fast-field file.
pub struct Column {
    /// The field the column belongs to.
    pub field: Field,
    /// What distinguishes the columns of one field.
    pub idx: usize,
    /// The bytes of the column.
    pub data: Vec<u8>,
}

/// Collects the columns of the fast fields of a segment.
pub struct FastFieldSerializer {
    columns: Vec<Column>,
}

impl FastFieldSerializer {
    /// The columns closed so far.
    pub closed spec fn columns(&self) -> Seq<Column> {
        self.columns@
    }

    /// A serializer without columns.
    pub fn new() -> (serializer: FastFieldSerializer)
        ensures
            serializer.columns().len() == 0,
    {
        FastFieldSerializer { columns: Vec::new() }
    }

    /// Starts a column whose values lie between `min_value` and `max_value`.
    pub fn new_u64_fast_field_with_idx(&self, min_value: u64, max_value: u64) -> (column: FastSingleFieldSerializer)
        requires
            min_value <= max_value,
        ensures
            column.wf(),
            column.values() == Seq::<u64>::empty(),
            column.min_value() == min_value,
            column.max_value() == max_value,
    {
        FastSingleFieldSerializer::open(min_value, max_value)
    }

    /// Closes `column` and files it under `field` and `idx`.
    pub fn close_field(&mut self, field: Field, idx: usize, column: FastSingleFieldSerializer)
        requires
            column.wf(),
        ensures
            final(self).columns().len() == old(self).columns().len() + 1,
            final(self).columns().take(old(self).columns().len() as int) == old(self).columns(),
            final(self).columns().last().field == field,
            final(self).columns().last().idx == idx,
            crate::fastfield::bitpacked::column_holds(final(self).columns().last().data@, column.values()),
    {
        let data = column.close_field();
        self.columns.push(Column { field, idx, data });
        proof {
            assert(self.columns@.take(old(self).columns@.len() as int) == old(self).columns@);
        }
    }

    /// Gives the columns out.
    pub fn close(self) -> (columns: Vec<Column>)
        ensures
            columns@ == self.columns(),
    {
        self.columns
    }
}

} // verus!
