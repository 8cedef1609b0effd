//! Writer of a multi-valued fast field.

use vstd::prelude::*;
use crate::fastfield::bitpacked::column_holds;
use crate::fastfield::serializer::FastFieldSerializer;
use crate::schema::field_value::Field;

verus! {

/// Calls `itertools::Itertools::minmax` and `MinMaxResult::into_option`: the
/// least and the largest of `vals`, or `None` where there is none.
#[verifier::external_body]
fn minmax(vals: &Vec<u64>) -> (res: Option<(u64, u64)>)
    ensures
        res is None <==> vals@.len() == 0,
        res matches Some((lo, hi)) ==> vals@.contains(lo) && vals@.contains(hi) && forall|i: int|
            0 <= i < vals@.len() ==> lo <= #[trigger] vals@[i] <= hi,
{
    itertools::Itertools::minmax(vals.iter().cloned()).into_option()
}

/// The offsets that the index column holds: one per doc, then the number of
/// values.
pub open spec fn index_column(doc_index: Seq<u64>, num_vals: nat) -> Seq<u64> {
    doc_index.push(num_vals as u64)
}

/// Gathers the values of a multi-valued `u64` field, doc after doc.
pub struct MultiValueIntFastFieldWriter {
    field: Field,
    vals: Vec<u64>,
    doc_index: Vec<u64>,
}

impl MultiValueIntFastFieldWriter {
    /// Every value recorded so far.
    pub closed spec fn vals(&self) -> Seq<u64> {
        self.vals@
    }

    /// For each doc started so far, where its values begin.
    pub closed spec fn doc_index(&self) -> Seq<u64> {
        self.doc_index@
    }

    /// The field being written.
    pub closed spec fn field_spec(&self) -> Field {
        self.field
    }

    /// Validity: the docs begin one after the other, inside the values.
    pub closed spec fn wf(&self) -> bool {
        &&& forall|i: int, j: int| 0 <= i <= j < self.doc_index@.len() ==> self.doc_index@[i] <= self.doc_index@[j]
        &&& forall|i: int| 0 <= i < self.doc_index@.len() ==> #[trigger] self.doc_index@[i] <= self.vals@.len()
    }

    /// Creates a writer for `field`.
    pub fn new(field: Field) -> (writer: Self)
        ensures
            writer.wf(),
            writer.field_spec() == field,
            writer.vals().len() == 0,
            writer.doc_index().len() == 0,
    {
        MultiValueIntFastFieldWriter { field, vals: Vec::new(), doc_index: Vec::new() }
    }

    /// The field being written.
    pub fn field(&self) -> (field: Field)
        ensures
            field == self.field_spec(),
    {
        self.field
    }

    /// Starts the next doc: the values recorded from now on are its values.
    pub fn next_doc(&mut self)
        requires
            old(self).wf(),
        ensures
            final(self).wf(),
            final(self).field_spec() == old(self).field_spec(),
            final(self).vals() == old(self).vals(),
            final(self).doc_index() == old(self).doc_index().push(old(self).vals().len() as u64),
    {
        self.doc_index.push(self.vals.len() as u64);
    }

    /// Records a value of the doc started last.
    pub fn add_val(&mut self, val: u64)
        requires
            old(self).wf(),
        ensures
            final(self).wf(),
            final(self).field_spec() == old(self).field_spec(),
            final(self).vals() == old(self).vals().push(val),
            final(self).doc_index() == old(self).doc_index(),
    {
        self.vals.push(val);
    }

    /// Writes two columns: under index 0 where the values of each doc begin,
    /// closed by the number of values; under index 1 the values themselves.
    pub fn serialize(&self, serializer: &mut FastFieldSerializer)
        requires
            self.wf(),
        ensures
            final(serializer).columns().len() == old(serializer).columns().len() + 2,
            final(serializer).columns().take(old(serializer).columns().len() as int) == old(serializer).columns(),
            final(serializer).columns()[old(serializer).columns().len() as int].field == self.field_spec(),
            final(serializer).columns()[old(serializer).columns().len() as int].idx == 0,
            column_holds(
                final(serializer).columns()[old(serializer).columns().len() as int].data@,
                index_column(self.doc_index(), self.vals().len()),
            ),
            final(serializer).columns()[old(serializer).columns().len() as int + 1].field == self.field_spec(),
            final(serializer).columns()[old(serializer).columns().len() as int + 1].idx == 1,
            column_holds(final(serializer).columns()[old(serializer).columns().len() as int + 1].data@, self.vals()),
    {
        let ghost before = serializer.columns();
        {
            // writing the offset index
            let max = self.vals.len() as u64;
            let mut doc_index_serializer = serializer.new_u64_fast_field_with_idx(0, max);
            let mut i: usize = 0;
            while i < self.doc_index.len()
                invariant
                    i <= self.doc_index@.len(),
                    self.wf(),
                    max == self.vals@.len(),
                    doc_index_serializer.wf(),
                    doc_index_serializer.min_value() == 0,
                    doc_index_serializer.max_value() == max,
                    doc_index_serializer.values() == self.doc_index@.take(i as int),
                decreases self.doc_index@.len() - i,
            {
                doc_index_serializer.add_val(self.doc_index[i]);
                proof {
                    assert(self.doc_index@.take(i + 1) == self.doc_index@.take(i as int).push(self.doc_index@[i as int]));
                }
                i = i + 1;
            }
            doc_index_serializer.add_val(max);
            proof {
                assert(self.doc_index@.take(i as int) == self.doc_index@);
            }
            serializer.close_field(self.field, 0, doc_index_serializer);
        }
        let ghost mid = serializer.columns();
        {
            // writing the values themselves
            let (min, max) = match minmax(&self.vals) {
                Some(bounds) => bounds,
                None => (0, 0),
            };
            let mut value_serializer = serializer.new_u64_fast_field_with_idx(min, max);
            let mut i: usize = 0;
            while i < self.vals.len()
                invariant
                    i <= self.vals@.len(),
                    value_serializer.wf(),
                    value_serializer.min_value() == min,
                    value_serializer.max_value() == max,
                    value_serializer.values() == self.vals@.take(i as int),
                    forall|k: int| 0 <= k < self.vals@.len() ==> min <= #[trigger] self.vals@[k] <= max,
                decreases self.vals@.len() - i,
            {
                value_serializer.add_val(self.vals[i]);
                proof {
                    assert(self.vals@.take(i + 1) == self.vals@.take(i as int).push(self.vals@[i as int]));
                }
                i = i + 1;
            }
            proof {
                assert(self.vals@.take(i as int) == self.vals@);
            }
            serializer.close_field(self.field, 1, value_serializer);
        }
        proof {
            let n = before.len() as int;
            let after = serializer.columns();
            assert(after.take(n) == after.take(n + 1).take(n));
            assert(after[n] == after.take(n + 1)[n]);
            assert(mid.last() == mid[n]);
        }
    }
}

} // verus!
