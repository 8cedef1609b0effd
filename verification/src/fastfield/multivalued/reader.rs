//! Reader of a multi-valued fast field.

use vstd::prelude::*;
use crate::fastfield::bitpacked::U64FastFieldReader;
use crate::fastfield::multivalued::writer::index_column;

verus! {

/// Why two columns do not make a multi-valued field.
#[derive(Clone, Copy, Debug, PartialEq, Eq, Structural)]
pub enum MultiValueError {
    /// The index column lacks the closing offset.
    MissingSentinel,
    /// The offsets of the index column fall, or the last one is not the
    /// number of values.
    BadOffsets,
}

/// The offsets rise, and close with `num_vals`.
pub open spec fn offsets_ok(idx: Seq<u64>, num_vals: nat) -> bool {
    &&& idx.len() >= 1
    &&& idx.last() == num_vals
    &&& forall|i: int| 0 <= i < idx.len() - 1 ==> #[trigger] idx[i] <= idx[i + 1]
}

/// The values of doc `doc`: those between its offset and the next one.
pub open spec fn doc_values(idx: Seq<u64>, vals: Seq<u64>, doc: int) -> Seq<u64> {
    vals.subrange(idx[doc] as int, idx[doc + 1] as int)
}

/// Offsets that rise from each to the next rise over any distance.
pub proof fn lemma_offsets_rise_between(idx: Seq<u64>, i: int, j: int)
    requires
        forall|k: int| 0 <= k < idx.len() - 1 ==> #[trigger] idx[k] <= idx[k + 1],
        0 <= i <= j < idx.len(),
    ensures
        idx[i] <= idx[j],
    decreases j - i,
{
    if i < j {
        assert(idx[i] <= idx[i + 1]);
        lemma_offsets_rise_between(idx, i + 1, j);
    }
}

/// Rising offsets rise over any distance, and stay within the values.
pub proof fn lemma_offsets_rise(idx: Seq<u64>, num_vals: nat, i: int, j: int)
    requires
        offsets_ok(idx, num_vals),
        0 <= i <= j < idx.len(),
    ensures
        idx[i] <= idx[j] <= num_vals,
{
    lemma_offsets_rise_between(idx, i, j);
    lemma_offsets_rise_between(idx, j, idx.len() - 1);
}

/// Reader for a multi-valued `u64` fast field, made of two columns: the
/// values of all docs one after the other, and for each doc the index of its
/// first value.
pub struct MultiValueIntFastFieldReader {
    vals: Vec<u64>,
    idx_reader: U64FastFieldReader,
    vals_reader: U64FastFieldReader,
}

impl MultiValueIntFastFieldReader {
    /// The index column.
    pub closed spec fn idx(&self) -> Seq<u64> {
        self.idx_reader.values()
    }

    /// The column of values.
    pub closed spec fn all_vals(&self) -> Seq<u64> {
        self.vals_reader.values()
    }

    /// The number of docs.
    pub open spec fn num_docs(&self) -> int {
        self.idx().len() - 1
    }

    /// The values of `doc`.
    pub open spec fn values_of(&self, doc: int) -> Seq<u64> {
        doc_values(self.idx(), self.all_vals(), doc)
    }

    /// Validity: both columns can be read, and the offsets fit the values.
    pub closed spec fn wf(&self) -> bool {
        &&& self.idx_reader.wf()
        &&& self.vals_reader.wf()
        &&& offsets_ok(self.idx_reader.values(), self.vals_reader.values().len())
    }

    /// Joins the two columns, after checking that the offsets rise and close
    /// with the number of values.
    pub fn open(idx_reader: U64FastFieldReader, vals_reader: U64FastFieldReader) -> (res: Result<
        MultiValueIntFastFieldReader,
        MultiValueError,
    >)
        requires
            idx_reader.wf(),
            vals_reader.wf(),
        ensures
            res is Ok <==> offsets_ok(idx_reader.values(), vals_reader.values().len()),
            match res {
                Ok(reader) => reader.wf() && reader.idx() == idx_reader.values() && reader.all_vals()
                    == vals_reader.values(),
                Err(e) => e == (if idx_reader.values().len() == 0 {
                    MultiValueError::MissingSentinel
                } else {
                    MultiValueError::BadOffsets
                }),
            },
    {
        let n = idx_reader.num_vals();
        if n == 0 {
            return Err(MultiValueError::MissingSentinel);
        }
        let mut previous = idx_reader.get(0);
        let mut i: usize = 1;
        while i < n
            invariant
                1 <= i <= n,
                n == idx_reader.values().len(),
                idx_reader.wf(),
                previous == idx_reader.values()[i - 1],
                forall|k: int| 0 <= k < i - 1 ==> #[trigger] idx_reader.values()[k] <= idx_reader.values()[k + 1],
            decreases n - i,
        {
            let offset = idx_reader.get(i);
            if offset < previous {
                return Err(MultiValueError::BadOffsets);
            }
            previous = offset;
            i = i + 1;
        }
        if previous != vals_reader.num_vals() as u64 {
            return Err(MultiValueError::BadOffsets);
        }
        Ok(MultiValueIntFastFieldReader { vals: Vec::new(), idx_reader, vals_reader })
    }

    /// The number of docs.
    pub fn len(&self) -> (count: usize)
        requires
            self.wf(),
        ensures
            count == self.num_docs(),
    {
        self.idx_reader.num_vals() - 1
    }

    /// Fills `out` with the values of `doc`.
    pub fn get_vals_into(&self, doc: u32, out: &mut Vec<u64>)
        requires
            self.wf(),
            doc < self.num_docs(),
        ensures
            final(out)@ == self.values_of(doc as int),
    {
        out.clear();
        let num_offsets = self.idx_reader.num_vals();
        let count = self.vals_reader.num_vals();
        let start = self.idx_reader.get(doc as usize);
        let stop = self.idx_reader.get(doc as usize + 1);
        proof {
            let idx = self.idx_reader.values();
            let num = self.vals_reader.values().len();
            lemma_offsets_rise(idx, num, doc as int, doc + 1);
        }
        let mut val_id = start;
        while val_id < stop
            invariant
                start <= val_id <= stop,
                stop <= self.vals_reader.values().len(),
                count == self.vals_reader.values().len(),
                self.vals_reader.wf(),
                out@ == self.vals_reader.values().subrange(start as int, val_id as int),
            decreases stop - val_id,
        {
            let val = self.vals_reader.get(val_id as usize);
            out.push(val);
            proof {
                let all = self.vals_reader.values();
                assert(all.subrange(start as int, val_id + 1) == all.subrange(start as int, val_id as int).push(
                    all[val_id as int],
                ));
            }
            val_id = val_id + 1;
        }
    }

    /// Returns the array of values associated to the given `doc`.
    pub fn get_vals(&mut self, doc: u32) -> (vals: &[u64])
        requires
            old(self).wf(),
            doc < old(self).num_docs(),
        ensures
            vals@ == old(self).values_of(doc as int),
    {
        let mut vals = Vec::new();
        self.get_vals_into(doc, &mut vals);
        self.vals = vals;
        self.vals.as_slice()
    }
}

/// What a writer wrote is what a reader of the two columns reads: the
/// values of each doc are those recorded between its start and the next.
pub proof fn lemma_written_docs_read_back(doc_index: Seq<u64>, vals: Seq<u64>, reader: MultiValueIntFastFieldReader)
    requires
        reader.idx() == index_column(doc_index, vals.len()),
        reader.all_vals() == vals,
        vals.len() <= u64::MAX,
    ensures
        reader.num_docs() == doc_index.len(),
        forall|doc: int|
            0 <= doc < doc_index.len() ==> #[trigger] reader.values_of(doc) == vals.subrange(
                doc_index[doc] as int,
                if doc + 1 < doc_index.len() {
                    doc_index[doc + 1] as int
                } else {
                    vals.len() as int
                },
            ),
{
}

} // verus!
