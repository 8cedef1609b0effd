//! Documents by field name, as they are handed out for display.

use vstd::prelude::*;
use crate::schema::value::Value;

verus! {

/// A document as a map from the name of each field to its values.
pub struct NamedFieldDocument {
    fields: Vec<(String, Vec<Value>)>,
}

impl NamedFieldDocument {
    /// The values of each field, by the name of the field.
    pub closed spec fn entries(&self) -> Map<Seq<char>, Vec<Value>> {
        Map::new(
            |name: Seq<char>| exists|i: int| 0 <= i < self.fields@.len() && (#[trigger] self.fields@[i]).0@ == name,
            |name: Seq<char>|
                self.fields@[choose|i: int| 0 <= i < self.fields@.len() && (#[trigger] self.fields@[i]).0@ == name].1,
        )
    }

    /// Validity: no name occurs twice.
    pub closed spec fn wf(&self) -> bool {
        forall|i: int, j: int|
            0 <= i < j < self.fields@.len() ==> (#[trigger] self.fields@[i]).0@ != (#[trigger] self.fields@[j]).0@
    }

    /// A document without fields.
    pub fn new() -> (document: NamedFieldDocument)
        ensures
            document.wf(),
            document.entries() == Map::<Seq<char>, Vec<Value>>::empty(),
    {
        let document = NamedFieldDocument { fields: Vec::new() };
        proof {
            assert(document.entries() =~= Map::<Seq<char>, Vec<Value>>::empty());
        }
        document
    }

    /// Sets the values of the field `field_name`, in place of those it had.
    pub fn insert(&mut self, field_name: String, values: Vec<Value>)
        requires
            old(self).wf(),
        ensures
            final(self).wf(),
            final(self).entries() == old(self).entries().insert(field_name@, values),
    {
        let ghost before = self.fields@;
        let mut i: usize = 0;
        while i < self.fields.len()
            invariant
                i <= self.fields@.len(),
                self.fields@ == before,
                before == old(self).fields@,
                old(self).wf(),
                forall|j: int| 0 <= j < i ==> (#[trigger] before[j]).0@ != field_name@,
            decreases self.fields@.len() - i,
        {
            if self.fields[i].0 == field_name {
                self.fields.set(i, (field_name, values));
                proof {
                    let after = self.fields@;
                    assert(after.len() == before.len());
                    assert forall|k: int| 0 <= k < after.len() implies (#[trigger] after[k]).0@ == before[k].0@ by {
                        if k != i {
                            assert(after[k] == before[k]);
                        }
                    }
                    assert forall|a: int, b: int| 0 <= a < b < after.len() implies (#[trigger] after[a]).0@ != (
                    #[trigger] after[b]).0@ by {
                        assert(before[a].0@ != before[b].0@);
                    }
                    assert forall|name: Seq<char>|
                        self.entries().dom().contains(name) == old(self).entries().insert(
                            field_name@,
                            values,
                        ).dom().contains(name) by {
                        if self.entries().dom().contains(name) {
                            let k = choose|k: int| 0 <= k < after.len() && (#[trigger] after[k]).0@ == name;
                            assert(before[k].0@ == name);
                        }
                        if old(self).entries().dom().contains(name) {
                            let k = choose|k: int| 0 <= k < before.len() && (#[trigger] before[k]).0@ == name;
                            assert(after[k].0@ == name);
                        }
                        if name == field_name@ {
                            assert(after[i as int].0@ == name);
                        }
                    }
                    assert forall|name: Seq<char>| self.entries().dom().contains(name) implies self.entries()[name]
                        == old(self).entries().insert(field_name@, values)[name] by {
                        let k = choose|k: int| 0 <= k < after.len() && (#[trigger] after[k]).0@ == name;
                        if name == field_name@ {
                            if k != i {
                                if k < i {
                                    assert(after[k].0@ != after[i as int].0@);
                                } else {
                                    assert(after[i as int].0@ != after[k].0@);
                                }
                            }
                        } else {
                            assert(before[k].0@ == name);
                            assert(after[k] == before[k]);
                            let m = choose|m: int| 0 <= m < before.len() && (#[trigger] before[m]).0@ == name;
                            if k != m {
                                if k < m {
                                    assert(before[k].0@ != before[m].0@);
                                } else {
                                    assert(before[m].0@ != before[k].0@);
                                }
                            }
                        }
                    }
                    assert(self.entries() =~= old(self).entries().insert(field_name@, values));
                }
                return ;
            }
            i = i + 1;
        }
        self.fields.push((field_name, values));
        proof {
            let after = self.fields@;
            let n = before.len() as int;
            assert forall|a: int, b: int| 0 <= a < b < after.len() implies (#[trigger] after[a]).0@ != (
            #[trigger] after[b]).0@ by {
                if b < n {
                    assert(before[a].0@ != before[b].0@);
                } else {
                    assert(before[a].0@ != field_name@);
                }
            }
            assert forall|name: Seq<char>|
                self.entries().dom().contains(name) == old(self).entries().insert(field_name@, values).dom().contains(
                    name,
                ) by {
                if self.entries().dom().contains(name) {
                    let k = choose|k: int| 0 <= k < after.len() && (#[trigger] after[k]).0@ == name;
                    if k < n {
                        assert(before[k].0@ == name);
                    }
                }
                if old(self).entries().dom().contains(name) {
                    let k = choose|k: int| 0 <= k < before.len() && (#[trigger] before[k]).0@ == name;
                    assert(after[k].0@ == name);
                }
                if name == field_name@ {
                    assert(after[n].0@ == name);
                }
            }
            assert forall|name: Seq<char>| self.entries().dom().contains(name) implies self.entries()[name] == old(self).entries().insert(field_name@, values)[name] by {
                let k = choose|k: int| 0 <= k < after.len() && (#[trigger] after[k]).0@ == name;
                if name == field_name@ {
                    if k < n {
                        assert(before[k].0@ != field_name@);
                    }
                } else {
                    let m = choose|m: int| 0 <= m < before.len() && (#[trigger] before[m]).0@ == name;
                    if k != m {
                        if k < m {
                            assert(after[k].0@ != after[m].0@);
                        } else {
                            assert(after[m].0@ != after[k].0@);
                        }
                    }
                }
            }
            assert(self.entries() =~= old(self).entries().insert(field_name@, values));
        }
    }

    /// The fields with their values, in the order in which the names were
    /// first set.
    pub closed spec fn fields(&self) -> Seq<(String, Vec<Value>)> {
        self.fields@
    }

    /// The fields with their values, in the order in which the names were
    /// first set.
    pub fn into_fields(self) -> (fields: Vec<(String, Vec<Value>)>)
        ensures
            fields@ == self.fields(),
    {
        self.fields
    }
}

} // verus!
