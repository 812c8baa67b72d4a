//! Tuples and their schemas.

use crate::field::FieldValue;
use crate::order::{lemma_values_push, values};
use vstd::prelude::*;

verus! {

/// A row: a sequence of fields.
#[derive(Debug, PartialEq, Eq)]
pub struct Tuple<F> {
    pub fields: Vec<F>,
}

impl<F: View> View for Tuple<F> {
    type V = Seq<F::V>;

    open spec fn view(&self) -> Seq<F::V> {
        values(self.fields@)
    }
}

impl<F: FieldValue> Tuple<F> {
    pub fn new(fields: Vec<F>) -> (r: Self)
        ensures
            r.fields == fields,
            r@ == values(fields@),
    {
        Tuple { fields }
    }

    /// A tuple with the same values.
    pub fn duplicate(&self) -> (r: Self)
        ensures
            r@ == self@,
    {
        let mut fields: Vec<F> = Vec::new();
        let mut i: usize = 0;
        while i < self.fields.len()
            invariant
                i <= self.fields.len(),
                values(fields@) == self@.take(i as int),
            decreases self.fields.len() - i,
        {
            let field = self.fields[i].duplicate();
            proof {
                lemma_values_push(fields@, field);
                assert(self@.take(i + 1) =~= self@.take(i as int).push(field@));
            }
            fields.push(field);
            i = i + 1;
        }
        assert(self@.take(i as int) =~= self@);
        Tuple { fields }
    }
}

/// The value of a tuple is, column by column, that of its fields.
pub proof fn law_tuple<F: View>(t: Tuple<F>)
    ensures
        t@.len() == t.fields@.len(),
        forall|i: int| 0 <= i < t.fields@.len() ==> #[trigger] t@[i] == t.fields@[i]@,
{
}

/// An attribute of a relation.
#[derive(Debug, PartialEq, Eq)]
pub struct Attribute {
    pub name: String,
}

/// The attributes of a relation, in column order.
#[derive(Debug, PartialEq, Eq)]
pub struct TableSchema {
    pub attributes: Vec<Attribute>,
}

impl TableSchema {
    pub fn new(attributes: Vec<Attribute>) -> (r: Self)
        ensures
            r.attributes == attributes,
    {
        TableSchema { attributes }
    }
}

} // verus!
