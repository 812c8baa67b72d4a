//! Expressions over tuples.

use crate::field::FieldValue;
use crate::tuple::Tuple;
use vstd::prelude::*;

verus! {

/// An expression that computes a field from a tuple.
pub trait Expr<F: FieldValue> {
    /// Whether the expression has a value on this row.
    spec fn defined(&self, row: Seq<F::V>) -> bool;

    /// The value of the expression on this row.
    spec fn value(&self, row: Seq<F::V>) -> F::V;

    /// Evaluates the expression.
    fn eval(&self, tuple: &Tuple<F>) -> (r: F)
        requires
            self.defined(tuple@),
        ensures
            r@ == self.value(tuple@),
    ;
}

/// The expression that reads one column.
#[derive(Clone, Copy, Debug, PartialEq, Eq)]
pub struct ColumnExpr {
    pub index: usize,
}

/// The expression that reads column `index`.
pub fn colidx_expr(index: usize) -> (r: ColumnExpr)
    ensures
        r.index == index,
{
    ColumnExpr { index }
}

impl<F: FieldValue> Expr<F> for ColumnExpr {
    open spec fn defined(&self, row: Seq<F::V>) -> bool {
        self.index < row.len()
    }

    open spec fn value(&self, row: Seq<F::V>) -> F::V {
        row[self.index as int]
    }

    fn eval(&self, tuple: &Tuple<F>) -> (r: F) {
        tuple.fields[self.index].duplicate()
    }
}

/// A column expression has a value where there is such a column, and its value is the value there.
pub proof fn law_column_expr<F: FieldValue>(e: ColumnExpr, row: Seq<F::V>)
    ensures
        <ColumnExpr as Expr<F>>::defined(&e, row) <==> e.index < row.len(),
        e.index < row.len() ==> <ColumnExpr as Expr<F>>::value(&e, row) == row[e.index as int],
{
}

} // verus!
