//! The values that tuples hold.

use crate::error::CrustyError;
use crate::order::TotalOrder;
use vstd::prelude::*;

verus! {

/// What an operator asks of the values in its tuples: integers among them, a partial addition
/// and division, and a total order. The mathematical value of a field is its view; the static
/// spec functions say what the arithmetic does to those.
pub trait FieldValue: TotalOrder {
    /// The value of the integer field `n`.
    spec fn int_value(n: i64) -> Self::V;

    /// The integer that a value is, where it is an integer field.
    spec fn as_int(v: Self::V) -> Option<i64>;

    /// The decimal value that stands for the integer `n`.
    spec fn decimal_value(n: i64) -> Self::V;

    /// The sum of two values, or why they have none.
    spec fn plus(a: Self::V, b: Self::V) -> Result<Self::V, CrustyError>;

    /// The quotient of two values, or why they have none.
    spec fn over(a: Self::V, b: Self::V) -> Result<Self::V, CrustyError>;

    /// `as_int` recognises the integer fields, and no others.
    proof fn law_int(v: Self::V, n: i64)
        ensures
            Self::as_int(v) == Some(n) <==> v == Self::int_value(n),
    ;

    /// A decimal is no integer field.
    proof fn law_decimal(n: i64)
        ensures
            Self::as_int(Self::decimal_value(n)) is None,
    ;

    /// Integers add up as integers do; where no integer field holds the sum, they have none.
    proof fn law_int_plus(a: i64, b: i64)
        ensures
            if i64::MIN <= a + b <= i64::MAX {
                Self::plus(Self::int_value(a), Self::int_value(b)) == Ok::<Self::V, CrustyError>(
                    Self::int_value((a + b) as i64),
                )
            } else {
                Self::plus(Self::int_value(a), Self::int_value(b)) is Err
            },
    ;

    /// The integer field `n`.
    fn from_int(n: i64) -> (r: Self)
        ensures
            r@ == Self::int_value(n),
    ;

    /// The integer, where the field is one.
    fn to_int(&self) -> (r: Option<i64>)
        ensures
            r == Self::as_int(self@),
    ;

    /// The decimal field that stands for `n`.
    fn decimal_from_int(n: i64) -> (r: Self)
        ensures
            r@ == Self::decimal_value(n),
    ;

    /// Adds two fields.
    fn add_field(&self, other: &Self) -> (r: Result<Self, CrustyError>)
        ensures
            outcome_view(r) == Self::plus(self@, other@),
    ;

    /// Divides two fields.
    fn div_field(&self, other: &Self) -> (r: Result<Self, CrustyError>)
        ensures
            outcome_view(r) == Self::over(self@, other@),
    ;

    /// A field with the same value.
    fn duplicate(&self) -> (r: Self)
        ensures
            r@ == self@,
    ;
}

/// An outcome with the field in it taken by its value.
pub open spec fn outcome_view<F: View>(r: Result<F, CrustyError>) -> Result<F::V, CrustyError> {
    match r {
        Ok(f) => Ok(f@),
        Err(e) => Err(e),
    }
}

} // verus!
