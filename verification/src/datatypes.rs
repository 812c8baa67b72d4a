//! The fields of the engine's own tuples: integers, decimals and strings.

use crate::double::{law_nearest_double, nearest_double, round_to_double};
use crate::error::CrustyError;
use crate::field::FieldValue;
use crate::field_laws::law_field_quotient;
use crate::order::{
    compare_keys, key_le, lemma_key_le_antisymmetric, lemma_key_le_total, lemma_key_le_transitive,
    values, Order, TotalOrder,
};
use vstd::prelude::*;
use vstd::utf8::encode_utf8;

verus! {

/// How many units of a decimal make one.
pub const DECIMAL_UNITS: i128 = 10_000;

/// A field.
#[derive(Debug, PartialEq, Eq)]
pub enum Field {
    Int(i64),
    /// A decimal number with four digits after the point, as a number of ten-thousandths.
    Decimal(i128),
    String(String),
}

/// The value of a field. A string is valued by its UTF-8 bytes.
pub ghost enum FieldModel {
    Int(i64),
    Decimal(i128),
    String(Seq<u8>),
}

impl View for Field {
    type V = FieldModel;

    open spec fn view(&self) -> FieldModel {
        match self {
            Field::Int(n) => FieldModel::Int(*n),
            Field::Decimal(units) => FieldModel::Decimal(*units),
            Field::String(s) => FieldModel::String(encode_utf8(s@)),
        }
    }
}

/// The quotient of two integers, rounded towards zero.
pub open spec fn truncated(a: int, b: int) -> int {
    if a >= 0 && b > 0 {
        a / b
    } else if a < 0 && b > 0 {
        -((-a) / b)
    } else if a >= 0 {
        -(a / (-b))
    } else {
        (-a) / (-b)
    }
}

impl TotalOrder for Field {
    /// Integers come first, then decimals, then strings.
    open spec fn le(a: FieldModel, b: FieldModel) -> bool {
        match (a, b) {
            (FieldModel::Int(m), FieldModel::Int(n)) => m <= n,
            (FieldModel::Int(_), _) => true,
            (FieldModel::Decimal(_), FieldModel::Int(_)) => false,
            (FieldModel::Decimal(m), FieldModel::Decimal(n)) => m <= n,
            (FieldModel::Decimal(_), FieldModel::String(_)) => true,
            (FieldModel::String(s), FieldModel::String(t)) => key_le::<u8>(s, t),
            (FieldModel::String(_), _) => false,
        }
    }

    proof fn law_antisymmetric(a: FieldModel, b: FieldModel) {
        if let (FieldModel::String(s), FieldModel::String(t)) = (a, b) {
            lemma_key_le_antisymmetric::<u8>(s, t);
        }
    }

    proof fn law_total(a: FieldModel, b: FieldModel) {
        if let (FieldModel::String(s), FieldModel::String(t)) = (a, b) {
            lemma_key_le_total::<u8>(s, t);
        }
    }

    proof fn law_transitive(a: FieldModel, b: FieldModel, c: FieldModel) {
        if let (FieldModel::String(s), FieldModel::String(t), FieldModel::String(u)) = (a, b, c) {
            lemma_key_le_transitive::<u8>(s, t, u);
        }
    }

    fn compare(&self, other: &Field) -> (r: Order)
        ensures
            match (*self, *other) {
                (Field::Int(m), Field::Int(n)) => {
                    &&& r == Order::Less <==> m < n
                    &&& r == Order::Equal <==> m == n
                },
                (Field::Decimal(u), Field::Decimal(v)) => {
                    &&& r == Order::Less <==> u < v
                    &&& r == Order::Equal <==> u == v
                },
                _ => true,
            },
    {
        match (self, other) {
            (Field::Int(m), Field::Int(n)) => if *m < *n {
                Order::Less
            } else if *m == *n {
                Order::Equal
            } else {
                Order::Greater
            },
            (Field::Int(_), _) => Order::Less,
            (Field::Decimal(_), Field::Int(_)) => Order::Greater,
            (Field::Decimal(m), Field::Decimal(n)) => if *m < *n {
                Order::Less
            } else if *m == *n {
                Order::Equal
            } else {
                Order::Greater
            },
            (Field::Decimal(_), Field::String(_)) => Order::Less,
            (Field::String(s), Field::String(t)) => {
                let a = s.as_str().as_bytes();
                let b = t.as_str().as_bytes();
                assert(values(a@) =~= a@);
                assert(values(b@) =~= b@);
                compare_keys(a, b)
            },
            (Field::String(_), _) => Order::Greater,
        }
    }
}

impl FieldValue for Field {
    open spec fn int_value(n: i64) -> FieldModel {
        FieldModel::Int(n)
    }

    open spec fn as_int(v: FieldModel) -> Option<i64> {
        match v {
            FieldModel::Int(n) => Some(n),
            _ => None,
        }
    }

    /// Decimals are made of doubles: the integer goes to the nearest one first.
    open spec fn decimal_value(n: i64) -> FieldModel {
        FieldModel::Decimal((nearest_double(n as int) * DECIMAL_UNITS) as i128)
    }

    /// Integers add to integers and decimals to decimals; nothing else adds.
    open spec fn plus(a: FieldModel, b: FieldModel) -> Result<FieldModel, CrustyError> {
        match (a, b) {
            (FieldModel::Int(m), FieldModel::Int(n)) => if i64::MIN <= m + n <= i64::MAX {
                Ok(FieldModel::Int((m + n) as i64))
            } else {
                Err(CrustyError::Overflow)
            },
            (FieldModel::Decimal(m), FieldModel::Decimal(n)) => if i128::MIN <= m + n
                <= i128::MAX {
                Ok(FieldModel::Decimal((m + n) as i128))
            } else {
                Err(CrustyError::Overflow)
            },
            _ => Err(CrustyError::TypeMismatch),
        }
    }

    /// Decimals divide by integers, rounding towards zero; nothing else divides.
    open spec fn over(a: FieldModel, b: FieldModel) -> Result<FieldModel, CrustyError> {
        match (a, b) {
            (FieldModel::Decimal(m), FieldModel::Int(n)) => if n == 0 {
                Err(CrustyError::DivisionByZero)
            } else if truncated(m as int, n as int) <= i128::MAX {
                Ok(FieldModel::Decimal(truncated(m as int, n as int) as i128))
            } else {
                Err(CrustyError::Overflow)
            },
            _ => Err(CrustyError::TypeMismatch),
        }
    }

    proof fn law_int(v: FieldModel, n: i64) {
    }

    proof fn law_decimal(n: i64) {
    }

    proof fn law_int_plus(a: i64, b: i64) {
    }

    fn from_int(n: i64) -> (r: Field)
        ensures
            r == Field::Int(n),
    {
        Field::Int(n)
    }

    fn to_int(&self) -> (r: Option<i64>)
        ensures
            match *self {
                Field::Int(n) => r == Some(n),
                _ => r is None,
            },
    {
        match self {
            Field::Int(n) => Some(*n),
            _ => None,
        }
    }

    fn decimal_from_int(n: i64) -> (r: Field)
        ensures
            r matches Field::Decimal(units) && units == 10_000 * nearest_double(n as int),
    {
        proof {
            law_nearest_double(n as int);
        }
        Field::Decimal(round_to_double(n) * DECIMAL_UNITS)
    }

    fn add_field(&self, other: &Field) -> (r: Result<Field, CrustyError>)
        ensures
            match (*self, *other) {
                (Field::Int(m), Field::Int(n)) => match r {
                    Ok(sum) => sum matches Field::Int(k) && k == m + n,
                    Err(e) => e == CrustyError::Overflow && !(i64::MIN <= m + n <= i64::MAX),
                },
                (Field::Decimal(u), Field::Decimal(v)) => match r {
                    Ok(sum) => sum matches Field::Decimal(w) && w == u + v,
                    Err(e) => e == CrustyError::Overflow && !(i128::MIN <= u + v <= i128::MAX),
                },
                _ => r == Err::<Field, CrustyError>(CrustyError::TypeMismatch),
            },
    {
        match (self, other) {
            (Field::Int(m), Field::Int(n)) => match m.checked_add(*n) {
                Some(sum) => Ok(Field::Int(sum)),
                None => Err(CrustyError::Overflow),
            },
            (Field::Decimal(m), Field::Decimal(n)) => match m.checked_add(*n) {
                Some(sum) => Ok(Field::Decimal(sum)),
                None => Err(CrustyError::Overflow),
            },
            _ => Err(CrustyError::TypeMismatch),
        }
    }

    fn div_field(&self, other: &Field) -> (r: Result<Field, CrustyError>)
        ensures
            match (*self, *other) {
                (Field::Decimal(u), Field::Int(n)) => {
                    &&& n == 0 ==> r == Err::<Field, CrustyError>(CrustyError::DivisionByZero)
                    &&& n > 0 && u >= 0 ==> (r matches Ok(quotient) && quotient matches
                        Field::Decimal(w) && w >= 0 && w * n <= u < (w + 1) * n)
                    &&& n > 0 && u < 0 ==> (r matches Ok(quotient) && quotient matches
                        Field::Decimal(w) && w <= 0 && -w * n <= -u < (-w + 1) * n)
                },
                _ => r == Err::<Field, CrustyError>(CrustyError::TypeMismatch),
            },
    {
        proof {
            if let (Field::Decimal(u), Field::Int(n)) = (self, other) {
                law_field_quotient(*u, *n);
            }
        }
        match (self, other) {
            (Field::Decimal(m), Field::Int(n)) => if *n == 0 {
                Err(CrustyError::DivisionByZero)
            } else {
                match m.checked_div(*n as i128) {
                    Some(quotient) => Ok(Field::Decimal(quotient)),
                    None => Err(CrustyError::Overflow),
                }
            },
            _ => Err(CrustyError::TypeMismatch),
        }
    }

    fn duplicate(&self) -> (r: Field)
        ensures
            match *self {
                Field::String(s) => r matches Field::String(t) && t@ == s@,
                _ => r == *self,
            },
    {
        match self {
            Field::Int(n) => Field::Int(*n),
            Field::Decimal(units) => Field::Decimal(*units),
            Field::String(s) => Field::String(s.clone()),
        }
    }
}

} // verus!
