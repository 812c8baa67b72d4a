//! What the aggregate functions make of integers.

use crate::datatypes::{truncated, Field, FieldModel, DECIMAL_UNITS};
use crate::double::{law_nearest_double, nearest_double, EXACT_LIMIT};
use crate::error::CrustyError;
use crate::field::FieldValue;
use crate::aggregate_laws::{is_aggregate, total};
use crate::plan::{averaged, AggOp};
use vstd::prelude::*;

verus! {

/// The sum of integers.
pub open spec fn int_sum(ns: Seq<i64>) -> int
    decreases ns.len(),
{
    if ns.len() == 0 {
        0
    } else {
        int_sum(ns.drop_last()) + ns.last()
    }
}

/// The sum of the doubles that integers are converted to.
pub open spec fn double_sum(ns: Seq<i64>) -> int
    decreases ns.len(),
{
    if ns.len() == 0 {
        0
    } else {
        double_sum(ns.drop_last()) + nearest_double(ns.last() as int)
    }
}

/// The integer fields of these integers.
pub open spec fn int_fields<F: FieldValue>(ns: Seq<i64>) -> Seq<F::V> {
    ns.map_values(|n: i64| F::int_value(n))
}

/// The sum of integer fields is the integer field of their sum, as long as the sums on the way fit.
pub proof fn law_integer_sum<F: FieldValue>(ns: Seq<i64>)
    requires
        ns.len() > 0,
        forall|k: int|
            0 < k <= ns.len() ==> i64::MIN <= int_sum(#[trigger] ns.take(k)) <= i64::MAX,
    ensures
        is_aggregate::<F>(AggOp::Sum, int_fields::<F>(ns), Ok(F::int_value(int_sum(ns) as i64))),
    decreases ns.len(),
{
    let fields = int_fields::<F>(ns);
    assert(ns.take(ns.len() as int) =~= ns);
    if ns.len() == 1 {
        assert(ns.drop_last() =~= Seq::empty());
        assert(int_sum(ns.drop_last()) == 0);
    } else {
        let rest = ns.drop_last();
        assert forall|k: int| 0 < k <= rest.len() implies i64::MIN <= int_sum(
            #[trigger] rest.take(k),
        ) <= i64::MAX by {
            assert(rest.take(k) =~= ns.take(k));
        }
        law_integer_sum::<F>(rest);
        assert(fields.drop_last() =~= int_fields::<F>(rest));
        assert(rest =~= ns.take(ns.len() - 1));
        F::law_int_plus(int_sum(rest) as i64, ns.last());
    }
}

/// The sum of integers as decimals.
proof fn lemma_decimal_total(ns: Seq<i64>)
    requires
        ns.len() > 0,
        forall|k: int|
            0 < k <= ns.len() ==> i128::MIN <= DECIMAL_UNITS * double_sum(#[trigger] ns.take(k))
                <= i128::MAX,
    ensures
        total::<Field>(
            int_fields::<Field>(ns).map_values(|v: FieldModel| averaged::<Field>(v)),
        ) == Ok::<FieldModel, CrustyError>(
            FieldModel::Decimal((DECIMAL_UNITS * double_sum(ns)) as i128),
        ),
    decreases ns.len(),
{
    let decimals = int_fields::<Field>(ns).map_values(|v: FieldModel| averaged::<Field>(v));
    assert(ns.take(ns.len() as int) =~= ns);
    if ns.len() == 1 {
        assert(ns.drop_last() =~= Seq::empty());
        assert(double_sum(ns.drop_last()) == 0);
    } else {
        let rest = ns.drop_last();
        assert forall|k: int| 0 < k <= rest.len() implies i128::MIN <= DECIMAL_UNITS * double_sum(
            #[trigger] rest.take(k),
        ) <= i128::MAX by {
            assert(rest.take(k) =~= ns.take(k));
        }
        lemma_decimal_total(rest);
        assert(decimals.drop_last() =~= int_fields::<Field>(rest).map_values(
            |v: FieldModel| averaged::<Field>(v),
        ));
        assert(rest =~= ns.take(ns.len() - 1));
        law_nearest_double(ns.last() as int);
        assert(DECIMAL_UNITS * double_sum(ns) == DECIMAL_UNITS * double_sum(rest) + DECIMAL_UNITS
            * nearest_double(ns.last() as int));
    }
}

/// The average of integer fields is the sum of the doubles that they are converted to, divided by
/// their number, to four digits after the point and rounded towards zero, as long as the sums on
/// the way fit.
pub proof fn law_integer_average(ns: Seq<i64>)
    requires
        0 < ns.len() <= i64::MAX,
        forall|k: int|
            0 < k <= ns.len() ==> i128::MIN <= DECIMAL_UNITS * double_sum(#[trigger] ns.take(k))
                <= i128::MAX,
    ensures
        is_aggregate::<Field>(
            AggOp::Avg,
            int_fields::<Field>(ns),
            Ok(
                FieldModel::Decimal(
                    truncated(DECIMAL_UNITS * double_sum(ns), ns.len() as int) as i128,
                ),
            ),
        ),
{
    lemma_decimal_total(ns);
    assert(ns.take(ns.len() as int) =~= ns);
    let units = DECIMAL_UNITS * double_sum(ns);
    let n = ns.len() as int;
    assert(units >= 0 ==> units / n <= units) by (nonlinear_arith)
        requires
            n > 0,
    ;
}

/// Where every integer is a double, an average sums up the integers themselves.
pub proof fn law_exact_sum(ns: Seq<i64>)
    requires
        forall|i: int| 0 <= i < ns.len() ==> -EXACT_LIMIT <= #[trigger] ns[i] <= EXACT_LIMIT,
    ensures
        double_sum(ns) == int_sum(ns),
    decreases ns.len(),
{
    if ns.len() > 0 {
        assert(ns[ns.len() - 1] == ns.last());
        law_nearest_double(ns.last() as int);
        law_exact_sum(ns.drop_last());
    }
}

} // verus!
