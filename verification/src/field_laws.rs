//! What the engine's fields are: how they are ordered, added, divided and averaged, stated of the
//! numbers and bytes that they hold.

use crate::aggregate_laws::{is_aggregate, total};
use crate::datatypes::{truncated, Field, FieldModel};
use crate::double::{law_nearest_double, nearest_double};
use crate::error::CrustyError;
use crate::field::{outcome_view, FieldValue};
use crate::order::{law_key_order, TotalOrder};
use crate::plan::{averaged, AggOp};
use vstd::prelude::*;
use vstd::utf8::encode_utf8;

verus! {

/// The value of a field is the number or the text that it holds.
pub proof fn law_field_value(f: Field)
    ensures
        match f {
            Field::Int(n) => f@ == FieldModel::Int(n),
            Field::Decimal(units) => f@ == FieldModel::Decimal(units),
            Field::String(s) => f@ == FieldModel::String(encode_utf8(s@)),
        },
{
}

/// An outcome is taken by the value of the field in it, and an error as it is.
pub proof fn law_outcome<F: View>(f: F, e: CrustyError)
    ensures
        outcome_view::<F>(Ok(f)) == Ok::<F::V, CrustyError>(f@),
        outcome_view::<F>(Err(e)) == Err::<F::V, CrustyError>(e),
{
}

/// Integer fields hold the integers, and the decimal of an integer is worth the double nearest to
/// it, in ten-thousandths.
pub proof fn law_field_integers(n: i64, v: FieldModel)
    ensures
        Field::int_value(n) == FieldModel::Int(n),
        Field::as_int(v) == (if let FieldModel::Int(k) = v {
            Some(k)
        } else {
            None
        }),
        i128::MIN <= 10_000 * nearest_double(n as int) <= i128::MAX,
        Field::decimal_value(n) matches FieldModel::Decimal(units) && units == 10_000
            * nearest_double(n as int),
{
    law_nearest_double(n as int);
}

/// Numbers of one kind are ordered as numbers, integers come before decimals and those before
/// strings.
pub proof fn law_field_order(m: i64, n: i64, u: i128, v: i128, s: Seq<u8>)
    ensures
        Field::le(FieldModel::Int(m), FieldModel::Int(n)) <==> m <= n,
        Field::le(FieldModel::Decimal(u), FieldModel::Decimal(v)) <==> u <= v,
        Field::le(FieldModel::Int(m), FieldModel::Decimal(u)),
        !Field::le(FieldModel::Decimal(u), FieldModel::Int(m)),
        Field::le(FieldModel::Int(m), FieldModel::String(s)),
        !Field::le(FieldModel::String(s), FieldModel::Int(m)),
        Field::le(FieldModel::Decimal(u), FieldModel::String(s)),
        !Field::le(FieldModel::String(s), FieldModel::Decimal(u)),
{
}

/// Strings are ordered by their bytes: a string comes after its prefixes, and otherwise the first
/// byte at which two strings differ decides.
pub proof fn law_string_order(s: Seq<u8>, t: Seq<u8>)
    ensures
        Field::le(FieldModel::String(s), FieldModel::String(t)) <==> s.is_prefix_of(t) || exists|
            n: int,
        |
            0 <= n < s.len() && n < t.len() && #[trigger] s[n] < t[n] && (forall|i: int|
                0 <= i < n ==> s[i] == t[i]),
{
    law_key_order::<u8>(s, t);
    if exists|n: int|
        0 <= n < s.len() && n < t.len() && #[trigger] s[n] != t[n] && <u8 as TotalOrder>::le(
            s[n],
            t[n],
        ) && (forall|i: int| 0 <= i < n ==> s[i] == t[i]) {
        let n = choose|n: int|
            0 <= n < s.len() && n < t.len() && #[trigger] s[n] != t[n] && <u8 as TotalOrder>::le(
                s[n],
                t[n],
            ) && (forall|i: int| 0 <= i < n ==> s[i] == t[i]);
        assert(s[n] < t[n]);
    }
    if exists|n: int|
        0 <= n < s.len() && n < t.len() && #[trigger] s[n] < t[n] && (forall|i: int|
            0 <= i < n ==> s[i] == t[i]) {
        let n = choose|n: int|
            0 <= n < s.len() && n < t.len() && #[trigger] s[n] < t[n] && (forall|i: int|
                0 <= i < n ==> s[i] == t[i]);
        assert(s[n] != t[n]);
    }
}

/// Integers add up to the integer that is their sum, and decimals to the decimal that is theirs;
/// where it does not fit, that is an overflow.
pub proof fn law_field_sum(m: i64, n: i64, u: i128, v: i128)
    ensures
        match Field::plus(FieldModel::Int(m), FieldModel::Int(n)) {
            Ok(sum) => sum matches FieldModel::Int(k) && k == m + n,
            Err(e) => e == CrustyError::Overflow && !(i64::MIN <= m + n <= i64::MAX),
        },
        match Field::plus(FieldModel::Decimal(u), FieldModel::Decimal(v)) {
            Ok(sum) => sum matches FieldModel::Decimal(w) && w == u + v,
            Err(e) => e == CrustyError::Overflow && !(i128::MIN <= u + v <= i128::MAX),
        },
{
}

/// Only numbers of one kind add.
pub proof fn law_field_sum_kinds(a: FieldModel, b: FieldModel)
    requires
        !(a is Int && b is Int),
        !(a is Decimal && b is Decimal),
    ensures
        Field::plus(a, b) == Err::<FieldModel, CrustyError>(CrustyError::TypeMismatch),
{
}

/// The quotient rounded towards zero goes as often into the dividend as it can, and has the sign
/// that the signs of the two give it.
pub proof fn law_truncated(a: int, b: int)
    requires
        b != 0,
    ensures
        ({
            let q = truncated(a, b);
            let size = if q >= 0 {
                q
            } else {
                -q
            };
            let dividend = if a >= 0 {
                a
            } else {
                -a
            };
            let divisor = if b >= 0 {
                b
            } else {
                -b
            };
            &&& size * divisor <= dividend
            &&& dividend < (size + 1) * divisor
            &&& (a >= 0) == (b > 0) ==> q >= 0
            &&& (a >= 0) != (b > 0) ==> q <= 0
        }),
{
    let dividend = if a >= 0 {
        a
    } else {
        -a
    };
    let divisor = if b >= 0 {
        b
    } else {
        -b
    };
    let k = dividend / divisor;
    vstd::arithmetic::div_mod::lemma_fundamental_div_mod(dividend, divisor);
    assert(k >= 0 && k * divisor <= dividend && dividend < (k + 1) * divisor) by (nonlinear_arith)
        requires
            divisor > 0,
            dividend >= 0,
            dividend == divisor * k + dividend % divisor,
            0 <= dividend % divisor < divisor,
    ;
}

/// A decimal divided by an integer is the decimal that goes as often into it as it can; dividing by
/// zero is an error, and so is the one quotient that does not fit.
pub proof fn law_field_quotient(u: i128, n: i64)
    ensures
        n == 0 ==> Field::over(FieldModel::Decimal(u), FieldModel::Int(n)) == Err::<
            FieldModel,
            CrustyError,
        >(CrustyError::DivisionByZero),
        n != 0 ==> match Field::over(FieldModel::Decimal(u), FieldModel::Int(n)) {
            Ok(quotient) => quotient matches FieldModel::Decimal(w) && {
                let size = if w >= 0 {
                    w as int
                } else {
                    -w
                };
                let dividend = if u >= 0 {
                    u as int
                } else {
                    -u
                };
                let divisor = if n >= 0 {
                    n as int
                } else {
                    -n
                };
                &&& size * divisor <= dividend
                &&& dividend < (size + 1) * divisor
                &&& (u >= 0) == (n > 0) ==> w >= 0
                &&& (u >= 0) != (n > 0) ==> w <= 0
            },
            Err(e) => e == CrustyError::Overflow && u == i128::MIN && n == -1,
        },
{
    if n != 0 {
        let q = truncated(u as int, n as int);
        let size = if q >= 0 {
            q
        } else {
            -q
        };
        let divisor = if n >= 0 {
            n as int
        } else {
            -n
        };
        let dividend = if u >= 0 {
            u as int
        } else {
            -u
        };
        law_truncated(u as int, n as int);
        assert(size <= dividend) by (nonlinear_arith)
            requires
                size >= 0,
                divisor >= 1,
                size * divisor <= dividend,
        ;
        if divisor >= 2 {
            assert(2 * size <= dividend) by (nonlinear_arith)
                requires
                    size >= 0,
                    divisor >= 2,
                    size * divisor <= dividend,
            ;
        }
        assert(i128::MIN <= q);
        if q > i128::MAX {
            assert(u == i128::MIN && n == -1);
        }
    }
}

/// Only decimals divide, and only by integers.
pub proof fn law_field_quotient_kinds(a: FieldModel, b: FieldModel)
    requires
        !(a is Decimal && b is Int),
    ensures
        Field::over(a, b) == Err::<FieldModel, CrustyError>(CrustyError::TypeMismatch),
{
}

/// Whether `sums` are the running sums of `units`, from nothing on.
spec fn running_sums(units: Seq<i128>, sums: Seq<int>) -> bool {
    &&& sums.len() == units.len() + 1
    &&& sums[0] == 0
    &&& forall|i: int| 0 <= i < units.len() ==> sums[i + 1] == sums[i] + #[trigger] units[i]
}

proof fn lemma_decimal_total(args: Seq<FieldModel>, units: Seq<i128>, sums: Seq<int>)
    requires
        units.len() > 0,
        args.len() == units.len(),
        forall|i: int| 0 <= i < units.len() ==> #[trigger] args[i] == FieldModel::Decimal(units[i]),
        running_sums(units, sums),
    ensures
        match total::<Field>(args) {
            Ok(sum) => sum matches FieldModel::Decimal(w) && w == sums[units.len() as int] && (
            forall|k: int|
                0 <= k <= units.len() ==> i128::MIN <= #[trigger] sums[k] <= i128::MAX),
            Err(e) => e == CrustyError::Overflow && !(forall|k: int|
                0 <= k <= units.len() ==> i128::MIN <= #[trigger] sums[k] <= i128::MAX),
        },
    decreases units.len(),
{
    let n = units.len() as int;
    assert(units[n - 1] == units.last());
    assert(args[n - 1] == args.last());
    assert(sums[n - 1 + 1] == sums[n - 1] + units[n - 1]);
    if n == 1 {
        assert(args[0] == FieldModel::Decimal(units[0]));
        assert forall|k: int| 0 <= k <= n implies i128::MIN <= #[trigger] sums[k] <= i128::MAX by {
            if k == 1 {
                assert(sums[1] == units[0]);
            }
        }
    } else {
        let short = sums.drop_last();
        assert forall|i: int| 0 <= i < n - 1 implies short[i + 1] == short[i]
            + #[trigger] units.drop_last()[i] by {
            assert(sums[i + 1] == sums[i] + units[i]);
        }
        lemma_decimal_total(args.drop_last(), units.drop_last(), short);
        if let Ok(sum) = total::<Field>(args.drop_last()) {
            assert(sum == FieldModel::Decimal(sums[n - 1] as i128));
            assert forall|k: int| 0 <= k < n implies i128::MIN <= #[trigger] sums[k]
                <= i128::MAX by {
                assert(short[k] == sums[k]);
            }
            law_field_sum(0, 0, sums[n - 1] as i128, units[n - 1]);
        } else {
            let k = choose|k: int|
                0 <= k <= n - 1 && !(i128::MIN <= #[trigger] short[k] <= i128::MAX);
            assert(short[k] == sums[k]);
        }
    }
}

/// The sum of decimal fields is the decimal of the sum of what they hold, as long as the running
/// sums fit, and an overflow where one does not.
pub proof fn law_decimal_sum(
    args: Seq<FieldModel>,
    units: Seq<i128>,
    sums: Seq<int>,
    r: Result<FieldModel, CrustyError>,
)
    requires
        units.len() > 0,
        args.len() == units.len(),
        forall|i: int| 0 <= i < units.len() ==> #[trigger] args[i] == FieldModel::Decimal(units[i]),
        sums.len() == units.len() + 1,
        sums[0] == 0,
        forall|i: int| 0 <= i < units.len() ==> sums[i + 1] == sums[i] + #[trigger] units[i],
        is_aggregate::<Field>(AggOp::Sum, args, r),
    ensures
        (forall|k: int| 0 <= k < sums.len() ==> i128::MIN <= #[trigger] sums[k] <= i128::MAX) ==> (
        r matches Ok(sum) && sum matches FieldModel::Decimal(w) && w == sums.last()),
        !(forall|k: int| 0 <= k < sums.len() ==> i128::MIN <= #[trigger] sums[k] <= i128::MAX)
            ==> r == Err::<FieldModel, CrustyError>(CrustyError::Overflow),
{
    lemma_decimal_total(args, units, sums);
}

/// The running sums stay between the bounds of the items, times their number.
proof fn lemma_sum_bounds(units: Seq<i128>, sums: Seq<int>, lo: int, hi: int, k: int)
    requires
        running_sums(units, sums),
        0 <= k <= units.len(),
        forall|i: int| 0 <= i < units.len() ==> lo <= #[trigger] units[i] <= hi,
    ensures
        lo * k <= sums[k] <= hi * k,
    decreases k,
{
    if k == 0 {
        assert(lo * 0 == 0 && hi * 0 == 0);
    } else {
        lemma_sum_bounds(units, sums, lo, hi, k - 1);
        assert(sums[k - 1 + 1] == sums[k - 1] + units[k - 1]);
        assert(lo * k == lo * (k - 1) + lo) by (nonlinear_arith);
        assert(hi * k == hi * (k - 1) + hi) by (nonlinear_arith);
    }
}

/// A quotient rounded towards zero differs from the exact one by less than one, and stays between
/// whole numbers that the exact one lies between.
proof fn lemma_quotient_bounds(sum: int, n: int, lo: int, hi: int, q: int)
    requires
        n > 0,
        lo * n <= sum <= hi * n,
        q > 0 ==> 0 <= sum && q * n <= sum < (q + 1) * n,
        q < 0 ==> sum < 0 && (-q) * n <= -sum < (-q + 1) * n,
        q == 0 ==> -n < sum < n,
    ensures
        lo <= q <= hi,
        -n < q * n - sum < n,
{
    assert((q + 1) * n == q * n + n) by (nonlinear_arith);
    assert((-q) * n == -(q * n)) by (nonlinear_arith);
    assert((-q + 1) * n == -(q * n) + n) by (nonlinear_arith);
    assert(-n < q * n - sum < n) by (nonlinear_arith)
        requires
            n > 0,
            q > 0 ==> 0 <= sum && q * n <= sum < q * n + n,
            q < 0 ==> sum < 0 && -(q * n) <= -sum < -(q * n) + n,
            q == 0 ==> -n < sum < n,
    ;
    if q < lo {
        assert((q + 1) * n <= lo * n) by (nonlinear_arith)
            requires
                q + 1 <= lo,
                n > 0,
        ;
    }
    if q > hi {
        assert(hi * n <= (q - 1) * n) by (nonlinear_arith)
            requires
                hi <= q - 1,
                n > 0,
        ;
        assert((q - 1) * n == q * n - n) by (nonlinear_arith);
    }
}

/// The average that is made of a sum of decimals.
proof fn lemma_decimal_average(
    decimals: Seq<FieldModel>,
    units: Seq<i128>,
    sums: Seq<int>,
    lo: int,
    hi: int,
    n: i64,
    v: FieldModel,
)
    requires
        units.len() == n,
        n > 0,
        decimals.len() == units.len(),
        forall|i: int|
            0 <= i < units.len() ==> #[trigger] decimals[i] == FieldModel::Decimal(units[i]),
        running_sums(units, sums),
        forall|i: int| 0 <= i < units.len() ==> lo <= #[trigger] units[i] <= hi,
        total::<Field>(decimals) is Ok,
        Field::over(total::<Field>(decimals)->Ok_0, FieldModel::Int(n)) == Ok::<
            FieldModel,
            CrustyError,
        >(v),
    ensures
        v matches FieldModel::Decimal(w) && lo <= w <= hi && -n < w * n - sums.last() < n,
{
    let sum = sums[n as int];
    lemma_decimal_total(decimals, units, sums);
    lemma_sum_bounds(units, sums, lo, hi, n as int);
    law_field_quotient(sum as i128, n);
    let w = v->Decimal_0 as int;
    if w == 0 {
        assert((0 + 1) * n == n) by (nonlinear_arith);
    }
    lemma_quotient_bounds(sum, n as int, lo, hi, w);
}

/// The average of decimal fields lies between the least and the greatest of them, and is their sum
/// divided by their number, to less than one unit.
pub proof fn law_decimal_average(
    args: Seq<FieldModel>,
    units: Seq<i128>,
    sums: Seq<int>,
    lo: int,
    hi: int,
    v: FieldModel,
)
    requires
        args.len() == units.len(),
        units.len() > 0,
        forall|i: int| 0 <= i < units.len() ==> #[trigger] args[i] == FieldModel::Decimal(units[i]),
        sums.len() == units.len() + 1,
        sums[0] == 0,
        forall|i: int| 0 <= i < units.len() ==> sums[i + 1] == sums[i] + #[trigger] units[i],
        forall|i: int| 0 <= i < units.len() ==> lo <= #[trigger] units[i] <= hi,
        is_aggregate::<Field>(AggOp::Avg, args, Ok(v)),
    ensures
        v matches FieldModel::Decimal(w) && lo <= w <= hi && -units.len() < w * units.len()
            - sums.last() < units.len(),
{
    let decimals = args.map_values(|v: FieldModel| averaged::<Field>(v));
    assert forall|i: int| 0 <= i < units.len() implies #[trigger] decimals[i]
        == FieldModel::Decimal(units[i]) by {
        assert(args[i] == FieldModel::Decimal(units[i]));
    }
    lemma_decimal_average(decimals, units, sums, lo, hi, units.len() as i64, v);
}

/// The average of integer fields, in ten-thousandths, lies between the least and the greatest of
/// the doubles that they are converted to, and is the sum of those divided by their number, to
/// less than one ten-thousandth. Integers that are doubles are averaged as they are.
pub proof fn law_integer_average_bounds(
    args: Seq<FieldModel>,
    ns: Seq<i64>,
    sums: Seq<int>,
    lo: int,
    hi: int,
    v: FieldModel,
)
    requires
        args.len() == ns.len(),
        ns.len() > 0,
        forall|i: int| 0 <= i < ns.len() ==> #[trigger] args[i] == FieldModel::Int(ns[i]),
        sums.len() == ns.len() + 1,
        sums[0] == 0,
        forall|i: int|
            0 <= i < ns.len() ==> sums[i + 1] == sums[i] + nearest_double(#[trigger] ns[i] as int),
        forall|i: int| 0 <= i < ns.len() ==> lo <= nearest_double(#[trigger] ns[i] as int) <= hi,
        is_aggregate::<Field>(AggOp::Avg, args, Ok(v)),
    ensures
        v matches FieldModel::Decimal(w) && 10_000 * lo <= w <= 10_000 * hi && -ns.len() < w
            * ns.len() - 10_000 * sums.last() < ns.len(),
        forall|i: int|
            0 <= i < ns.len() && -0x20_0000_0000_0000 <= #[trigger] ns[i] <= 0x20_0000_0000_0000
                ==> nearest_double(ns[i] as int) == ns[i],
{
    let decimals = args.map_values(|v: FieldModel| averaged::<Field>(v));
    let units = ns.map_values(|n: i64| (10_000 * nearest_double(n as int)) as i128);
    let scaled_sums = sums.map_values(|s: int| 10_000 * s);
    assert forall|i: int| 0 <= i < ns.len() implies #[trigger] decimals[i] == FieldModel::Decimal(
        units[i],
    ) && units[i] == 10_000 * nearest_double(ns[i] as int) by {
        assert(args[i] == FieldModel::Int(ns[i]));
        law_field_integers(ns[i], args[i]);
    }
    assert forall|i: int| 0 <= i < units.len() implies scaled_sums[i + 1] == scaled_sums[i]
        + #[trigger] units[i] by {
        assert(decimals[i] == FieldModel::Decimal(units[i]));
        assert(sums[i + 1] == sums[i] + nearest_double(ns[i] as int));
    }
    assert forall|i: int| 0 <= i < units.len() implies 10_000 * lo <= #[trigger] units[i] <= 10_000
        * hi by {
        assert(decimals[i] == FieldModel::Decimal(units[i]));
        assert(lo <= nearest_double(ns[i] as int) <= hi);
    }
    lemma_decimal_average(
        decimals,
        units,
        scaled_sums,
        10_000 * lo,
        10_000 * hi,
        ns.len() as i64,
        v,
    );
    assert forall|i: int|
        0 <= i < ns.len() && -0x20_0000_0000_0000 <= #[trigger] ns[i]
            <= 0x20_0000_0000_0000 implies nearest_double(ns[i] as int) == ns[i] by {
        law_nearest_double(ns[i] as int);
    }
}

/// The maximum of decimal fields holds the numerically greatest of what they hold, the minimum the
/// least.
pub proof fn law_decimal_extremes(
    args: Seq<FieldModel>,
    units: Seq<i128>,
    max: FieldModel,
    min: FieldModel,
)
    requires
        args.len() == units.len(),
        forall|i: int| 0 <= i < units.len() ==> #[trigger] args[i] == FieldModel::Decimal(units[i]),
        is_aggregate::<Field>(AggOp::Max, args, Ok(max)),
        is_aggregate::<Field>(AggOp::Min, args, Ok(min)),
    ensures
        max matches FieldModel::Decimal(w) && units.contains(w) && forall|i: int|
            0 <= i < units.len() ==> #[trigger] units[i] <= w,
        min matches FieldModel::Decimal(w) && units.contains(w) && forall|i: int|
            0 <= i < units.len() ==> w <= #[trigger] units[i],
{
    let i = choose|i: int| 0 <= i < args.len() && args[i] == max;
    let j = choose|j: int| 0 <= j < args.len() && args[j] == min;
    assert(args[i] == FieldModel::Decimal(units[i]) && args[j] == FieldModel::Decimal(units[j]));
    assert forall|k: int| 0 <= k < units.len() implies units[j] <= #[trigger] units[k]
        <= units[i] by {
        assert(args[k] == FieldModel::Decimal(units[k]));
    }
}

/// The maximum of integer fields holds the greatest of the integers, the minimum the least.
pub proof fn law_integer_extremes(
    args: Seq<FieldModel>,
    ns: Seq<i64>,
    max: FieldModel,
    min: FieldModel,
)
    requires
        args.len() == ns.len(),
        forall|i: int| 0 <= i < ns.len() ==> #[trigger] args[i] == FieldModel::Int(ns[i]),
        is_aggregate::<Field>(AggOp::Max, args, Ok(max)),
        is_aggregate::<Field>(AggOp::Min, args, Ok(min)),
    ensures
        max matches FieldModel::Int(k) && ns.contains(k) && forall|i: int|
            0 <= i < ns.len() ==> #[trigger] ns[i] <= k,
        min matches FieldModel::Int(k) && ns.contains(k) && forall|i: int|
            0 <= i < ns.len() ==> k <= #[trigger] ns[i],
{
    let i = choose|i: int| 0 <= i < args.len() && args[i] == max;
    let j = choose|j: int| 0 <= j < args.len() && args[j] == min;
    assert(args[i] == FieldModel::Int(ns[i]) && args[j] == FieldModel::Int(ns[j]));
    assert forall|k: int| 0 <= k < ns.len() implies ns[j] <= #[trigger] ns[k] <= ns[i] by {
        assert(args[k] == FieldModel::Int(ns[k]));
    }
}

} // verus!
