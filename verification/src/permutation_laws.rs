//! Counts, maxima and minima do not depend on the order of the rows.

use crate::aggregate::aggregate_run;
use crate::error::CrustyError;
use crate::expr::Expr;
use crate::field::FieldValue;
use crate::group_table::{has_key, lemma_listing_unique, listing, lists};
use crate::aggregate_laws::{
    heads, is_aggregate, is_greatest, is_least, law_aggregate_rows, law_aggregate_unique,
    summable,
};
use crate::operator::run_over;
use crate::order::key_lt;
use crate::plan::{finished, output_failure, AggOp, Plan};
use vstd::prelude::*;

verus! {

/// Whether none of the functions sums up values.
pub open spec fn sum_free(ops: Seq<AggOp>) -> bool {
    forall|j: int|
        0 <= j < ops.len() ==> (#[trigger] ops[j]) != AggOp::Sum && ops[j] != AggOp::Avg
}

proof fn lemma_finished_sum_free<F: FieldValue>(ops: Seq<AggOp>, state: Seq<F::V>)
    requires
        sum_free(ops),
    ensures
        finished::<F>(ops, state) is Ok,
    decreases ops.len(),
{
    if ops.len() > 0 {
        let rest = ops.drop_last();
        assert forall|j: int| 0 <= j < rest.len() implies (#[trigger] rest[j]) != AggOp::Sum
            && rest[j] != AggOp::Avg by {
            assert(rest[j] == ops[j]);
        }
        lemma_finished_sum_free::<F>(rest, state);
        assert(ops[ops.len() - 1] != AggOp::Avg);
    }
}

proof fn lemma_output_sum_free<F: FieldValue>(
    ops: Seq<AggOp>,
    groups: Seq<(Seq<F::V>, Seq<F::V>)>,
)
    requires
        sum_free(ops),
    ensures
        output_failure::<F>(ops, groups) is None,
    decreases groups.len(),
{
    if groups.len() > 0 {
        lemma_output_sum_free::<F>(ops, groups.drop_last());
        lemma_finished_sum_free::<F>(ops, groups.last().1);
    }
}

/// The members of a group are the rows with its key, each as often as it occurs.
proof fn lemma_members_count<F: FieldValue, E: Expr<F>>(
    plan: Plan<E>,
    rows: Seq<Seq<F::V>>,
    key: Seq<F::V>,
    row: Seq<F::V>,
)
    ensures
        plan.members::<F>(rows, key).to_multiset().count(row) == if plan.key::<F>(row) == key {
            rows.to_multiset().count(row)
        } else {
            0
        },
    decreases rows.len(),
{
    broadcast use vstd::seq_lib::group_to_multiset_ensures;

    if rows.len() == 0 {
        assert(rows =~= Seq::empty());
    } else {
        let rest = rows.drop_last();
        lemma_members_count::<F, E>(plan, rest, key, row);
        assert(rows =~= rest.push(rows.last()));
    }
}

/// The arguments of a group's rows, whatever the order of the rows.
proof fn lemma_column_permuted<F: FieldValue, E: Expr<F>>(
    plan: Plan<E>,
    a: Seq<Seq<F::V>>,
    b: Seq<Seq<F::V>>,
    key: Seq<F::V>,
    j: int,
)
    requires
        a.to_multiset() == b.to_multiset(),
    ensures
        plan.column::<F>(a, key, j).len() == plan.column::<F>(b, key, j).len(),
        forall|v: F::V|
            plan.column::<F>(a, key, j).contains(v) ==> plan.column::<F>(b, key, j).contains(v),
{
    broadcast use vstd::seq_lib::group_to_multiset_ensures;

    let ma = plan.members::<F>(a, key);
    let mb = plan.members::<F>(b, key);
    let ca = plan.column::<F>(a, key, j);
    let cb = plan.column::<F>(b, key, j);
    assert forall|row: Seq<F::V>| ma.to_multiset().count(row) == mb.to_multiset().count(row) by {
        lemma_members_count::<F, E>(plan, a, key, row);
        lemma_members_count::<F, E>(plan, b, key, row);
    }
    assert(ma.to_multiset() =~= mb.to_multiset());
    ma.to_multiset_ensures();
    mb.to_multiset_ensures();
    assert(ma.len() == mb.len());
    assert forall|v: F::V| ca.contains(v) implies cb.contains(v) by {
        let i = choose|i: int| 0 <= i < ca.len() && ca[i] == v;
        assert(ma.contains(ma[i]));
        assert(mb.to_multiset().count(ma[i]) > 0);
        assert(mb.contains(ma[i]));
        let n = choose|n: int| 0 <= n < mb.len() && mb[n] == ma[i];
        assert(cb[n] == v);
    }
}

/// Counts, maxima and minima depend on how many values there are and which.
proof fn lemma_aggregate_permuted<F: FieldValue>(
    op: AggOp,
    a: Seq<F::V>,
    b: Seq<F::V>,
    r: Result<F::V, CrustyError>,
)
    requires
        op != AggOp::Sum,
        op != AggOp::Avg,
        a.len() == b.len(),
        forall|v: F::V| a.contains(v) <==> b.contains(v),
        is_aggregate::<F>(op, a, r),
    ensures
        is_aggregate::<F>(op, b, r),
{
    if op == AggOp::Max {
        let v = r->Ok_0;
        assert forall|i: int| 0 <= i < b.len() implies F::le(#[trigger] b[i], v) by {
            assert(b.contains(b[i]));
            let n = choose|n: int| 0 <= n < a.len() && a[n] == b[i];
            assert(F::le(a[n], v));
        }
        assert(is_greatest::<F>(v, b));
    } else if op == AggOp::Min {
        let v = r->Ok_0;
        assert forall|i: int| 0 <= i < b.len() implies F::le(v, #[trigger] b[i]) by {
            assert(b.contains(b[i]));
            let n = choose|n: int| 0 <= n < a.len() && a[n] == b[i];
            assert(F::le(v, a[n]));
        }
        assert(is_least::<F>(v, b));
    }
}

/// Ascending keys are determined by which they are.
proof fn lemma_ascending_unique<F: FieldValue>(a: Seq<Seq<F::V>>, b: Seq<Seq<F::V>>)
    requires
        forall|i: int, j: int| 0 <= i < j < a.len() ==> key_lt::<F>(a[i], a[j]),
        forall|i: int, j: int| 0 <= i < j < b.len() ==> key_lt::<F>(b[i], b[j]),
        forall|key: Seq<F::V>| a.contains(key) <==> b.contains(key),
    ensures
        a == b,
{
    let m = Map::new(|key: Seq<F::V>| a.contains(key), |key: Seq<F::V>| key);
    let ea = a.map_values(|key: Seq<F::V>| (key, key));
    let eb = b.map_values(|key: Seq<F::V>| (key, key));
    assert forall|key: Seq<F::V>| #[trigger] m.contains_key(key) <==> has_key(ea, key) by {
        if a.contains(key) {
            let i = choose|i: int| 0 <= i < a.len() && a[i] == key;
            assert(ea[i].0 == key);
        }
        if has_key(ea, key) {
            let i = choose|i: int| 0 <= i < ea.len() && (#[trigger] ea[i]).0 == key;
            assert(a[i] == key);
        }
    }
    assert forall|key: Seq<F::V>| #[trigger] m.contains_key(key) <==> has_key(eb, key) by {
        if b.contains(key) {
            let i = choose|i: int| 0 <= i < b.len() && b[i] == key;
            assert(eb[i].0 == key);
        }
        if has_key(eb, key) {
            let i = choose|i: int| 0 <= i < eb.len() && (#[trigger] eb[i]).0 == key;
            assert(b[i] == key);
        }
    }
    assert forall|i: int| 0 <= i < ea.len() implies m[(#[trigger] ea[i]).0] == ea[i].1 by {
        assert(a.contains(a[i]));
    }
    assert forall|i: int| 0 <= i < eb.len() implies m[(#[trigger] eb[i]).0] == eb[i].1 by {
        assert(b.contains(b[i]));
    }
    assert(lists::<F>(ea, m));
    assert(lists::<F>(eb, m));
    lemma_listing_unique::<F>(ea, eb, m);
    assert(a.len() == ea.len() && b.len() == eb.len());
    assert forall|i: int| 0 <= i < a.len() implies #[trigger] a[i] == b[i] by {
        assert(ea[i].0 == a[i] && eb[i].0 == b[i]);
    }
    assert(a =~= b);
}

/// An aggregation without sums comes out the same, success and rows, whatever the order in which
/// its child hands out its rows.
pub proof fn law_order_of_rows<F: FieldValue, E: Expr<F>>(
    plan: Plan<E>,
    a: Seq<Seq<F::V>>,
    b: Seq<Seq<F::V>>,
)
    requires
        a.to_multiset() == b.to_multiset(),
        sum_free(plan.ops),
        aggregate_run::<F, E>(plan, run_over(a, 0)).allowed,
    ensures
        aggregate_run::<F, E>(plan, run_over(b, 0)) == aggregate_run::<F, E>(plan, run_over(a, 0)),
{
    broadcast use vstd::seq_lib::group_to_multiset_ensures;

    a.to_multiset_ensures();
    b.to_multiset_ensures();
    assert(a.len() == b.len());
    assert(run_over(a, 0).rest() =~= a);
    assert(run_over(b, 0).rest() =~= b);
    let ra = aggregate_run::<F, E>(plan, run_over(a, 0));
    let rb = aggregate_run::<F, E>(plan, run_over(b, 0));
    plan.law_absorbs::<F>(a);
    plan.law_absorbs::<F>(b);
    assert forall|i: int| 0 <= i < b.len() implies plan.defined::<F>(#[trigger] b[i]) by {
        assert(b.contains(b[i]));
        assert(a.to_multiset().count(b[i]) > 0);
        assert(a.contains(b[i]));
        let n = choose|n: int| 0 <= n < a.len() && a[n] == b[i];
        assert(plan.defined::<F>(a[n]));
    }
    assert forall|key: Seq<F::V>| plan.occurs::<F>(a, key) <==> plan.occurs::<F>(b, key) by {
        if plan.occurs::<F>(a, key) {
            lemma_occurs_permuted::<F, E>(plan, a, b, key);
        }
        if plan.occurs::<F>(b, key) {
            lemma_occurs_permuted::<F, E>(plan, b, a, key);
        }
    }
    assert forall|key: Seq<F::V>, j: int|
        0 <= j < plan.ops.len() && plan.occurs::<F>(b, key) implies summable::<F>(
        plan.ops[j],
        #[trigger] plan.column::<F>(b, key, j),
    ) by {
        lemma_occurs_permuted::<F, E>(plan, b, a, key);
        lemma_column_permuted::<F, E>(plan, a, b, key, j);
        assert(summable::<F>(plan.ops[j], plan.column::<F>(a, key, j)));
    }
    lemma_output_sum_free::<F>(
        plan.ops,
        listing::<F>(plan.groups::<F>(a)),
    );
    lemma_output_sum_free::<F>(
        plan.ops,
        listing::<F>(plan.groups::<F>(b)),
    );
    law_aggregate_rows::<F, E>(plan, run_over(a, 0));
    law_aggregate_rows::<F, E>(plan, run_over(b, 0));
    let width = plan.groupby.len();
    let ka = heads(ra.rows, width);
    let kb = heads(rb.rows, width);
    assert forall|key: Seq<F::V>| ka.contains(key) <==> kb.contains(key) by {
        assert(plan.occurs::<F>(a, key) <==> plan.occurs::<F>(b, key));
    }
    lemma_ascending_unique::<F>(ka, kb);
    assert forall|i: int| 0 <= i < ra.rows.len() implies ra.rows[i] == rb.rows[i] by {
        let x = ra.rows[i];
        let y = rb.rows[i];
        assert(ka[i] == kb[i]);
        assert(x.take(width as int) == ka[i] && y.take(width as int) == kb[i]);
        assert forall|n: int| 0 <= n < x.len() implies x[n] == y[n] by {
            if n < width {
                assert(x[n] == x.take(width as int)[n]);
                assert(y[n] == y.take(width as int)[n]);
            } else {
                let j = n - width;
                let op = plan.ops[j];
                let ca = plan.column::<F>(a, ka[i], j);
                let cb = plan.column::<F>(b, kb[i], j);
                assert(is_aggregate::<F>(op, ca, Ok(x[width + j])));
                assert(is_aggregate::<F>(op, cb, Ok(y[width + j])));
                lemma_column_permuted::<F, E>(plan, a, b, ka[i], j);
                lemma_column_permuted::<F, E>(plan, b, a, ka[i], j);
                lemma_aggregate_permuted::<F>(op, cb, ca, Ok(y[n]));
                law_aggregate_unique::<F>(op, ca, Ok(x[n]), Ok(y[n]));
            }
        }
        assert(x =~= y);
    }
    assert(ra.rows =~= rb.rows);
}

proof fn lemma_occurs_permuted<F: FieldValue, E: Expr<F>>(
    plan: Plan<E>,
    a: Seq<Seq<F::V>>,
    b: Seq<Seq<F::V>>,
    key: Seq<F::V>,
)
    requires
        a.to_multiset() == b.to_multiset(),
        plan.occurs::<F>(a, key),
    ensures
        plan.occurs::<F>(b, key),
{
    broadcast use vstd::seq_lib::group_to_multiset_ensures;

    let i = choose|i: int| 0 <= i < a.len() && plan.key::<F>(#[trigger] a[i]) == key;
    assert(a.contains(a[i]));
    assert(b.to_multiset().count(a[i]) > 0);
    assert(b.contains(a[i]));
    let n = choose|n: int| 0 <= n < b.len() && b[n] == a[i];
    assert(plan.key::<F>(b[n]) == key);
}

} // verus!
