//! What operators lead to when they are opened: lists, and aggregations of what a child hands out.

use crate::aggregate::{aggregate_run, closed_progress, opened_progress, Aggregate, Progress};
use crate::aggregate_laws::{has_aggregate, heads, is_aggregate, law_aggregate_rows};
use crate::error::CrustyError;
use crate::expr::Expr;
use crate::field::FieldValue;
use crate::group_table::{group_values, has_key, lemma_listing_unique, listing, lists, Group};
use crate::operator::{reported, rows, run_over, OpIterator, Run, TupleIterator};
use crate::order::{key_lt, law_key_order, lemma_key_le_antisymmetric};
use crate::plan::{finished, internal_ops, Plan};
use crate::plan_laws::law_output;
use crate::tuple::Tuple;
use vstd::prelude::*;

verus! {

/// A failure is reported as the error that it is, and anything else as success.
pub proof fn law_reported(e: CrustyError)
    ensures
        reported(None) == Ok::<(), CrustyError>(()),
        reported(Some(e)) == Err::<(), CrustyError>(e),
{
}

/// Row by row, the rows of tuples are their values.
pub proof fn law_rows<F: View>(tuples: Seq<Tuple<F>>)
    ensures
        rows(tuples).len() == tuples.len(),
        forall|i: int| 0 <= i < tuples.len() ==> #[trigger] rows(tuples)[i] == tuples[i]@,
{
}

/// Handing out rows and rewinding change how many have been handed out, and nothing else.
pub proof fn law_run_steps<V>(run: Run<V>, n: nat)
    ensures
        run.advanced(n).cursor == run.cursor + n,
        run.rewound().cursor == 0,
        run.advanced(n).rows == run.rows && run.rewound().rows == run.rows,
        run.advanced(n).ending == run.ending && run.rewound().ending == run.ending,
        run.advanced(n).failure == run.failure && run.rewound().failure == run.failure,
        run.advanced(n).allowed == run.allowed && run.rewound().allowed == run.allowed,
{
}

/// What is left of a run are the rows behind those that have been handed out.
pub proof fn law_run_rest<V>(run: Run<V>)
    ensures
        run.cursor <= run.rows.len() ==> {
            &&& run.rest().len() == run.rows.len() - run.cursor
            &&& forall|i: int|
                0 <= i < run.rest().len() ==> #[trigger] run.rest()[i] == run.rows[run.cursor + i]
        },
        run.cursor > run.rows.len() ==> run.rest().len() == 0,
{
}

/// A run over rows can be opened, does not fail, and hands out those rows and no others.
pub proof fn law_run_over<V>(rows: Seq<Seq<V>>, cursor: nat)
    ensures
        run_over(rows, cursor).allowed,
        run_over(rows, cursor).failure is None,
        run_over(rows, cursor).ending is None,
        run_over(rows, cursor).rows == rows,
        run_over(rows, cursor).cursor == cursor,
{
}

/// A list of tuples leads to a run over its rows, from the first on where it is closed.
pub proof fn law_tuple_iterator<F: FieldValue>(it: TupleIterator<F>)
    ensures
        it.run().allowed && it.fresh_run().allowed,
        it.run().failure is None && it.fresh_run().failure is None,
        it.run().ending is None && it.fresh_run().ending is None,
        it.run().rows == it.rows() && it.fresh_run().rows == it.rows(),
        !it.is_open() ==> it.run().cursor == 0,
        it.fresh_run().cursor == 0,
        it.close_failure() is None,
{
}

/// A closed aggregate operator leads to the aggregation of what its child leads to, now or once it
/// has been closed; an open one to its results, from where it stands. It fails to close where its
/// child does.
pub proof fn law_aggregate_operator<F: FieldValue, E: Expr<F>>(a: Aggregate<F, E>)
    ensures
        a.is_open() == a.progress().open,
        a.expects_rewind() == a.progress().will_rewind,
        a.close_failure() == a.child().operator.close_failure(),
        a.fresh_run() == aggregate_run::<F, E>(a.plan(), a.child().operator.fresh_run()),
        !a.is_open() ==> a.run() == aggregate_run::<F, E>(a.plan(), a.child().operator.run()),
        a.is_open() ==> {
            &&& a.run().allowed && a.run().failure is None && a.run().ending is None
            &&& a.run().rows == a.progress().results
            &&& a.run().cursor == a.progress().index
        },
{
}

/// An aggregation may be opened where its child may and, if the child then opens, the rows of the
/// child can be added to their groups. It fails as its child fails, to open or to be read; it
/// starts at its first row, and ends without an error.
pub proof fn law_child_failures<F: FieldValue, E: Expr<F>>(plan: Plan<E>, input: Run<F::V>)
    ensures
        ({
            let run = aggregate_run::<F, E>(plan, input);
            &&& run.cursor == 0
            &&& run.ending is None
            &&& input.failure is Some ==> run.failure == input.failure
            &&& input.failure is None && input.ending is Some ==> run.failure == input.ending
            &&& input.failure is Some ==> run.allowed == input.allowed
            &&& input.failure is None ==> run.allowed == (input.allowed && plan.absorbs_all::<F>(
                input.rest(),
            ))
        }),
{
}

/// Each row of the child has its row in a successful output: one that starts with the values that
/// the group-by expressions have on it.
pub proof fn law_row_has_group<F: FieldValue, E: Expr<F>>(plan: Plan<E>, input: Run<F::V>, r: int)
    requires
        aggregate_run::<F, E>(plan, input).allowed,
        aggregate_run::<F, E>(plan, input).failure is None,
        input.cursor <= r < input.rows.len(),
    ensures
        ({
            let out = aggregate_run::<F, E>(plan, input).rows;
            exists|i: int|
                #![trigger out[i]]
                {
                    &&& 0 <= i < out.len()
                    &&& forall|g: int|
                        0 <= g < plan.groupby.len() ==> out[i][g] == (
                        #[trigger] plan.groupby[g]).value(input.rows[r])
                }
        }),
{
    let out = aggregate_run::<F, E>(plan, input).rows;
    let rest = input.rest();
    let row = input.rows[r];
    let key = plan.key::<F>(row);
    let width = plan.groupby.len();
    let keys = heads(out, width);
    law_aggregate_rows::<F, E>(plan, input);
    assert(rest[r - input.cursor] == row);
    assert(plan.occurs::<F>(rest, key));
    assert(keys.contains(key));
    let i = choose|i: int| 0 <= i < keys.len() && keys[i] == key;
    assert(out[i].len() == width + plan.ops.len());
    assert forall|g: int| 0 <= g < width implies out[i][g] == (#[trigger] plan.groupby[g]).value(
        row,
    ) by {
        assert(keys[i][g] == key[g]);
    }
}

/// No two rows of a successful output start with the same values: each key comes once, and the keys
/// ascend.
pub proof fn law_rows_distinct<F: FieldValue, E: Expr<F>>(
    plan: Plan<E>,
    input: Run<F::V>,
    i: int,
    k: int,
)
    requires
        aggregate_run::<F, E>(plan, input).allowed,
        aggregate_run::<F, E>(plan, input).failure is None,
        0 <= i < k < aggregate_run::<F, E>(plan, input).rows.len(),
    ensures
        ({
            let out = aggregate_run::<F, E>(plan, input).rows;
            exists|g: int|
                #![trigger out[i][g]]
                {
                    &&& 0 <= g < plan.groupby.len()
                    &&& out[i][g] != out[k][g]
                    &&& F::le(out[i][g], out[k][g])
                    &&& forall|h: int| 0 <= h < g ==> out[i][h] == out[k][h]
                }
        }),
{
    let out = aggregate_run::<F, E>(plan, input).rows;
    let width = plan.groupby.len() as int;
    let keys = heads(out, plan.groupby.len());
    law_aggregate_rows::<F, E>(plan, input);
    assert(out[i].len() == width + plan.ops.len() && out[k].len() == width + plan.ops.len());
    let a = keys[i];
    let b = keys[k];
    assert(key_lt::<F>(a, b));
    law_key_order::<F>(a, b);
    if a.is_prefix_of(b) {
        assert(b.subrange(0, width) =~= b);
    }
    let g = choose|n: int|
        0 <= n < a.len() && n < b.len() && #[trigger] a[n] != b[n] && F::le(a[n], b[n]) && (forall|
            h: int,
        |
            0 <= h < n ==> a[h] == b[h]);
    assert forall|h: int| 0 <= h < g implies out[i][h] == out[k][h] by {
        assert(a[h] == b[h]);
    }
    assert(out[i][g] == a[g] && out[k][g] == b[g]);
}

/// Each row of a successful output starts with the values that the group-by expressions have on
/// some row of the child, and goes on with what the aggregate functions make of the values that
/// their expressions have on the rows that agree with it on all group-by expressions, taken in the
/// order in which the child hands them out. `agrees` says which rows those are.
pub proof fn law_group_has_rows<F: FieldValue, E: Expr<F>>(
    plan: Plan<E>,
    input: Run<F::V>,
    i: int,
    agrees: spec_fn(Seq<F::V>) -> bool,
)
    requires
        aggregate_run::<F, E>(plan, input).allowed,
        aggregate_run::<F, E>(plan, input).failure is None,
        plan.ops.len() == plan.agg.len(),
        input.cursor <= input.rows.len(),
        0 <= i < aggregate_run::<F, E>(plan, input).rows.len(),
        forall|row: Seq<F::V>| #[trigger]
            agrees(row) <==> forall|g: int|
                0 <= g < plan.groupby.len() ==> (#[trigger] plan.groupby[g]).value(row)
                    == aggregate_run::<F, E>(plan, input).rows[i][g],
    ensures
        ({
            let out = aggregate_run::<F, E>(plan, input).rows[i];
            let group = input.rows.subrange(
                input.cursor as int,
                input.rows.len() as int,
            ).filter(agrees);
            &&& out.len() == plan.groupby.len() + plan.ops.len()
            &&& exists|r: int|
                input.cursor <= r < input.rows.len() && agrees(#[trigger] input.rows[r])
            &&& forall|j: int|
                0 <= j < plan.ops.len() ==> is_aggregate::<F>(
                    #[trigger] plan.ops[j],
                    Seq::new(group.len(), |n: int| plan.agg[j].value(group[n])),
                    Ok(out[plan.groupby.len() + j]),
                )
        }),
{
    let rest = input.rest();
    let all = aggregate_run::<F, E>(plan, input).rows;
    let out = all[i];
    let width = plan.groupby.len();
    let keys = heads(all, width);
    let key = keys[i];
    law_aggregate_rows::<F, E>(plan, input);
    assert(out.len() == width + plan.ops.len());
    assert(keys.contains(key));
    assert forall|row: Seq<F::V>| #[trigger] agrees(row) <==> forall|g: int|
        0 <= g < width ==> (#[trigger] plan.groupby[g]).value(row) == key[g] by {
        assert forall|g: int| 0 <= g < width implies key[g] == out[g] by {}
    }
    plan.law_members::<F>(rest, key, agrees);
    let n = choose|n: int| 0 <= n < rest.len() && agrees(#[trigger] rest[n]);
    assert(agrees(input.rows[input.cursor + n]));
    let group = rest.filter(agrees);
    assert forall|j: int| 0 <= j < plan.ops.len() implies is_aggregate::<F>(
        #[trigger] plan.ops[j],
        Seq::new(group.len(), |n: int| plan.agg[j].value(group[n])),
        Ok(out[width + j]),
    ) by {
        plan.law_column::<F>(rest, key, j);
        assert(Seq::new(group.len(), |n: int| plan.agg[j].value(group[n])) =~= plan.column::<F>(
            rest,
            key,
            j,
        ));
    }
}

/// An aggregation whose child does not fail, fails with the first failure of an aggregate function
/// in the group with the least key that has one. The rows of the groups with lesser keys are there.
pub proof fn law_first_failure<F: FieldValue, E: Expr<F>>(plan: Plan<E>, input: Run<F::V>)
    requires
        aggregate_run::<F, E>(plan, input).allowed,
        input.failure is None,
        input.ending is None,
        aggregate_run::<F, E>(plan, input).failure is Some,
    ensures
        ({
            let rest = input.rest();
            let out = aggregate_run::<F, E>(plan, input).rows;
            let keys = heads(out, plan.groupby.len());
            exists|key: Seq<F::V>|
                {
                    &&& #[trigger] plan.occurs::<F>(rest, key)
                    &&& exists|j: int|
                        0 <= j < plan.ops.len() && is_aggregate::<F>(
                            plan.ops[j],
                            #[trigger] plan.column::<F>(rest, key, j),
                            Err(aggregate_run::<F, E>(plan, input).failure->Some_0),
                        ) && forall|i: int|
                            0 <= i < j ==> has_aggregate::<F>(
                                plan.ops[i],
                                #[trigger] plan.column::<F>(rest, key, i),
                            )
                    &&& forall|k: Seq<F::V>| #[trigger]
                        keys.contains(k) <==> plan.occurs::<F>(rest, k) && key_lt::<F>(k, key)
                    &&& forall|i: int, j: int|
                        0 <= i < j < out.len() ==> key_lt::<F>(keys[i], keys[j])
                    &&& forall|i: int, j: int|
                        0 <= i < out.len() && 0 <= j < plan.ops.len() ==> is_aggregate::<F>(
                            plan.ops[j],
                            #[trigger] plan.column::<F>(rest, keys[i], j),
                            Ok(out[i][plan.groupby.len() + j]),
                        )
                }
        }),
{
    let rest = input.rest();
    let groups = plan.groups::<F>(rest);
    let entries = listing::<F>(groups);
    let out = aggregate_run::<F, E>(plan, input).rows;
    let keys = heads(out, plan.groupby.len());
    let width = plan.groupby.len() as int;
    let e = aggregate_run::<F, E>(plan, input).failure->Some_0;
    plan.lemma_groups_listed::<F>(rest);
    law_output::<F>(plan.ops, entries);
    let f = out.len() as int;
    assert(f < entries.len());
    let key = entries[f].0;
    assert forall|i: int| 0 <= i < entries.len() implies {
        let k = (#[trigger] entries[i]).0;
        &&& groups.contains_key(k) && groups[k] == entries[i].1
        &&& plan.occurs::<F>(rest, k)
        &&& k.len() == width
        &&& i < f ==> keys[i] == k
    } by {
        let k = entries[i].0;
        assert(has_key(entries, k));
        assert(groups.contains_key(k));
        plan.lemma_group_keys::<F>(rest, k);
        if i < f {
            assert(out[i].take(width) =~= k);
        }
    }
    assert(groups[key] == entries[f].1);
    plan.law_group_values::<F>(rest, key);
    assert forall|k: Seq<F::V>| #[trigger]
        keys.contains(k) <==> plan.occurs::<F>(rest, k) && key_lt::<F>(k, key) by {
        if keys.contains(k) {
            let i = choose|i: int| 0 <= i < keys.len() && keys[i] == k;
            assert(entries[i].0 == k);
            assert(key_lt::<F>(entries[i].0, entries[f].0));
        }
        if plan.occurs::<F>(rest, k) && key_lt::<F>(k, key) {
            plan.lemma_group_keys::<F>(rest, k);
            assert(has_key(entries, k));
            let i = choose|i: int| 0 <= i < entries.len() && (#[trigger] entries[i]).0 == k;
            if i > f {
                assert(key_lt::<F>(entries[f].0, entries[i].0));
                lemma_key_le_antisymmetric::<F>(key, k);
            }
            assert(keys[i] == k);
        }
    }
    assert forall|i: int, j: int| 0 <= i < j < out.len() implies key_lt::<F>(keys[i], keys[j]) by {
        assert(keys[i] == entries[i].0 && keys[j] == entries[j].0);
    }
    assert forall|i: int, j: int|
        0 <= i < out.len() && 0 <= j < plan.ops.len() implies is_aggregate::<F>(
        plan.ops[j],
        #[trigger] plan.column::<F>(rest, keys[i], j),
        Ok(out[i][width + j]),
    ) by {
        assert(keys[i] == entries[i].0);
        plan.law_group_values::<F>(rest, entries[i].0);
        let values = finished::<F>(plan.ops, entries[i].1)->Ok_0;
        assert(out[i][width + j] == values[j]);
    }
    assert(plan.occurs::<F>(rest, key));
}

/// What an operator has in hand after it was opened: what it had, where it was open already or its
/// child did not open; no results, where its child could not be read to the end; and otherwise
/// the rows of the aggregation, none of them handed out.
pub proof fn law_opened<F: FieldValue, E: Expr<F>>(
    plan: Plan<E>,
    input: Run<F::V>,
    before: Progress<F::V>,
)
    ensures
        ({
            let after = opened_progress::<F, E>(plan, input, before);
            if before.open || input.failure is Some {
                after == before
            } else {
                &&& after.open
                &&& after.will_rewind == before.will_rewind
                &&& after.index == 0
                &&& after.internal == internal_ops(plan.ops)
                &&& input.ending is Some ==> after.results.len() == 0 && after.groups
                    == plan.groups::<F>(input.rest())
                &&& input.ending is None ==> after.results == aggregate_run::<F, E>(
                    plan,
                    input,
                ).rows && after.groups == Map::<Seq<F::V>, Seq<F::V>>::empty()
            }
        }),
{
}

/// A closed operator has nothing in hand.
pub proof fn law_closed<V>(will_rewind: bool)
    ensures
        !closed_progress::<V>(will_rewind).open,
        closed_progress::<V>(will_rewind).will_rewind == will_rewind,
        closed_progress::<V>(will_rewind).groups == Map::<Seq<V>, Seq<V>>::empty(),
        closed_progress::<V>(will_rewind).internal.len() == 0,
        closed_progress::<V>(will_rewind).results.len() == 0,
        closed_progress::<V>(will_rewind).index == 0,
{
}

/// The groups of a vector are taken by the values of their keys and states.
pub proof fn law_group_entries<F: View>(groups: Seq<Group<F>>)
    ensures
        group_values(groups).len() == groups.len(),
        forall|i: int|
            #![trigger group_values(groups)[i]]
            0 <= i < groups.len() ==> {
                let key = group_values(groups)[i].0;
                let state = group_values(groups)[i].1;
                &&& key.len() == groups[i].key@.len()
                &&& forall|k: int| 0 <= k < key.len() ==> #[trigger] key[k] == groups[i].key@[k]@
                &&& state.len() == groups[i].state@.len()
                &&& forall|k: int|
                    0 <= k < state.len() ==> #[trigger] state[k] == groups[i].state@[k]@
            },
{
}

/// A listing of a map has each of its keys once, in ascending order, with what the map has there.
pub proof fn law_lists<F: FieldValue>(
    entries: Seq<(Seq<F::V>, Seq<F::V>)>,
    m: Map<Seq<F::V>, Seq<F::V>>,
)
    ensures
        lists::<F>(entries, m) <==> {
            &&& forall|i: int, j: int|
                0 <= i < j < entries.len() ==> key_lt::<F>(entries[i].0, entries[j].0)
            &&& forall|i: int|
                0 <= i < entries.len() ==> m.contains_key((#[trigger] entries[i]).0)
                    && m[entries[i].0] == entries[i].1
            &&& forall|key: Seq<F::V>| #[trigger]
                m.contains_key(key) ==> exists|i: int|
                    0 <= i < entries.len() && (#[trigger] entries[i]).0 == key
        },
        lists::<F>(entries, m) ==> listing::<F>(m) == entries,
{
    if lists::<F>(entries, m) {
        assert forall|i: int| 0 <= i < entries.len() implies m.contains_key(
            (#[trigger] entries[i]).0,
        ) by {
            assert(has_key(entries, entries[i].0));
        }
        assert forall|key: Seq<F::V>| #[trigger] m.contains_key(key) implies exists|i: int|
            0 <= i < entries.len() && (#[trigger] entries[i]).0 == key by {
            assert(has_key(entries, key));
        }
        lemma_listing_unique::<F>(entries, listing::<F>(m), m);
    }
}

} // verus!
