//! What an aggregation computes, stated of its rows rather than of its steps.

use crate::aggregate::aggregate_run;
use crate::error::CrustyError;
use crate::expr::Expr;
use crate::field::FieldValue;
use crate::group_table::{has_key, lemma_listing_empty, lemma_lists_insert, listing, lists};
use crate::operator::{run_over, Run};
use crate::order::key_lt;
use crate::plan::{
    averaged, finished, internal_fields, internal_ops, lemma_internal_len, merged, output_failure,
    output_rows, placed, AggOp, Plan,
};
use vstd::prelude::*;

verus! {

/// The sum of the values from left to right, or the first failure on the way.
pub open spec fn total<F: FieldValue>(vals: Seq<F::V>) -> Result<F::V, CrustyError>
    decreases vals.len(),
{
    if vals.len() <= 1 {
        Ok(vals[0])
    } else {
        match total::<F>(vals.drop_last()) {
            Ok(sum) => F::plus(sum, vals.last()),
            Err(e) => Err(e),
        }
    }
}

/// Whether `v` is one of the values and none of them is greater.
pub open spec fn is_greatest<F: FieldValue>(v: F::V, vals: Seq<F::V>) -> bool {
    &&& vals.contains(v)
    &&& forall|i: int| 0 <= i < vals.len() ==> F::le(#[trigger] vals[i], v)
}

/// Whether `v` is one of the values and none of them is less.
pub open spec fn is_least<F: FieldValue>(v: F::V, vals: Seq<F::V>) -> bool {
    &&& vals.contains(v)
    &&& forall|i: int| 0 <= i < vals.len() ==> F::le(v, #[trigger] vals[i])
}

/// Whether an integer field can hold the number of the values.
pub open spec fn countable<V>(vals: Seq<V>) -> bool {
    vals.len() <= i64::MAX
}

/// Whether `r` is what `op` makes of the argument values of a group.
pub open spec fn is_aggregate<F: FieldValue>(
    op: AggOp,
    args: Seq<F::V>,
    r: Result<F::V, CrustyError>,
) -> bool {
    match op {
        AggOp::Count => countable(args) && r == Ok::<F::V, CrustyError>(
            F::int_value(args.len() as i64),
        ),
        AggOp::Max => r matches Ok(v) && is_greatest::<F>(v, args),
        AggOp::Min => r matches Ok(v) && is_least::<F>(v, args),
        AggOp::Sum => r == total::<F>(args),
        AggOp::Avg => match total::<F>(args.map_values(|v: F::V| averaged::<F>(v))) {
            Ok(sum) => countable(args) && r == F::over(sum, F::int_value(args.len() as i64)),
            Err(e) => r == Err::<F::V, CrustyError>(e),
        },
    }
}

/// Whether `op` makes a value of the argument values of a group.
pub open spec fn has_aggregate<F: FieldValue>(op: AggOp, args: Seq<F::V>) -> bool {
    exists|v: F::V| is_aggregate::<F>(op, args, Ok(v))
}

/// The state of an internal function after these contributions.
spec fn state_of<F: FieldValue>(op: AggOp, vals: Seq<F::V>) -> F::V
    decreases vals.len(),
{
    if vals.len() <= 1 {
        placed::<F>(op, vals[0])
    } else {
        merged::<F>(op, vals.last(), state_of::<F>(op, vals.drop_last()))->Ok_0
    }
}

/// Whether every contribution could be merged.
spec fn folds<F: FieldValue>(op: AggOp, vals: Seq<F::V>) -> bool
    decreases vals.len(),
{
    vals.len() <= 1 || {
        &&& folds::<F>(op, vals.drop_last())
        &&& merged::<F>(op, vals.last(), state_of::<F>(op, vals.drop_last())) is Ok
    }
}

impl<E> Plan<E> {
    /// Whether one of the rows belongs to the group `key`.
    pub open spec fn occurs<F: FieldValue>(self, rows: Seq<Seq<F::V>>, key: Seq<F::V>) -> bool where
        E: Expr<F>,
     {
        exists|i: int| 0 <= i < rows.len() && self.key::<F>(#[trigger] rows[i]) == key
    }

    /// The rows that belong to the group `key`, in order.
    pub open spec fn members<F: FieldValue>(self, rows: Seq<Seq<F::V>>, key: Seq<F::V>) -> Seq<
        Seq<F::V>,
    > where E: Expr<F>
        decreases rows.len(),
    {
        if rows.len() == 0 {
            Seq::empty()
        } else {
            let before = self.members::<F>(rows.drop_last(), key);
            if self.key::<F>(rows.last()) == key {
                before.push(rows.last())
            } else {
                before
            }
        }
    }

    /// The arguments that the rows of the group `key` give the aggregate function `j`.
    pub open spec fn column<F: FieldValue>(
        self,
        rows: Seq<Seq<F::V>>,
        key: Seq<F::V>,
        j: int,
    ) -> Seq<F::V> where E: Expr<F> {
        self.members::<F>(rows, key).map_values(|row: Seq<F::V>| self.args::<F>(row)[j])
    }

    /// What the rows of the group `key` contribute to the internal function `i`.
    spec fn contributions<F: FieldValue>(
        self,
        rows: Seq<Seq<F::V>>,
        key: Seq<F::V>,
        i: int,
    ) -> Seq<F::V> where E: Expr<F> {
        self.members::<F>(rows, key).map_values(|row: Seq<F::V>| self.fields::<F>(row)[i])
    }

    /// The groups are those of the rows' keys.
    pub proof fn lemma_group_keys<F: FieldValue>(self, rows: Seq<Seq<F::V>>, key: Seq<F::V>) where
        E: Expr<F>,

        ensures
            self.groups::<F>(rows).contains_key(key) <==> self.occurs::<F>(rows, key),
        decreases rows.len(),
    {
        if rows.len() == 0 {
            self.lemma_no_groups::<F>();
            assert(rows =~= Seq::empty());
        } else {
            let n = rows.len() - 1;
            let rest = rows.drop_last();
            self.lemma_groups_step::<F>(rows, n);
            assert(rows.take(n + 1) =~= rows);
            assert(rows.take(n) =~= rest);
            self.lemma_group_keys::<F>(rest, key);
            if self.groups::<F>(rows).contains_key(key) {
                if self.key::<F>(rows[n]) != key {
                    let i = choose|i: int|
                        0 <= i < rest.len() && self.key::<F>(#[trigger] rest[i]) == key;
                    assert(rows[i] == rest[i]);
                }
            }
            if self.occurs::<F>(rows, key) {
                let i = choose|i: int|
                    0 <= i < rows.len() && self.key::<F>(#[trigger] rows[i]) == key;
                if i < n {
                    assert(rest[i] == rows[i]);
                }
            }
        }
    }

    /// The state of a group is made up by the contributions of its rows.
    proof fn lemma_group_state<F: FieldValue>(self, rows: Seq<Seq<F::V>>, key: Seq<F::V>) where
        E: Expr<F>,

        requires
            self.absorbs_all::<F>(rows),
        ensures
            self.groups::<F>(rows).contains_key(key) <==> self.members::<F>(rows, key).len() > 0,
            self.groups::<F>(rows).contains_key(key) ==> {
                &&& self.groups::<F>(rows)[key].len() == internal_ops(self.ops).len()
                &&& forall|i: int|
                    0 <= i < internal_ops(self.ops).len() ==> folds::<F>(
                        internal_ops(self.ops)[i],
                        #[trigger] self.contributions::<F>(rows, key, i),
                    ) && self.groups::<F>(rows)[key][i] == state_of::<F>(
                        internal_ops(self.ops)[i],
                        self.contributions::<F>(rows, key, i),
                    )
            },
        decreases rows.len(),
    {
        if rows.len() == 0 {
            self.lemma_no_groups::<F>();
            assert(rows =~= Seq::empty());
        } else {
            let n = rows.len() - 1;
            let rest = rows.drop_last();
            let row = rows[n];
            let ops = internal_ops(self.ops);
            let before = self.groups::<F>(rest);
            self.lemma_groups_step::<F>(rows, n);
            assert(rows.take(n + 1) =~= rows);
            assert(rows.take(n) =~= rest);
            assert forall|i: int| 0 <= i < rest.len() implies self.absorbs::<F>(
                self.groups::<F>(rest.take(i)),
                #[trigger] rest[i],
            ) by {
                assert(rest.take(i) =~= rows.take(i));
                assert(rows[i] == rest[i]);
            }
            self.lemma_group_state::<F>(rest, key);
            assert(self.absorbs::<F>(before, row));
            lemma_internal_len::<F>(self.args::<F>(row), self.ops);
            if self.key::<F>(row) == key {
                let members = self.members::<F>(rest, key);
                assert forall|i: int| 0 <= i < ops.len() implies folds::<F>(
                    ops[i],
                    #[trigger] self.contributions::<F>(rows, key, i),
                ) && self.groups::<F>(rows)[key][i] == state_of::<F>(
                    ops[i],
                    self.contributions::<F>(rows, key, i),
                ) by {
                    let earlier = self.contributions::<F>(rest, key, i);
                    let all = self.contributions::<F>(rows, key, i);
                    assert(all =~= earlier.push(self.fields::<F>(row)[i]));
                    assert(all.drop_last() =~= earlier);
                    if before.contains_key(key) {
                        assert(merged::<F>(ops[i], self.fields::<F>(row)[i], before[key][i])
                            is Ok);
                    }
                }
            } else {
                assert forall|i: int| 0 <= i < ops.len() implies #[trigger] self.contributions::<F>(
                    rows,
                    key,
                    i,
                ) == self.contributions::<F>(rest, key, i) by {}
            }
        }
    }
}

/// Where the state of the aggregate function `j` begins among the internal ones.
pub open spec fn internal_position(ops: Seq<AggOp>, j: int) -> int {
    internal_ops(ops.take(j)).len() as int
}

/// The states of the aggregate function `j`, and what a row contributes to them.
pub proof fn lemma_internal_position<F: FieldValue>(args: Seq<F::V>, ops: Seq<AggOp>, j: int)
    requires
        0 <= j < ops.len(),
    ensures
        ({
            let p = internal_position(ops, j);
            let fields = internal_fields::<F>(args, ops);
            &&& 0 <= p < internal_ops(ops).len()
            &&& internal_ops(ops)[p] == ops[j]
            &&& ops[j] != AggOp::Avg ==> fields[p] == args[j]
            &&& ops[j] == AggOp::Avg ==> {
                &&& p + 1 < internal_ops(ops).len()
                &&& internal_ops(ops)[p + 1] == AggOp::Count
                &&& fields[p] == averaged::<F>(args[j])
                &&& fields[p + 1] == F::int_value(1)
            }
        }),
    decreases ops.len(),
{
    let rest = ops.drop_last();
    lemma_internal_len::<F>(args, ops);
    lemma_internal_len::<F>(args, rest);
    if j == ops.len() - 1 {
        assert(ops.take(j) =~= rest);
    } else {
        assert(rest.take(j) =~= ops.take(j));
        lemma_internal_position::<F>(args, rest, j);
    }
}

/// How many of the functions are averages.
pub open spec fn averages(ops: Seq<AggOp>) -> nat
    decreases ops.len(),
{
    if ops.len() == 0 {
        0
    } else {
        averages(ops.drop_last()) + (if ops.last() == AggOp::Avg {
            1nat
        } else {
            0nat
        })
    }
}

/// A group keeps one state per function, and one more per average.
pub proof fn law_internal_ops(ops: Seq<AggOp>)
    ensures
        internal_ops(ops).len() == ops.len() + averages(ops),
    decreases ops.len(),
{
    if ops.len() > 0 {
        law_internal_ops(ops.drop_last());
    }
}

impl<E> Plan<E> {
    /// What a row contributes to the states of its group: for each function in turn the value of
    /// its expression, and for an average that value, an integer as a decimal, and then a one.
    pub proof fn law_fields<F: FieldValue>(self, row: Seq<F::V>) where E: Expr<F>
        requires
            self.ops.len() == self.agg.len(),
        ensures
            self.fields::<F>(row).len() == self.ops.len() + averages(self.ops),
            forall|j: int|
                0 <= j < self.ops.len() ==> {
                    let p = j + averages(self.ops.take(j));
                    let v = self.agg[j].value(row);
                    if #[trigger] self.ops[j] == AggOp::Avg {
                        &&& self.fields::<F>(row)[p] == averaged::<F>(v)
                        &&& self.fields::<F>(row)[p + 1] == F::int_value(1)
                    } else {
                        self.fields::<F>(row)[p] == v
                    }
                },
    {
        let args = self.args::<F>(row);
        lemma_internal_len::<F>(args, self.ops);
        law_internal_ops(self.ops);
        assert forall|j: int| 0 <= j < self.ops.len() implies {
            let p = j + averages(self.ops.take(j));
            let v = self.agg[j].value(row);
            if #[trigger] self.ops[j] == AggOp::Avg {
                &&& self.fields::<F>(row)[p] == averaged::<F>(v)
                &&& self.fields::<F>(row)[p + 1] == F::int_value(1)
            } else {
                self.fields::<F>(row)[p] == v
            }
        } by {
            lemma_internal_position::<F>(args, self.ops, j);
            law_internal_ops(self.ops.take(j));
        }
    }
}

/// The value of one function of a finished group.
spec fn finished_value<F: FieldValue>(ops: Seq<AggOp>, state: Seq<F::V>, j: int) -> Result<
    F::V,
    CrustyError,
> {
    let p = internal_position(ops, j);
    if ops[j] == AggOp::Avg {
        F::over(state[p], state[p + 1])
    } else {
        Ok(state[p])
    }
}

/// A group finishes with the values of its functions, or with the first failure among them.
proof fn lemma_finished<F: FieldValue>(ops: Seq<AggOp>, state: Seq<F::V>)
    ensures
        match finished::<F>(ops, state) {
            Ok(out) => {
                &&& out.len() == ops.len()
                &&& forall|j: int|
                    0 <= j < ops.len() ==> finished_value::<F>(ops, state, j) == Ok::<
                        F::V,
                        CrustyError,
                    >(#[trigger] out[j])
            },
            Err(e) => exists|j: int|
                0 <= j < ops.len() && #[trigger] finished_value::<F>(ops, state, j) == Err::<
                    F::V,
                    CrustyError,
                >(e) && forall|i: int|
                    0 <= i < j ==> (#[trigger] finished_value::<F>(ops, state, i)) is Ok,
        },
    decreases ops.len(),
{
    if ops.len() > 0 {
        let rest = ops.drop_last();
        let n = ops.len() - 1;
        lemma_finished::<F>(rest, state);
        assert(ops.take(n) =~= rest);
        assert forall|j: int| 0 <= j < n implies #[trigger] finished_value::<F>(ops, state, j)
            == finished_value::<F>(rest, state, j) by {
            assert(rest.take(j) =~= ops.take(j));
        }
        match finished::<F>(rest, state) {
            Ok(out) => {
                assert forall|j: int| 0 <= j < n implies (#[trigger] finished_value::<F>(
                    ops,
                    state,
                    j,
                )) == Ok::<F::V, CrustyError>(out[j]) by {}
                if finished::<F>(ops, state) is Err {
                    assert(finished_value::<F>(ops, state, n) is Err);
                }
            },
            Err(e) => {
                let j = choose|j: int|
                    0 <= j < rest.len() && #[trigger] finished_value::<F>(rest, state, j) == Err::<
                        F::V,
                        CrustyError,
                    >(e) && forall|i: int|
                        0 <= i < j ==> (#[trigger] finished_value::<F>(rest, state, i)) is Ok;
                assert(finished_value::<F>(ops, state, j) == Err::<F::V, CrustyError>(e));
            },
        }
    }
}

/// A count counts.
proof fn lemma_count_state<F: FieldValue>(vals: Seq<F::V>)
    requires
        vals.len() > 0,
        folds::<F>(AggOp::Count, vals),
    ensures
        countable(vals),
        state_of::<F>(AggOp::Count, vals) == F::int_value(vals.len() as i64),
    decreases vals.len(),
{
    if vals.len() > 1 {
        lemma_count_state::<F>(vals.drop_last());
        F::law_int_plus((vals.len() - 1) as i64, 1);
    }
}

/// A sum sums up.
proof fn lemma_sum_state<F: FieldValue>(op: AggOp, vals: Seq<F::V>)
    requires
        op == AggOp::Sum || op == AggOp::Avg,
        vals.len() > 0,
        placed::<F>(op, vals[0]) == vals[0],
        folds::<F>(op, vals),
    ensures
        total::<F>(vals) == Ok::<F::V, CrustyError>(state_of::<F>(op, vals)),
    decreases vals.len(),
{
    if vals.len() > 1 {
        assert(vals.drop_last()[0] == vals[0]);
        lemma_sum_state::<F>(op, vals.drop_last());
    }
}

/// A maximum is greatest, a minimum least.
proof fn lemma_extreme_state<F: FieldValue>(op: AggOp, vals: Seq<F::V>)
    requires
        op == AggOp::Max || op == AggOp::Min,
        vals.len() > 0,
    ensures
        op == AggOp::Max ==> is_greatest::<F>(state_of::<F>(op, vals), vals),
        op == AggOp::Min ==> is_least::<F>(state_of::<F>(op, vals), vals),
    decreases vals.len(),
{
    let v = state_of::<F>(op, vals);
    if vals.len() == 1 {
        F::law_total(vals[0], vals[0]);
        assert(vals[0] == v);
    } else {
        let rest = vals.drop_last();
        let last = vals.last();
        let acc = state_of::<F>(op, rest);
        lemma_extreme_state::<F>(op, rest);
        F::law_total(acc, last);
        F::law_total(last, last);
        let i = choose|i: int| 0 <= i < rest.len() && rest[i] == acc;
        assert(vals[i] == acc);
        assert(vals[vals.len() - 1] == last);
        assert forall|j: int| 0 <= j < vals.len() implies (if op == AggOp::Max {
            F::le(#[trigger] vals[j], v)
        } else {
            F::le(v, vals[j])
        }) by {
            if j < rest.len() {
                assert(rest[j] == vals[j]);
                if op == AggOp::Max {
                    if v == last {
                        F::law_transitive(vals[j], acc, last);
                    }
                } else {
                    if v == last && v != acc {
                        F::law_transitive(last, acc, vals[j]);
                    }
                }
            }
        }
    }
}

/// The output rows, one per group, where no group fails.
proof fn lemma_output<F: FieldValue>(ops: Seq<AggOp>, groups: Seq<(Seq<F::V>, Seq<F::V>)>)
    requires
        output_failure::<F>(ops, groups) is None,
    ensures
        output_rows::<F>(ops, groups).len() == groups.len(),
        forall|i: int|
            0 <= i < groups.len() ==> {
                &&& finished::<F>(ops, (#[trigger] groups[i]).1) is Ok
                &&& output_rows::<F>(ops, groups)[i] == groups[i].0 + finished::<F>(
                    ops,
                    groups[i].1,
                )->Ok_0
            },
    decreases groups.len(),
{
    if groups.len() > 0 {
        let rest = groups.drop_last();
        lemma_output::<F>(ops, rest);
        let out = output_rows::<F>(ops, groups);
        let before = output_rows::<F>(ops, rest);
        assert(output_failure::<F>(ops, rest) is None);
        assert(out == before.push(groups.last().0 + finished::<F>(ops, groups.last().1)->Ok_0));
        assert forall|i: int| 0 <= i < groups.len() implies {
            &&& finished::<F>(ops, (#[trigger] groups[i]).1) is Ok
            &&& output_rows::<F>(ops, groups)[i] == groups[i].0 + finished::<F>(
                ops,
                groups[i].1,
            )->Ok_0
        } by {
            if i < rest.len() {
                assert(before[i] == out[i]);
                assert(rest[i] == groups[i]);
            }
        }
    }
}

impl<E> Plan<E> {
    /// The groups have a listing.
    pub proof fn lemma_groups_listed<F: FieldValue>(self, rows: Seq<Seq<F::V>>) where E: Expr<F>
        ensures
            lists::<F>(listing::<F>(self.groups::<F>(rows)), self.groups::<F>(rows)),
        decreases rows.len(),
    {
        if rows.len() == 0 {
            self.lemma_no_groups::<F>();
            assert(rows =~= Seq::empty());
            let none = Seq::<(Seq<F::V>, Seq<F::V>)>::empty();
            assert(lists::<F>(none, self.groups::<F>(rows)));
        } else {
            let n = rows.len() - 1;
            let rest = rows.drop_last();
            let row = rows[n];
            let before = self.groups::<F>(rest);
            self.lemma_groups_step::<F>(rows, n);
            assert(rows.take(n + 1) =~= rows);
            assert(rows.take(n) =~= rest);
            self.lemma_groups_listed::<F>(rest);
            let after = self.groups::<F>(rows);
            let key = self.key::<F>(row);
            let entries = lemma_lists_insert::<F>(listing::<F>(before), before, key, after[key]);
            assert(after =~= before.insert(key, after[key]));
            assert(lists::<F>(entries, after));
        }
    }

    /// A group finishes with what each aggregate function makes of the arguments that the rows of
    /// the group give it, in the order of the functions; where one of them fails, with the first
    /// failure.
    pub proof fn law_group_values<F: FieldValue>(self, rows: Seq<Seq<F::V>>, key: Seq<F::V>) where
        E: Expr<F>,

        requires
            self.absorbs_all::<F>(rows),
            self.groups::<F>(rows).contains_key(key),
        ensures
            match finished::<F>(self.ops, self.groups::<F>(rows)[key]) {
                Ok(out) => {
                    &&& out.len() == self.ops.len()
                    &&& forall|j: int|
                        0 <= j < self.ops.len() ==> is_aggregate::<F>(
                            self.ops[j],
                            self.column::<F>(rows, key, j),
                            Ok(#[trigger] out[j]),
                        )
                },
                Err(e) => exists|j: int|
                    0 <= j < self.ops.len() && is_aggregate::<F>(
                        self.ops[j],
                        #[trigger] self.column::<F>(rows, key, j),
                        Err(e),
                    ) && forall|i: int|
                        0 <= i < j ==> has_aggregate::<F>(
                            self.ops[i],
                            #[trigger] self.column::<F>(rows, key, i),
                        ),
            },
    {
        let state = self.groups::<F>(rows)[key];
        let ops = self.ops;
        self.lemma_group_state::<F>(rows, key);
        lemma_finished::<F>(ops, state);
        assert forall|j: int| 0 <= j < ops.len() implies is_aggregate::<F>(
            ops[j],
            #[trigger] self.column::<F>(rows, key, j),
            finished_value::<F>(ops, state, j),
        ) by {
            self.lemma_function_value::<F>(rows, key, j);
        }
        match finished::<F>(ops, state) {
            Ok(out) => {
                assert forall|j: int| 0 <= j < ops.len() implies is_aggregate::<F>(
                    ops[j],
                    self.column::<F>(rows, key, j),
                    Ok(#[trigger] out[j]),
                ) by {
                    assert(finished_value::<F>(ops, state, j) == Ok::<F::V, CrustyError>(out[j]));
                }
            },
            Err(e) => {
                let j = choose|j: int|
                    0 <= j < ops.len() && #[trigger] finished_value::<F>(ops, state, j) == Err::<
                        F::V,
                        CrustyError,
                    >(e) && forall|i: int|
                        0 <= i < j ==> (#[trigger] finished_value::<F>(ops, state, i)) is Ok;
                assert forall|i: int| 0 <= i < j implies has_aggregate::<F>(
                    ops[i],
                    #[trigger] self.column::<F>(rows, key, i),
                ) by {
                    let v = finished_value::<F>(ops, state, i)->Ok_0;
                    assert(finished_value::<F>(ops, state, i) == Ok::<F::V, CrustyError>(v));
                    assert(is_aggregate::<F>(ops[i], self.column::<F>(rows, key, i), Ok(v)));
                }
                assert(is_aggregate::<F>(ops[j], self.column::<F>(rows, key, j), Err(e)));
            },
        }
    }

    proof fn lemma_function_value<F: FieldValue>(
        self,
        rows: Seq<Seq<F::V>>,
        key: Seq<F::V>,
        j: int,
    ) where E: Expr<F>
        requires
            self.absorbs_all::<F>(rows),
            self.groups::<F>(rows).contains_key(key),
            0 <= j < self.ops.len(),
        ensures
            is_aggregate::<F>(
                self.ops[j],
                self.column::<F>(rows, key, j),
                finished_value::<F>(self.ops, self.groups::<F>(rows)[key], j),
            ),
    {
        let state = self.groups::<F>(rows)[key];
        let ops = self.ops;
        let members = self.members::<F>(rows, key);
        let args = self.column::<F>(rows, key, j);
        let p = internal_position(ops, j);
        let vals = self.contributions::<F>(rows, key, p);
        self.lemma_group_state::<F>(rows, key);
        self.lemma_contributions::<F>(rows, key, j);
        lemma_internal_position::<F>(self.args::<F>(members[0]), ops, j);
        match ops[j] {
            AggOp::Count => {
                lemma_count_state::<F>(vals);
            },
            AggOp::Max | AggOp::Min => {
                lemma_extreme_state::<F>(ops[j], vals);
            },
            AggOp::Sum => {
                lemma_sum_state::<F>(ops[j], vals);
            },
            AggOp::Avg => {
                if let Some(n) = F::as_int(args[0]) {
                    F::law_decimal(n);
                }
                lemma_sum_state::<F>(ops[j], vals);
                lemma_count_state::<F>(self.contributions::<F>(rows, key, p + 1));
            },
        }
    }
}

/// The first `width` values of each of the rows.
pub open spec fn heads<V>(rows: Seq<Seq<V>>, width: nat) -> Seq<Seq<V>> {
    rows.map_values(|row: Seq<V>| row.take(width as int))
}

/// What a successful aggregation hands out: one row per group key that occurs among the rows of
/// its child, in strictly ascending order of the keys; a row is the key and then what each
/// aggregate function makes of the arguments that the rows with that key give it.
pub proof fn law_aggregate_rows<F: FieldValue, E: Expr<F>>(plan: Plan<E>, input: Run<F::V>)
    requires
        aggregate_run::<F, E>(plan, input).allowed,
        aggregate_run::<F, E>(plan, input).failure is None,
    ensures
        ({
            let rows = input.rest();
            let out = aggregate_run::<F, E>(plan, input).rows;
            let keys = heads(out, plan.groupby.len());
            &&& forall|i: int, j: int| 0 <= i < j < out.len() ==> key_lt::<F>(keys[i], keys[j])
            &&& forall|key: Seq<F::V>| #[trigger]
                keys.contains(key) <==> plan.occurs::<F>(rows, key)
            &&& forall|i: int|
                0 <= i < out.len() ==> (#[trigger] out[i]).len() == plan.groupby.len()
                    + plan.ops.len()
            &&& forall|i: int, j: int|
                0 <= i < out.len() && 0 <= j < plan.ops.len() ==> is_aggregate::<F>(
                    plan.ops[j],
                    #[trigger] plan.column::<F>(rows, keys[i], j),
                    Ok(out[i][plan.groupby.len() + j]),
                )
        }),
{
    let rows = input.rest();
    let groups = plan.groups::<F>(rows);
    let entries = listing::<F>(groups);
    let out = aggregate_run::<F, E>(plan, input).rows;
    let width = plan.groupby.len() as int;
    let keys = heads(out, plan.groupby.len());
    plan.lemma_groups_listed::<F>(rows);
    lemma_output::<F>(plan.ops, entries);
    assert forall|i: int| 0 <= i < out.len() implies {
        &&& (#[trigger] keys[i]) == entries[i].0
        &&& entries[i].0.len() == width
        &&& groups.contains_key(entries[i].0)
        &&& groups[entries[i].0] == entries[i].1
    } by {
        assert(has_key(entries, entries[i].0));
        assert(groups.contains_key(entries[i].0));
        plan.lemma_group_keys::<F>(rows, entries[i].0);
        assert(out[i].take(width) =~= entries[i].0);
    }
    assert forall|key: Seq<F::V>| #[trigger]
        keys.contains(key) <==> plan.occurs::<F>(rows, key) by {
        plan.lemma_group_keys::<F>(rows, key);
        if has_key(entries, key) {
            let i = choose|i: int| 0 <= i < entries.len() && (#[trigger] entries[i]).0 == key;
            assert(keys[i] == key);
        }
        if keys.contains(key) {
            let i = choose|i: int| 0 <= i < keys.len() && keys[i] == key;
            assert(entries[i].0 == key);
        }
    }
    assert forall|i: int| 0 <= i < out.len() implies (#[trigger] out[i]).len()
        == plan.groupby.len() + plan.ops.len() by {
        assert(keys[i] == entries[i].0);
        plan.law_group_values::<F>(rows, entries[i].0);
    }
    assert forall|i: int, j: int|
        0 <= i < out.len() && 0 <= j < plan.ops.len() implies is_aggregate::<F>(
        plan.ops[j],
        #[trigger] plan.column::<F>(rows, keys[i], j),
        Ok(out[i][width + j]),
    ) by {
        assert(keys[i] == entries[i].0);
        plan.law_group_values::<F>(rows, entries[i].0);
        let values = finished::<F>(plan.ops, entries[i].1)->Ok_0;
        assert(out[i][width + j] == values[j]);
    }
    assert forall|i: int, j: int| 0 <= i < j < out.len() implies key_lt::<F>(keys[i], keys[j]) by {
        assert(keys[i] == entries[i].0 && keys[j] == entries[j].0);
    }
}

/// Whether the sum and the number of the argument values exist, where `op` needs them.
pub open spec fn summable<F: FieldValue>(op: AggOp, args: Seq<F::V>) -> bool {
    match op {
        AggOp::Count => countable(args),
        AggOp::Max | AggOp::Min => true,
        AggOp::Sum => total::<F>(args) is Ok,
        AggOp::Avg => countable(args) && total::<F>(args.map_values(|v: F::V| averaged::<F>(v)))
            is Ok,
    }
}

/// Each internal function belongs to an aggregate function.
pub proof fn lemma_internal_index(ops: Seq<AggOp>, i: int) -> (j: int)
    requires
        0 <= i < internal_ops(ops).len(),
    ensures
        0 <= j < ops.len(),
        i == internal_position(ops, j) || (ops[j] == AggOp::Avg && i == internal_position(ops, j)
            + 1),
    decreases ops.len(),
{
    let rest = ops.drop_last();
    let n = ops.len() - 1;
    assert(ops.take(n) =~= rest);
    if i < internal_ops(rest).len() {
        let j = lemma_internal_index(rest, i);
        assert(rest.take(j) =~= ops.take(j));
        j
    } else {
        n
    }
}

impl<E> Plan<E> {
    /// The columns of a group, with one more row.
    proof fn lemma_column_step<F: FieldValue>(
        self,
        rows: Seq<Seq<F::V>>,
        key: Seq<F::V>,
        j: int,
    ) where E: Expr<F>
        requires
            rows.len() > 0,
        ensures
            self.column::<F>(rows, key, j) == if self.key::<F>(rows.last()) == key {
                self.column::<F>(rows.drop_last(), key, j).push(self.args::<F>(rows.last())[j])
            } else {
                self.column::<F>(rows.drop_last(), key, j)
            },
    {
        if self.key::<F>(rows.last()) == key {
            assert(self.column::<F>(rows, key, j) =~= self.column::<F>(
                rows.drop_last(),
                key,
                j,
            ).push(self.args::<F>(rows.last())[j]));
        }
    }

    /// Rows can be added to their groups, one after the other, exactly where the expressions have
    /// values on all of them and the sums and numbers of values that the groups need exist. In
    /// particular maxima and minima can always be kept, and counts as long as an integer field
    /// holds them.
    pub proof fn law_absorbs<F: FieldValue>(self, rows: Seq<Seq<F::V>>) where E: Expr<F>
        ensures
            self.absorbs_all::<F>(rows) <==> {
                &&& forall|i: int| 0 <= i < rows.len() ==> self.defined::<F>(#[trigger] rows[i])
                &&& forall|key: Seq<F::V>, j: int|
                    0 <= j < self.ops.len() && self.occurs::<F>(rows, key) ==> summable::<F>(
                        self.ops[j],
                        #[trigger] self.column::<F>(rows, key, j),
                    )
            },
    {
        if self.absorbs_all::<F>(rows) {
            assert forall|i: int| 0 <= i < rows.len() implies self.defined::<F>(
                #[trigger] rows[i],
            ) by {
                assert(self.absorbs::<F>(self.groups::<F>(rows.take(i)), rows[i]));
            }
            assert forall|key: Seq<F::V>, j: int|
                0 <= j < self.ops.len() && self.occurs::<F>(rows, key) implies summable::<F>(
                self.ops[j],
                #[trigger] self.column::<F>(rows, key, j),
            ) by {
                self.lemma_summable::<F>(rows, key, j);
            }
        }
        if {
            &&& forall|i: int| 0 <= i < rows.len() ==> self.defined::<F>(#[trigger] rows[i])
            &&& forall|key: Seq<F::V>, j: int|
                0 <= j < self.ops.len() && self.occurs::<F>(rows, key) ==> summable::<F>(
                    self.ops[j],
                    #[trigger] self.column::<F>(rows, key, j),
                )
        } {
            self.lemma_absorbs_all::<F>(rows);
        }
    }

    proof fn lemma_summable<F: FieldValue>(
        self,
        rows: Seq<Seq<F::V>>,
        key: Seq<F::V>,
        j: int,
    ) where E: Expr<F>
        requires
            self.absorbs_all::<F>(rows),
            self.occurs::<F>(rows, key),
            0 <= j < self.ops.len(),
        ensures
            summable::<F>(self.ops[j], self.column::<F>(rows, key, j)),
    {
        self.lemma_group_keys::<F>(rows, key);
        self.lemma_group_state::<F>(rows, key);
        let members = self.members::<F>(rows, key);
        let args = self.column::<F>(rows, key, j);
        let p = internal_position(self.ops, j);
        let vals = self.contributions::<F>(rows, key, p);
        lemma_internal_position::<F>(self.args::<F>(members[0]), self.ops, j);
        self.lemma_contributions::<F>(rows, key, j);
        if self.ops[j] == AggOp::Count {
            lemma_count_state::<F>(vals);
        } else if self.ops[j] == AggOp::Sum {
            lemma_sum_state::<F>(AggOp::Sum, vals);
        } else if self.ops[j] == AggOp::Avg {
            lemma_count_state::<F>(self.contributions::<F>(rows, key, p + 1));
            if let Some(n) = F::as_int(args[0]) {
                F::law_decimal(n);
            }
            lemma_sum_state::<F>(AggOp::Avg, vals);
        }
    }

    /// What the rows of a group contribute to the first state of an aggregate function.
    proof fn lemma_contributions<F: FieldValue>(
        self,
        rows: Seq<Seq<F::V>>,
        key: Seq<F::V>,
        j: int,
    ) where E: Expr<F>
        requires
            0 <= j < self.ops.len(),
        ensures
            self.contributions::<F>(rows, key, internal_position(self.ops, j)) == if self.ops[j]
                == AggOp::Avg {
                self.column::<F>(rows, key, j).map_values(|v: F::V| averaged::<F>(v))
            } else {
                self.column::<F>(rows, key, j)
            },
    {
        let members = self.members::<F>(rows, key);
        let args = self.column::<F>(rows, key, j);
        let vals = self.contributions::<F>(rows, key, internal_position(self.ops, j));
        assert forall|i: int| 0 <= i < members.len() implies #[trigger] vals[i] == if self.ops[j]
            == AggOp::Avg {
            averaged::<F>(args[i])
        } else {
            args[i]
        } by {
            lemma_internal_position::<F>(self.args::<F>(members[i]), self.ops, j);
        }
        if self.ops[j] == AggOp::Avg {
            assert(vals =~= args.map_values(|v: F::V| averaged::<F>(v)));
        } else {
            assert(vals =~= args);
        }
    }

    proof fn lemma_absorbs_all<F: FieldValue>(self, rows: Seq<Seq<F::V>>) where E: Expr<F>
        requires
            forall|i: int| 0 <= i < rows.len() ==> self.defined::<F>(#[trigger] rows[i]),
            forall|key: Seq<F::V>, j: int|
                0 <= j < self.ops.len() && self.occurs::<F>(rows, key) ==> summable::<F>(
                    self.ops[j],
                    #[trigger] self.column::<F>(rows, key, j),
                ),
        ensures
            self.absorbs_all::<F>(rows),
        decreases rows.len(),
    {
        if rows.len() > 0 {
            let n = rows.len() - 1;
            let rest = rows.drop_last();
            assert(rows.take(n) =~= rest);
            assert forall|i: int| 0 <= i < rest.len() implies self.defined::<F>(
                #[trigger] rest[i],
            ) by {
                assert(rest[i] == rows[i]);
            }
            assert forall|key: Seq<F::V>, j: int|
                0 <= j < self.ops.len() && self.occurs::<F>(rest, key) implies summable::<F>(
                self.ops[j],
                #[trigger] self.column::<F>(rest, key, j),
            ) by {
                let i = choose|i: int|
                    0 <= i < rest.len() && self.key::<F>(#[trigger] rest[i]) == key;
                assert(rows[i] == rest[i]);
                assert(self.occurs::<F>(rows, key));
                self.lemma_column_step::<F>(rows, key, j);
                lemma_summable_prefix::<F>(
                    self.ops[j],
                    self.column::<F>(rest, key, j),
                    self.args::<F>(rows.last())[j],
                );
            }
            self.lemma_absorbs_all::<F>(rest);
            self.lemma_absorbs_last::<F>(rows);
            assert forall|i: int| 0 <= i < rows.len() implies self.absorbs::<F>(
                self.groups::<F>(rows.take(i)),
                #[trigger] rows[i],
            ) by {
                if i < n {
                    assert(rest.take(i) =~= rows.take(i));
                    assert(rest[i] == rows[i]);
                }
            }
        }
    }

    proof fn lemma_absorbs_last<F: FieldValue>(self, rows: Seq<Seq<F::V>>) where E: Expr<F>
        requires
            rows.len() > 0,
            self.defined::<F>(rows.last()),
            self.absorbs_all::<F>(rows.drop_last()),
            forall|key: Seq<F::V>, j: int|
                0 <= j < self.ops.len() && self.occurs::<F>(rows, key) ==> summable::<F>(
                    self.ops[j],
                    #[trigger] self.column::<F>(rows, key, j),
                ),
        ensures
            self.absorbs::<F>(self.groups::<F>(rows.drop_last()), rows.last()),
    {
        let rest = rows.drop_last();
        let row = rows.last();
        let key = self.key::<F>(row);
        let groups = self.groups::<F>(rest);
        let ops = internal_ops(self.ops);
        assert(rows[rows.len() - 1] == row);
        assert(self.occurs::<F>(rows, key));
        if groups.contains_key(key) {
            let fields = self.fields::<F>(row);
            let state = groups[key];
            let members = self.members::<F>(rest, key);
            self.lemma_group_state::<F>(rest, key);
            assert forall|i: int| 0 <= i < state.len() implies (#[trigger] merged::<F>(
                ops[i],
                fields[i],
                state[i],
            )) is Ok by {
                let j = lemma_internal_index(self.ops, i);
                let p = internal_position(self.ops, j);
                lemma_internal_position::<F>(self.args::<F>(row), self.ops, j);
                let vals = self.contributions::<F>(rest, key, i);
                if ops[i] == AggOp::Count {
                    self.lemma_column_step::<F>(rows, key, j);
                    assert(summable::<F>(self.ops[j], self.column::<F>(rows, key, j)));
                    lemma_count_state::<F>(vals);
                    F::law_int_plus(members.len() as i64, 1);
                } else if ops[i] == AggOp::Sum || ops[i] == AggOp::Avg {
                    assert(i == p);
                    self.lemma_contributions::<F>(rest, key, j);
                    self.lemma_column_step::<F>(rows, key, j);
                    let args = self.column::<F>(rest, key, j);
                    let last = self.args::<F>(row)[j];
                    let all = self.column::<F>(rows, key, j);
                    assert(summable::<F>(self.ops[j], all));
                    if ops[i] == AggOp::Sum {
                        assert(all.drop_last() =~= args);
                    } else {
                        if let Some(n) = F::as_int(args[0]) {
                            F::law_decimal(n);
                        }
                        let summed = all.map_values(|v: F::V| averaged::<F>(v));
                        assert(summed.drop_last() =~= args.map_values(|v: F::V| averaged::<F>(v)));
                        assert(summed.last() == averaged::<F>(last));
                    }
                    lemma_sum_state::<F>(ops[i], vals);
                }
            }
        }
    }
}

/// A sum that exists, exists without the last value.
proof fn lemma_summable_prefix<F: FieldValue>(op: AggOp, args: Seq<F::V>, last: F::V)
    ensures
        summable::<F>(op, args.push(last)) ==> summable::<F>(op, args),
{
    let all = args.push(last);
    assert(all.drop_last() =~= args);
    let summed = all.map_values(|v: F::V| averaged::<F>(v));
    assert(summed.drop_last() =~= args.map_values(|v: F::V| averaged::<F>(v)));
}

/// What an aggregate function makes of argument values is unique.
pub proof fn law_aggregate_unique<F: FieldValue>(
    op: AggOp,
    args: Seq<F::V>,
    a: Result<F::V, CrustyError>,
    b: Result<F::V, CrustyError>,
)
    requires
        is_aggregate::<F>(op, args, a),
        is_aggregate::<F>(op, args, b),
    ensures
        a == b,
{
    if op == AggOp::Max || op == AggOp::Min {
        let v = a->Ok_0;
        let w = b->Ok_0;
        let i = choose|i: int| 0 <= i < args.len() && args[i] == v;
        let j = choose|j: int| 0 <= j < args.len() && args[j] == w;
        assert(args[i] == v && args[j] == w);
        F::law_antisymmetric(v, w);
    }
}

/// The groups fail exactly where one of them does.
proof fn lemma_output_failure<F: FieldValue>(
    ops: Seq<AggOp>,
    groups: Seq<(Seq<F::V>, Seq<F::V>)>,
)
    ensures
        output_failure::<F>(ops, groups) is None <==> forall|i: int|
            0 <= i < groups.len() ==> finished::<F>(ops, (#[trigger] groups[i]).1) is Ok,
    decreases groups.len(),
{
    if groups.len() > 0 {
        let rest = groups.drop_last();
        lemma_output_failure::<F>(ops, rest);
        assert(groups[groups.len() - 1] == groups.last());
        assert forall|i: int| 0 <= i < rest.len() implies #[trigger] groups[i] == rest[i] by {}
        if forall|i: int|
            0 <= i < groups.len() ==> finished::<F>(ops, (#[trigger] groups[i]).1) is Ok {
            assert forall|i: int| 0 <= i < rest.len() implies finished::<F>(
                ops,
                (#[trigger] rest[i]).1,
            ) is Ok by {
                assert(groups[i] == rest[i]);
            }
        }
        if output_failure::<F>(ops, groups) is None {
            assert forall|i: int| 0 <= i < groups.len() implies finished::<F>(
                ops,
                (#[trigger] groups[i]).1,
            ) is Ok by {
                if i < rest.len() {
                    assert(groups[i] == rest[i]);
                }
            }
        }
    }
}

/// Opening an aggregation whose child opens and hands out all of its rows succeeds exactly where
/// every aggregate function makes a value of the arguments of every group.
pub proof fn law_aggregate_succeeds<F: FieldValue, E: Expr<F>>(plan: Plan<E>, input: Run<F::V>)
    requires
        aggregate_run::<F, E>(plan, input).allowed,
        input.failure is None,
        input.ending is None,
    ensures
        aggregate_run::<F, E>(plan, input).failure is None <==> forall|key: Seq<F::V>, j: int|
            0 <= j < plan.ops.len() && plan.occurs::<F>(input.rest(), key) ==> has_aggregate::<F>(
                plan.ops[j],
                #[trigger] plan.column::<F>(input.rest(), key, j),
            ),
{
    let rows = input.rest();
    let groups = plan.groups::<F>(rows);
    let entries = listing::<F>(groups);
    plan.lemma_groups_listed::<F>(rows);
    lemma_output_failure::<F>(plan.ops, entries);
    if output_failure::<F>(plan.ops, entries) is None {
        assert forall|key: Seq<F::V>, j: int|
            0 <= j < plan.ops.len() && plan.occurs::<F>(rows, key) implies has_aggregate::<F>(
            plan.ops[j],
            #[trigger] plan.column::<F>(rows, key, j),
        ) by {
            plan.lemma_group_keys::<F>(rows, key);
            assert(has_key(entries, key));
            let i = choose|i: int| 0 <= i < entries.len() && (#[trigger] entries[i]).0 == key;
            plan.law_group_values::<F>(rows, key);
            assert(groups[key] == entries[i].1);
            let out = finished::<F>(plan.ops, groups[key])->Ok_0;
            assert(is_aggregate::<F>(plan.ops[j], plan.column::<F>(rows, key, j), Ok(out[j])));
        }
    }
    if forall|key: Seq<F::V>, j: int|
        0 <= j < plan.ops.len() && plan.occurs::<F>(rows, key) ==> has_aggregate::<F>(
            plan.ops[j],
            #[trigger] plan.column::<F>(rows, key, j),
        ) {
        assert forall|i: int| 0 <= i < entries.len() implies finished::<F>(
            plan.ops,
            (#[trigger] entries[i]).1,
        ) is Ok by {
            let key = entries[i].0;
            assert(has_key(entries, key));
            assert(groups.contains_key(key));
            plan.lemma_group_keys::<F>(rows, key);
            plan.law_group_values::<F>(rows, key);
            if let Err(e) = finished::<F>(plan.ops, groups[key]) {
                let j = choose|j: int|
                    0 <= j < plan.ops.len() && is_aggregate::<F>(
                        plan.ops[j],
                        #[trigger] plan.column::<F>(rows, key, j),
                        Err(e),
                    );
                let args = plan.column::<F>(rows, key, j);
                let v = choose|v: F::V| is_aggregate::<F>(plan.ops[j], args, Ok(v));
                law_aggregate_unique::<F>(plan.ops[j], args, Ok(v), Err(e));
            }
        }
    }
}

/// Without groups there are no output rows, and no failure.
pub proof fn law_no_groups<F: FieldValue>(ops: Seq<AggOp>)
    ensures
        output_failure::<F>(ops, listing::<F>(Map::empty())) is None,
        output_rows::<F>(ops, listing::<F>(Map::empty())) == Seq::<Seq<F::V>>::empty(),
{
    lemma_listing_empty::<F>();
}

/// An aggregation over no rows hands out none, with or without group keys.
pub proof fn law_no_rows<F: FieldValue, E: Expr<F>>(plan: Plan<E>)
    ensures
        aggregate_run::<F, E>(plan, run_over(Seq::empty(), 0)) == run_over(
            Seq::<Seq<F::V>>::empty(),
            0,
        ),
{
    let none = Seq::<Seq<F::V>>::empty();
    assert(run_over(none, 0).rest() =~= none);
    plan.lemma_no_groups::<F>();
    law_no_groups::<F>(plan.ops);
}

impl<E> Plan<E> {
    /// How many rows the groups with these keys have, all in all.
    pub open spec fn members_total<F: FieldValue>(
        self,
        rows: Seq<Seq<F::V>>,
        keys: Seq<Seq<F::V>>,
    ) -> nat where E: Expr<F>
        decreases keys.len(),
    {
        if keys.len() == 0 {
            0
        } else {
            self.members_total::<F>(rows, keys.drop_last()) + self.members::<F>(
                rows,
                keys.last(),
            ).len()
        }
    }

    proof fn lemma_members_total_step<F: FieldValue>(
        self,
        rows: Seq<Seq<F::V>>,
        keys: Seq<Seq<F::V>>,
    ) where E: Expr<F>
        requires
            rows.len() > 0,
            keys.no_duplicates(),
        ensures
            self.members_total::<F>(rows, keys) == self.members_total::<F>(rows.drop_last(), keys)
                + (if keys.contains(self.key::<F>(rows.last())) {
                1nat
            } else {
                0nat
            }),
        decreases keys.len(),
    {
        if keys.len() > 0 {
            let rest = keys.drop_last();
            let key = self.key::<F>(rows.last());
            self.lemma_members_total_step::<F>(rows, rest);
            assert(keys[keys.len() - 1] == keys.last());
            if rest.contains(key) {
                let i = choose|i: int| 0 <= i < rest.len() && rest[i] == key;
                assert(keys[i] == key);
            } else if keys.contains(key) {
                let i = choose|i: int| 0 <= i < keys.len() && keys[i] == key;
                if i < rest.len() {
                    assert(rest[i] == key);
                }
            }
        }
    }

    proof fn lemma_members_total<F: FieldValue>(
        self,
        rows: Seq<Seq<F::V>>,
        keys: Seq<Seq<F::V>>,
    ) where E: Expr<F>
        requires
            keys.no_duplicates(),
            forall|i: int| 0 <= i < rows.len() ==> keys.contains(self.key::<F>(#[trigger] rows[i])),
        ensures
            self.members_total::<F>(rows, keys) == rows.len(),
        decreases rows.len(), keys.len(),
    {
        if rows.len() == 0 {
            if keys.len() > 0 {
                self.lemma_members_total::<F>(rows, keys.drop_last());
            }
        } else {
            let rest = rows.drop_last();
            assert forall|i: int| 0 <= i < rest.len() implies keys.contains(
                self.key::<F>(#[trigger] rest[i]),
            ) by {
                assert(rows[i] == rest[i]);
            }
            self.lemma_members_total::<F>(rest, keys);
            self.lemma_members_total_step::<F>(rows, keys);
            assert(rows[rows.len() - 1] == rows.last());
        }
    }
}

/// Every row of the child belongs to exactly one of the groups that come out: the sizes of the
/// groups add up to the number of rows.
pub proof fn law_groups_partition<F: FieldValue, E: Expr<F>>(plan: Plan<E>, input: Run<F::V>)
    requires
        aggregate_run::<F, E>(plan, input).allowed,
        aggregate_run::<F, E>(plan, input).failure is None,
    ensures
        plan.members_total::<F>(
            input.rest(),
            heads(aggregate_run::<F, E>(plan, input).rows, plan.groupby.len()),
        ) == input.rest().len(),
{
    law_aggregate_rows::<F, E>(plan, input);
    let rows = input.rest();
    let keys = heads(aggregate_run::<F, E>(plan, input).rows, plan.groupby.len());
    assert forall|i: int| 0 <= i < rows.len() implies keys.contains(
        plan.key::<F>(#[trigger] rows[i]),
    ) by {
        assert(plan.occurs::<F>(rows, plan.key::<F>(rows[i])));
    }
    assert forall|i: int, j: int|
        0 <= i < keys.len() && 0 <= j < keys.len() && i != j implies keys[i] != keys[j] by {
        if i < j {
            assert(key_lt::<F>(keys[i], keys[j]));
        } else {
            assert(key_lt::<F>(keys[j], keys[i]));
        }
    }
    plan.lemma_members_total::<F>(rows, keys);
}

} // verus!
