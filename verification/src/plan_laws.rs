//! What the parts of an aggregation are: keys, groups, columns, states and values, each stated of
//! the expressions and rows that it is made of.

use crate::aggregate_laws::{
    averages, countable, has_aggregate, heads, internal_position, is_aggregate,
    law_internal_ops, lemma_internal_index, lemma_internal_position, summable, total,
};
use crate::error::CrustyError;
use crate::expr::Expr;
use crate::field::FieldValue;
use crate::plan::{
    averaged, finished, internal_fields, internal_ops, lemma_internal_len, merged, output_failure,
    output_rows, AggOp, Plan,
};
use vstd::prelude::*;

verus! {

impl<E> Plan<E> {
    /// The key of a row has the value of each group-by expression on it, in their order.
    pub proof fn law_key<F: FieldValue>(self, row: Seq<F::V>) where E: Expr<F>
        ensures
            self.key::<F>(row).len() == self.groupby.len(),
            forall|i: int|
                0 <= i < self.groupby.len() ==> #[trigger] self.key::<F>(row)[i]
                    == self.groupby[i].value(row),
    {
    }

    /// Two rows belong to one group exactly where all group-by expressions agree on them.
    pub proof fn law_same_group<F: FieldValue>(self, a: Seq<F::V>, b: Seq<F::V>) where E: Expr<F>
        ensures
            self.key::<F>(a) == self.key::<F>(b) <==> forall|i: int|
                0 <= i < self.groupby.len() ==> (#[trigger] self.groupby[i]).value(a)
                    == self.groupby[i].value(b),
    {
        if self.key::<F>(a) == self.key::<F>(b) {
            assert forall|i: int| 0 <= i < self.groupby.len() implies (
            #[trigger] self.groupby[i]).value(a) == self.groupby[i].value(b) by {
                assert(self.key::<F>(a)[i] == self.key::<F>(b)[i]);
            }
        }
        if forall|i: int|
            0 <= i < self.groupby.len() ==> (#[trigger] self.groupby[i]).value(a)
                == self.groupby[i].value(b) {
            assert(self.key::<F>(a) =~= self.key::<F>(b));
        }
    }

    /// A row gives each aggregate function the value of its own expression.
    pub proof fn law_args<F: FieldValue>(self, row: Seq<F::V>) where E: Expr<F>
        ensures
            self.args::<F>(row).len() == self.agg.len(),
            forall|j: int|
                0 <= j < self.agg.len() ==> #[trigger] self.args::<F>(row)[j] == self.agg[j].value(
                    row,
                ),
    {
    }

    /// A row can be used where all expressions, of the key and of the functions, have a value.
    pub proof fn law_defined<F: FieldValue>(self, row: Seq<F::V>) where E: Expr<F>
        ensures
            self.defined::<F>(row) <==> {
                &&& forall|i: int|
                    0 <= i < self.groupby.len() ==> (#[trigger] self.groupby[i]).defined(row)
                &&& forall|j: int| 0 <= j < self.agg.len() ==> (#[trigger] self.agg[j]).defined(row)
            },
    {
    }

    proof fn lemma_members_filter<F: FieldValue>(
        self,
        rows: Seq<Seq<F::V>>,
        key: Seq<F::V>,
        pred: spec_fn(Seq<F::V>) -> bool,
    ) where E: Expr<F>
        requires
            forall|row: Seq<F::V>| #[trigger] pred(row) <==> self.key::<F>(row) == key,
        ensures
            self.members::<F>(rows, key) == rows.filter(pred),
        decreases rows.len(),
    {
        reveal(Seq::filter);
        if rows.len() > 0 {
            self.lemma_members_filter::<F>(rows.drop_last(), key, pred);
            assert(pred(rows.last()) <==> self.key::<F>(rows.last()) == key);
        }
    }

    /// The members of a group are the rows on which the group-by expressions have the values of its
    /// key, all of them and in their order; and a key occurs where there are such rows.
    pub proof fn law_members<F: FieldValue>(
        self,
        rows: Seq<Seq<F::V>>,
        key: Seq<F::V>,
        belongs: spec_fn(Seq<F::V>) -> bool,
    ) where E: Expr<F>
        requires
            key.len() == self.groupby.len(),
            forall|row: Seq<F::V>| #[trigger]
                belongs(row) <==> forall|i: int|
                    0 <= i < self.groupby.len() ==> (#[trigger] self.groupby[i]).value(row)
                        == key[i],
        ensures
            self.members::<F>(rows, key) == rows.filter(belongs),
            self.occurs::<F>(rows, key) <==> exists|i: int|
                0 <= i < rows.len() && belongs(#[trigger] rows[i]),
    {
        assert forall|row: Seq<F::V>| #[trigger] belongs(row) <==> self.key::<F>(row) == key by {
            if belongs(row) {
                assert(self.key::<F>(row) =~= key);
            }
            if self.key::<F>(row) == key {
                assert forall|i: int| 0 <= i < self.groupby.len() implies (
                #[trigger] self.groupby[i]).value(row) == key[i] by {
                    assert(self.key::<F>(row)[i] == key[i]);
                }
            }
        }
        self.lemma_members_filter::<F>(rows, key, belongs);
        if self.occurs::<F>(rows, key) {
            let i = choose|i: int| 0 <= i < rows.len() && self.key::<F>(#[trigger] rows[i]) == key;
            assert(belongs(rows[i]));
        }
    }

    /// A key that occurs has one value per group-by expression.
    pub proof fn law_occurring_key<F: FieldValue>(
        self,
        rows: Seq<Seq<F::V>>,
        key: Seq<F::V>,
    ) where E: Expr<F>
        requires
            self.occurs::<F>(rows, key),
        ensures
            key.len() == self.groupby.len(),
    {
    }

    /// A column of a group has, for each of its rows, the value of the function's expression.
    pub proof fn law_column<F: FieldValue>(
        self,
        rows: Seq<Seq<F::V>>,
        key: Seq<F::V>,
        j: int,
    ) where E: Expr<F>
        requires
            0 <= j < self.agg.len(),
        ensures
            self.column::<F>(rows, key, j).len() == self.members::<F>(rows, key).len(),
            forall|i: int|
                0 <= i < self.members::<F>(rows, key).len() ==> #[trigger] self.column::<F>(
                    rows,
                    key,
                    j,
                )[i] == self.agg[j].value(self.members::<F>(rows, key)[i]),
    {
    }

    /// The groups of rows are built up from none, one row after the other.
    pub proof fn law_groups<F: FieldValue>(self, rows: Seq<Seq<F::V>>, row: Seq<F::V>) where
        E: Expr<F>,

        ensures
            self.groups::<F>(Seq::empty()) == Map::<Seq<F::V>, Seq<F::V>>::empty(),
            self.groups::<F>(rows.push(row)) == self.absorb::<F>(self.groups::<F>(rows), row),
    {
        self.lemma_no_groups::<F>();
        self.lemma_groups_step::<F>(rows.push(row), rows.len() as int);
        assert(rows.push(row).take(rows.len() as int) =~= rows);
        assert(rows.push(row).take((rows.len() + 1) as int) =~= rows.push(row));
    }

    /// Adding a row that opens a group leaves the other groups alone. The new group has one state
    /// per function and one more per average: a count starts at one, an average with the value as a
    /// decimal and a count of one, and every other function with the value.
    pub proof fn law_new_group<F: FieldValue>(
        self,
        groups: Map<Seq<F::V>, Seq<F::V>>,
        row: Seq<F::V>,
    ) where E: Expr<F>
        requires
            self.ops.len() == self.agg.len(),
            !groups.contains_key(self.key::<F>(row)),
        ensures
            ({
                let key = self.key::<F>(row);
                let after = self.absorb::<F>(groups, row);
                &&& after.contains_key(key)
                &&& after.remove(key) == groups
                &&& after[key].len() == self.ops.len() + averages(self.ops)
                &&& forall|j: int|
                    0 <= j < self.ops.len() ==> {
                        let p = j + averages(self.ops.take(j));
                        let v = self.agg[j].value(row);
                        match #[trigger] self.ops[j] {
                            AggOp::Count => after[key][p] == F::int_value(1),
                            AggOp::Max | AggOp::Min | AggOp::Sum => after[key][p] == v,
                            AggOp::Avg => after[key][p + 1] == F::int_value(1) && match F::as_int(
                                v,
                            ) {
                                Some(n) => after[key][p] == F::decimal_value(n),
                                None => after[key][p] == v,
                            },
                        }
                    }
            }),
    {
        let key = self.key::<F>(row);
        let after = self.absorb::<F>(groups, row);
        let args = self.args::<F>(row);
        lemma_internal_len::<F>(args, self.ops);
        law_internal_ops(self.ops);
        assert(after.remove(key) =~= groups);
        assert forall|j: int| 0 <= j < self.ops.len() implies {
            let p = j + averages(self.ops.take(j));
            let v = self.agg[j].value(row);
            match #[trigger] self.ops[j] {
                AggOp::Count => after[key][p] == F::int_value(1),
                AggOp::Max | AggOp::Min | AggOp::Sum => after[key][p] == v,
                AggOp::Avg => after[key][p + 1] == F::int_value(1) && match F::as_int(v) {
                    Some(n) => after[key][p] == F::decimal_value(n),
                    None => after[key][p] == v,
                },
            }
        } by {
            lemma_internal_position::<F>(args, self.ops, j);
            law_internal_ops(self.ops.take(j));
            if let Some(n) = F::as_int(args[j]) {
                F::law_decimal(n);
            }
        }
    }

    /// Adding a row to a group that is there leaves the other groups alone and moves each of its
    /// states on: a count by one, a maximum to the greater and a minimum to the lesser of the state
    /// and the value, a sum by the value, and an average by the value as a decimal and its count by
    /// one.
    pub proof fn law_larger_group<F: FieldValue>(
        self,
        groups: Map<Seq<F::V>, Seq<F::V>>,
        row: Seq<F::V>,
    ) where E: Expr<F>
        requires
            self.ops.len() == self.agg.len(),
            groups.contains_key(self.key::<F>(row)),
            groups[self.key::<F>(row)].len() == self.ops.len() + averages(self.ops),
            self.absorbs::<F>(groups, row),
        ensures
            ({
                let key = self.key::<F>(row);
                let old_state = groups[key];
                let state = self.absorb::<F>(groups, row)[key];
                &&& self.absorb::<F>(groups, row) == groups.insert(key, state)
                &&& state.len() == old_state.len()
                &&& forall|j: int|
                    0 <= j < self.ops.len() ==> {
                        let p = j + averages(self.ops.take(j));
                        let v = self.agg[j].value(row);
                        match #[trigger] self.ops[j] {
                            AggOp::Count => F::plus(old_state[p], F::int_value(1)) == Ok::<
                                F::V,
                                CrustyError,
                            >(state[p]),
                            AggOp::Max => {
                                &&& state[p] == old_state[p] || state[p] == v
                                &&& F::le(old_state[p], state[p]) && F::le(v, state[p])
                            },
                            AggOp::Min => {
                                &&& state[p] == old_state[p] || state[p] == v
                                &&& F::le(state[p], old_state[p]) && F::le(state[p], v)
                            },
                            AggOp::Sum => F::plus(old_state[p], v) == Ok::<F::V, CrustyError>(
                                state[p],
                            ),
                            AggOp::Avg => {
                                &&& F::plus(old_state[p + 1], F::int_value(1)) == Ok::<
                                    F::V,
                                    CrustyError,
                                >(state[p + 1])
                                &&& match F::as_int(v) {
                                    Some(n) => F::plus(old_state[p], F::decimal_value(n)) == Ok::<
                                        F::V,
                                        CrustyError,
                                    >(state[p]),
                                    None => F::plus(old_state[p], v) == Ok::<F::V, CrustyError>(
                                        state[p],
                                    ),
                                }
                            },
                        }
                    }
            }),
    {
        let key = self.key::<F>(row);
        let old_state = groups[key];
        let state = self.absorb::<F>(groups, row)[key];
        let args = self.args::<F>(row);
        let fields = self.fields::<F>(row);
        let ops = internal_ops(self.ops);
        lemma_internal_len::<F>(args, self.ops);
        law_internal_ops(self.ops);
        assert forall|j: int| 0 <= j < self.ops.len() implies {
            let p = j + averages(self.ops.take(j));
            let v = self.agg[j].value(row);
            match #[trigger] self.ops[j] {
                AggOp::Count => F::plus(old_state[p], F::int_value(1)) == Ok::<
                    F::V,
                    CrustyError,
                >(state[p]),
                AggOp::Max => {
                    &&& state[p] == old_state[p] || state[p] == v
                    &&& F::le(old_state[p], state[p]) && F::le(v, state[p])
                },
                AggOp::Min => {
                    &&& state[p] == old_state[p] || state[p] == v
                    &&& F::le(state[p], old_state[p]) && F::le(state[p], v)
                },
                AggOp::Sum => F::plus(old_state[p], v) == Ok::<F::V, CrustyError>(state[p]),
                AggOp::Avg => {
                    &&& F::plus(old_state[p + 1], F::int_value(1)) == Ok::<F::V, CrustyError>(
                        state[p + 1],
                    )
                    &&& match F::as_int(v) {
                        Some(n) => F::plus(old_state[p], F::decimal_value(n)) == Ok::<
                            F::V,
                            CrustyError,
                        >(state[p]),
                        None => F::plus(old_state[p], v) == Ok::<F::V, CrustyError>(state[p]),
                    }
                },
            }
        } by {
            let p = internal_position(self.ops, j);
            lemma_internal_position::<F>(args, self.ops, j);
            law_internal_ops(self.ops.take(j));
            assert(merged::<F>(ops[p], fields[p], old_state[p]) is Ok);
            if self.ops[j] == AggOp::Avg {
                assert(merged::<F>(ops[p + 1], fields[p + 1], old_state[p + 1]) is Ok);
            }
            F::law_total(old_state[p], args[j]);
            F::law_total(old_state[p], old_state[p]);
            F::law_total(args[j], args[j]);
        }
    }

    /// A row can be added where its expressions have values and, if its group is there, the sums
    /// that move the states on exist.
    pub proof fn law_addable<F: FieldValue>(
        self,
        groups: Map<Seq<F::V>, Seq<F::V>>,
        row: Seq<F::V>,
    ) where E: Expr<F>
        requires
            self.ops.len() == self.agg.len(),
            groups.contains_key(self.key::<F>(row)) ==> groups[self.key::<F>(row)].len()
                == self.ops.len() + averages(self.ops),
        ensures
            self.absorbs::<F>(groups, row) <==> {
                let state = groups[self.key::<F>(row)];
                &&& self.defined::<F>(row)
                &&& groups.contains_key(self.key::<F>(row)) ==> forall|j: int|
                    0 <= j < self.ops.len() ==> {
                        let p = j + averages(self.ops.take(j));
                        let v = self.agg[j].value(row);
                        match #[trigger] self.ops[j] {
                            AggOp::Count => F::plus(state[p], F::int_value(1)) is Ok,
                            AggOp::Max | AggOp::Min => true,
                            AggOp::Sum => F::plus(state[p], v) is Ok,
                            AggOp::Avg => F::plus(state[p + 1], F::int_value(1)) is Ok && F::plus(
                                state[p],
                                averaged::<F>(v),
                            ) is Ok,
                        }
                    }
            },
    {
        let key = self.key::<F>(row);
        let state = groups[key];
        let args = self.args::<F>(row);
        let fields = self.fields::<F>(row);
        let ops = internal_ops(self.ops);
        law_internal_ops(self.ops);
        if groups.contains_key(key) && self.absorbs::<F>(groups, row) {
            assert forall|j: int| 0 <= j < self.ops.len() implies moves_on::<F>(
                self.ops,
                state,
                j,
                args[j],
            ) && #[trigger] self.ops[j] == self.ops[j] by {
                let p = internal_position(self.ops, j);
                lemma_moves_on::<F>(args, self.ops, state, j);
                lemma_internal_position::<F>(args, self.ops, j);
                assert(merged::<F>(ops[p], fields[p], state[p]) is Ok);
                if self.ops[j] == AggOp::Avg {
                    assert(merged::<F>(ops[p + 1], fields[p + 1], state[p + 1]) is Ok);
                }
            }
        }
        if groups.contains_key(key) && forall|j: int|
            0 <= j < self.ops.len() ==> moves_on::<F>(self.ops, state, j, args[j])
                && #[trigger] self.ops[j] == self.ops[j] {
            assert forall|i: int| 0 <= i < state.len() implies (#[trigger] merged::<F>(
                ops[i],
                fields[i],
                state[i],
            )) is Ok by {
                let j = lemma_internal_index(self.ops, i);
                assert(self.ops[j] == self.ops[j]);
                lemma_moves_on::<F>(args, self.ops, state, j);
            }
        }
    }
}

/// Whether the states of the function `j` can be moved on by the value `v`.
spec fn moves_on<F: FieldValue>(ops: Seq<AggOp>, state: Seq<F::V>, j: int, v: F::V) -> bool {
    let p = j + averages(ops.take(j));
    match ops[j] {
        AggOp::Count => F::plus(state[p], F::int_value(1)) is Ok,
        AggOp::Max | AggOp::Min => true,
        AggOp::Sum => F::plus(state[p], v) is Ok,
        AggOp::Avg => F::plus(state[p + 1], F::int_value(1)) is Ok && F::plus(
            state[p],
            averaged::<F>(v),
        ) is Ok,
    }
}

proof fn lemma_moves_on<F: FieldValue>(
    args: Seq<F::V>,
    ops: Seq<AggOp>,
    state: Seq<F::V>,
    j: int,
)
    requires
        0 <= j < ops.len(),
    ensures
        ({
            let p = internal_position(ops, j);
            let fields = internal_fields::<F>(args, ops);
            let kept = internal_ops(ops);
            moves_on::<F>(ops, state, j, args[j]) <==> {
                &&& merged::<F>(kept[p], fields[p], state[p]) is Ok
                &&& ops[j] == AggOp::Avg ==> merged::<F>(
                    kept[p + 1],
                    fields[p + 1],
                    state[p + 1],
                ) is Ok
            }
        }),
{
    lemma_internal_position::<F>(args, ops, j);
    law_internal_ops(ops.take(j));
}

/// Averages are counted one function after the other.
pub proof fn law_averages(ops: Seq<AggOp>, op: AggOp)
    ensures
        averages(Seq::empty()) == 0,
        averages(ops.push(op)) == averages(ops) + (if op == AggOp::Avg {
            1int
        } else {
            0int
        }),
{
    assert(ops.push(op).drop_last() =~= ops);
}

/// The internal functions: each function has its own place, and an average a count behind it.
pub proof fn law_internal_places(ops: Seq<AggOp>, j: int)
    requires
        0 <= j < ops.len(),
    ensures
        internal_ops(ops).len() == ops.len() + averages(ops),
        internal_ops(ops)[j + averages(ops.take(j))] == ops[j],
        ops[j] == AggOp::Avg ==> internal_ops(ops)[j + averages(ops.take(j)) + 1] == AggOp::Count,
    decreases ops.len(),
{
    let rest = ops.drop_last();
    law_internal_ops(ops);
    law_internal_ops(rest);
    law_internal_ops(ops.take(j));
    if j == ops.len() - 1 {
        assert(ops.take(j) =~= rest);
    } else {
        assert(rest.take(j) =~= ops.take(j));
        law_internal_places(rest, j);
        law_internal_ops(rest.take(j));
        assert(rest[j] == ops[j]);
        let p = j + averages(ops.take(j));
        assert(p < internal_ops(rest).len()) by {
            lemma_internal_ops_room(rest, j);
        }
        lemma_internal_ops_room(rest, j);
    }
}

proof fn lemma_internal_ops_room(ops: Seq<AggOp>, j: int)
    requires
        0 <= j < ops.len(),
    ensures
        j + averages(ops.take(j)) + (if ops[j] == AggOp::Avg {
            1int
        } else {
            0int
        }) < internal_ops(ops).len(),
    decreases ops.len(),
{
    let rest = ops.drop_last();
    law_internal_ops(ops);
    if j == ops.len() - 1 {
        assert(ops.take(j) =~= rest);
    } else {
        assert(rest.take(j) =~= ops.take(j));
        lemma_internal_ops_room(rest, j);
        law_internal_ops(rest);
    }
}

/// An average takes integers as decimals, and other values as they are.
pub proof fn law_averaged<F: FieldValue>(v: F::V)
    ensures
        match F::as_int(v) {
            Some(n) => averaged::<F>(v) == F::decimal_value(n),
            None => averaged::<F>(v) == v,
        },
{
}

/// The total of values: from the first one on, each is added to what there is, up to the first
/// addition that fails.
pub proof fn law_total<F: FieldValue>(vals: Seq<F::V>, sums: Seq<Result<F::V, CrustyError>>)
    requires
        vals.len() > 0,
        sums.len() == vals.len(),
        sums[0] == Ok::<F::V, CrustyError>(vals[0]),
        forall|i: int|
            0 < i < vals.len() ==> #[trigger] sums[i] == match sums[i - 1] {
                Ok(sum) => F::plus(sum, vals[i]),
                Err(e) => Err(e),
            },
    ensures
        total::<F>(vals) == sums.last(),
    decreases vals.len(),
{
    let n = vals.len() - 1;
    assert(sums[n] == sums.last());
    if n > 0 {
        let shorter = sums.drop_last();
        assert forall|i: int| 0 < i < n implies #[trigger] shorter[i] == match shorter[i - 1] {
            Ok(sum) => F::plus(sum, vals.drop_last()[i]),
            Err(e) => Err(e),
        } by {
            assert(sums[i] == shorter[i]);
        }
        law_total::<F>(vals.drop_last(), shorter);
        assert(shorter.last() == sums[n - 1]);
    }
}

/// A count is the number of the values, where an integer field holds it.
pub proof fn law_count<F: FieldValue>(args: Seq<F::V>, r: Result<F::V, CrustyError>)
    ensures
        is_aggregate::<F>(AggOp::Count, args, r) <==> args.len() <= 0x7fff_ffff_ffff_ffff && r
            == Ok::<F::V, CrustyError>(F::int_value(args.len() as i64)),
{
}

/// A maximum is one of the values, and none of them is greater.
pub proof fn law_maximum<F: FieldValue>(args: Seq<F::V>, r: Result<F::V, CrustyError>)
    ensures
        is_aggregate::<F>(AggOp::Max, args, r) <==> (r matches Ok(v) && args.contains(v) && forall|
            i: int,
        |
            0 <= i < args.len() ==> F::le(#[trigger] args[i], v)),
{
}

/// A minimum is one of the values, and none of them is less.
pub proof fn law_minimum<F: FieldValue>(args: Seq<F::V>, r: Result<F::V, CrustyError>)
    ensures
        is_aggregate::<F>(AggOp::Min, args, r) <==> (r matches Ok(v) && args.contains(v) && forall|
            i: int,
        |
            0 <= i < args.len() ==> F::le(v, #[trigger] args[i])),
{
}

/// A sum is the total of the values.
pub proof fn law_sum<F: FieldValue>(args: Seq<F::V>, r: Result<F::V, CrustyError>)
    ensures
        is_aggregate::<F>(AggOp::Sum, args, r) <==> r == total::<F>(args),
{
}

/// An average is the total of the values, integers taken as decimals, divided by their number.
pub proof fn law_average<F: FieldValue>(
    args: Seq<F::V>,
    decimals: Seq<F::V>,
    r: Result<F::V, CrustyError>,
)
    requires
        decimals.len() == args.len(),
        forall|i: int|
            0 <= i < args.len() ==> #[trigger] decimals[i] == match F::as_int(args[i]) {
                Some(n) => F::decimal_value(n),
                None => args[i],
            },
    ensures
        is_aggregate::<F>(AggOp::Avg, args, r) <==> match total::<F>(decimals) {
            Ok(sum) => args.len() <= 0x7fff_ffff_ffff_ffff && r == F::over(
                sum,
                F::int_value(args.len() as i64),
            ),
            Err(e) => r == Err::<F::V, CrustyError>(e),
        },
{
    assert(decimals =~= args.map_values(|v: F::V| averaged::<F>(v)));
}

/// A function has a value where there is one that it makes of the arguments.
pub proof fn law_has_aggregate<F: FieldValue>(op: AggOp, args: Seq<F::V>)
    ensures
        has_aggregate::<F>(op, args) <==> exists|v: F::V| is_aggregate::<F>(op, args, Ok(v)),
{
}

/// What a function needs in order to be kept: a count that an integer field holds, and a total.
pub proof fn law_summable<F: FieldValue>(op: AggOp, args: Seq<F::V>)
    ensures
        countable(args) <==> args.len() <= 0x7fff_ffff_ffff_ffff,
        summable::<F>(op, args) <==> match op {
            AggOp::Count => args.len() <= 0x7fff_ffff_ffff_ffff,
            AggOp::Max | AggOp::Min => true,
            AggOp::Sum => total::<F>(args) is Ok,
            AggOp::Avg => args.len() <= 0x7fff_ffff_ffff_ffff && total::<F>(
                Seq::new(args.len(), |i: int| averaged::<F>(args[i])),
            ) is Ok,
        },
{
    assert(Seq::new(args.len(), |i: int| averaged::<F>(args[i])) =~= args.map_values(
        |v: F::V| averaged::<F>(v),
    ));
}

/// The values of a finished group: an average is the quotient of its two states, every other
/// function has the value of its state. The first quotient that fails is the failure of the group.
pub proof fn law_finished<F: FieldValue>(ops: Seq<AggOp>, state: Seq<F::V>)
    ensures
        match finished::<F>(ops, state) {
            Ok(out) => {
                &&& out.len() == ops.len()
                &&& forall|j: int|
                    0 <= j < ops.len() ==> {
                        let p = j + averages(ops.take(j));
                        if #[trigger] ops[j] == AggOp::Avg {
                            F::over(state[p], state[p + 1]) == Ok::<F::V, CrustyError>(out[j])
                        } else {
                            out[j] == state[p]
                        }
                    }
            },
            Err(e) => exists|j: int|
                #![trigger ops[j]]
                {
                    let p = j + averages(ops.take(j));
                    &&& 0 <= j < ops.len()
                    &&& ops[j] == AggOp::Avg
                    &&& F::over(state[p], state[p + 1]) == Err::<F::V, CrustyError>(e)
                    &&& finished::<F>(ops.take(j), state) is Ok
                },
        },
    decreases ops.len(),
{
    if ops.len() > 0 {
        let rest = ops.drop_last();
        let n = ops.len() - 1;
        law_finished::<F>(rest, state);
        law_internal_ops(rest);
        assert(ops.take(n) =~= rest);
        assert(ops[n] == ops.last());
        match finished::<F>(rest, state) {
            Ok(before) => {
                if let Ok(out) = finished::<F>(ops, state) {
                    assert forall|j: int| 0 <= j < ops.len() implies {
                        let p = j + averages(ops.take(j));
                        if #[trigger] ops[j] == AggOp::Avg {
                            F::over(state[p], state[p + 1]) == Ok::<F::V, CrustyError>(out[j])
                        } else {
                            out[j] == state[p]
                        }
                    } by {
                        if j < n {
                            assert(rest.take(j) =~= ops.take(j));
                            assert(rest[j] == ops[j]);
                            assert(out[j] == before[j]);
                        }
                    }
                } else {
                    let p = n + averages(ops.take(n));
                    assert(ops[n] == AggOp::Avg && F::over(state[p], state[p + 1]) is Err);
                }
            },
            Err(e) => {
                let j = choose|j: int|
                    #![trigger rest[j]]
                    {
                        let p = j + averages(rest.take(j));
                        &&& 0 <= j < rest.len()
                        &&& rest[j] == AggOp::Avg
                        &&& F::over(state[p], state[p + 1]) == Err::<F::V, CrustyError>(e)
                        &&& finished::<F>(rest.take(j), state) is Ok
                    };
                assert(rest.take(j) =~= ops.take(j));
                assert(rest[j] == ops[j]);
            },
        }
    }
}

/// The output: one row per group in their order, the key and then the values, up to the first group
/// that fails, whose failure is that of the output.
pub proof fn law_output<F: FieldValue>(ops: Seq<AggOp>, groups: Seq<(Seq<F::V>, Seq<F::V>)>)
    ensures
        ({
            let out = output_rows::<F>(ops, groups);
            &&& out.len() <= groups.len()
            &&& forall|i: int|
                0 <= i < out.len() ==> finished::<F>(ops, (#[trigger] groups[i]).1) is Ok && out[i]
                    == groups[i].0 + finished::<F>(ops, groups[i].1)->Ok_0
            &&& out.len() == groups.len() ==> output_failure::<F>(ops, groups) is None
            &&& out.len() < groups.len() ==> (output_failure::<F>(ops, groups) matches Some(e)
                && finished::<F>(ops, groups[out.len() as int].1) == Err::<Seq<F::V>, CrustyError>(
                e,
            ))
        }),
    decreases groups.len(),
{
    if groups.len() > 0 {
        let rest = groups.drop_last();
        let out = output_rows::<F>(ops, groups);
        let before = output_rows::<F>(ops, rest);
        law_output::<F>(ops, rest);
        assert(groups[groups.len() - 1] == groups.last());
        assert forall|i: int| 0 <= i < out.len() implies finished::<F>(
            ops,
            (#[trigger] groups[i]).1,
        ) is Ok && out[i] == groups[i].0 + finished::<F>(ops, groups[i].1)->Ok_0 by {
            if i < before.len() {
                assert(out[i] == before[i]);
                assert(rest[i] == groups[i]);
            }
        }
        if before.len() < rest.len() {
            assert(rest[before.len() as int] == groups[before.len() as int]);
            assert(out == before);
        } else if finished::<F>(ops, groups.last().1) is Err {
            assert(out == before);
        } else {
            assert(output_failure::<F>(ops, groups) is None);
            assert(out.len() == before.len() + 1);
        }
    }
}

/// The heads of rows are their first values.
pub proof fn law_heads<V>(rows: Seq<Seq<V>>, width: nat)
    ensures
        heads(rows, width).len() == rows.len(),
        forall|i: int|
            0 <= i < rows.len() ==> #[trigger] heads(rows, width)[i] == rows[i].subrange(
                0,
                width as int,
            ),
{
}

} // verus!
