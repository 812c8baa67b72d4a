//! The group-by aggregate operator.

use crate::error::CrustyError;
use crate::expr::Expr;
use crate::field::FieldValue;
use crate::group_table::{group_values, has_key, listing, GroupTable};
use crate::operator::{lemma_rows_push, reported, rows, run_over, OpIterator, Run};
use crate::order::{lemma_values_push, values, Order};
use crate::plan::{
    finished, internal_fields, internal_ops, lemma_finished_prefix, lemma_internal_len,
    lemma_internal_ops_prefix, lemma_output_prefix, mergeable, merged, merged_all, output_failure,
    output_rows, placed, placed_all, AggOp, Plan,
};
use crate::tuple::{TableSchema, Tuple};
use vstd::pervasive::unreached;
use vstd::prelude::*;

verus! {

/// The operator that another one reads from, held as it was given.
pub struct Input<C> {
    pub operator: C,
}

/// Aggregate operator: it reads all of its child's tuples when it is opened, and then hands out
/// one tuple per group, in ascending order of the group keys.
#[verifier::reject_recursive_types(F)]
#[verifier::reject_recursive_types(E)]
pub struct Aggregate<F: FieldValue, E: Expr<F>> {
    /// Output schema of the form [groupby_field attributes ..., agg_field attributes ...].
    schema: TableSchema,
    /// Group by fields.
    groupby_expr: Vec<E>,
    /// Aggregated fields.
    agg_expr: Vec<E>,
    /// Aggregation operations.
    ops: Vec<AggOp>,
    /// Child operator to get the data from.
    child: Input<Box<dyn OpIterator<F>>>,
    /// If true, then the operator will be rewound in the future.
    will_rewind: bool,
    open: bool,
    /// Maps group key -> internal aggregate state.
    map: GroupTable<F>,
    /// Internal ops where each AVG becomes [AVG, COUNT].
    ops_other: Vec<AggOp>,
    /// Materialized results for iteration.
    results: Vec<Tuple<F>>,
    /// Current index into results.
    index: usize,
}

/// What an aggregate operator has in hand between two calls.
#[verifier::reject_recursive_types(V)]
pub ghost struct Progress<V> {
    pub open: bool,
    pub will_rewind: bool,
    /// The groups of the rows read so far that have not become results.
    pub groups: Map<Seq<V>, Seq<V>>,
    /// The internal functions, where they have been set up.
    pub internal: Seq<AggOp>,
    pub results: Seq<Seq<V>>,
    /// How many of the results have been handed out.
    pub index: nat,
}

/// What a closed operator has in hand: nothing.
pub open spec fn closed_progress<V>(will_rewind: bool) -> Progress<V> {
    Progress {
        open: false,
        will_rewind,
        groups: Map::empty(),
        internal: Seq::empty(),
        results: Seq::empty(),
        index: 0,
    }
}

impl<F: FieldValue, E: Expr<F>> Aggregate<F, E> {
    /// What the operator computes.
    pub closed spec fn plan(&self) -> Plan<E> {
        Plan { groupby: self.groupby_expr@, agg: self.agg_expr@, ops: self.ops@ }
    }

    /// The child operator.
    pub closed spec fn child(&self) -> Input<Box<dyn OpIterator<F>>> {
        self.child
    }

    /// How far the operator has come.
    pub closed spec fn progress(&self) -> Progress<F::V> {
        Progress {
            open: self.open,
            will_rewind: self.will_rewind,
            groups: self.map@,
            internal: self.ops_other@,
            results: rows(self.results@),
            index: self.index as nat,
        }
    }

    /// The groups have a state for each internal function.
    spec fn groups_inv(&self) -> bool {
        &&& self.map.wf()
        &&& forall|key: Seq<F::V>| #[trigger]
            self.map@.contains_key(key) ==> self.map@[key].len() == internal_ops(self.ops@).len()
    }

    /// The invariant of the operator itself: there is a function for each aggregated expression,
    /// the groups have a state for each internal function, no more results have been handed out
    /// than there are, and the internal functions are set up while the operator is open.
    spec fn inner_inv(&self) -> bool {
        &&& self.ops.len() == self.agg_expr.len()
        &&& self.groups_inv()
        &&& self.index <= self.results.len()
        &&& self.open ==> self.ops_other@ == internal_ops(self.ops@)
    }

    /// Creates an operator, closed, that aggregates the tuples of `child`.
    pub fn new(
        groupby_expr: Vec<E>,
        agg_expr: Vec<E>,
        ops: Vec<AggOp>,
        schema: TableSchema,
        child: Box<dyn OpIterator<F>>,
    ) -> (r: Self)
        requires
            ops.len() == agg_expr.len(),
            child.inv(),
        ensures
            r.inv(),
            r.schema() == schema,
            r.plan() == (Plan { groupby: groupby_expr@, agg: agg_expr@, ops: ops@ }),
            r.child().operator == child,
            r.progress() == closed_progress::<F::V>(false),
    {
        if ops.len() != agg_expr.len() {
            unreached::<()>();
        }
        let input = Input { operator: child };
        let r = Aggregate {
            schema,
            groupby_expr,
            agg_expr,
            ops,
            child: input,
            will_rewind: false,
            open: false,
            map: GroupTable::new(),
            ops_other: Vec::new(),
            results: Vec::new(),
            index: 0,
        };
        assert(rows(r.results@) =~= Seq::empty());
        r
    }

    /// Merges a value into the state of one internal function. The state stays as it is where
    /// that fails.
    fn merge_fields(op: AggOp, field_val: &F, acc: &mut F) -> (r: Result<(), CrustyError>)
        ensures
            match merged::<F>(op, field_val@, old(acc)@) {
                Ok(v) => r == Ok::<(), CrustyError>(()) && final(acc)@ == v,
                Err(e) => r == Err::<(), CrustyError>(e) && final(acc)@ == old(acc)@,
            },
    {
        match op {
            AggOp::Count => {
                *acc = acc.add_field(&F::from_int(1))?;
            },
            AggOp::Max => {
                proof {
                    F::law_antisymmetric(acc@, field_val@);
                    F::law_total(acc@, field_val@);
                }
                match acc.compare(field_val) {
                    Order::Greater => {},
                    _ => {
                        *acc = field_val.duplicate();
                    },
                }
            },
            AggOp::Min => {
                proof {
                    F::law_antisymmetric(acc@, field_val@);
                    F::law_total(acc@, field_val@);
                }
                match acc.compare(field_val) {
                    Order::Greater => {
                        *acc = field_val.duplicate();
                    },
                    _ => {},
                }
            },
            AggOp::Sum => {
                *acc = acc.add_field(field_val)?;
            },
            AggOp::Avg => {
                *acc = acc.add_field(field_val)?;
            },
        }
        Ok(())
    }

    /// The state of an internal function after the first value.
    fn place_field(op: AggOp, field_val: &F) -> (r: F)
        ensures
            r@ == placed::<F>(op, field_val@),
    {
        match op {
            AggOp::Count => F::from_int(1),
            AggOp::Max | AggOp::Min | AggOp::Sum => field_val.duplicate(),
            AggOp::Avg => match field_val.to_int() {
                Some(n) => F::decimal_from_int(n),
                None => field_val.duplicate(),
            },
        }
    }

    /// Sets up the internal functions.
    fn build_internal_ops(&mut self)
        ensures
            *final(self) == (Aggregate { ops_other: final(self).ops_other, ..*old(self) }),
            final(self).ops_other@ == internal_ops(old(self).ops@),
    {
        self.ops_other.clear();
        let mut i: usize = 0;
        while i < self.ops.len()
            invariant
                *self == (Aggregate { ops_other: self.ops_other, ..*old(self) }),
                i <= self.ops.len(),
                self.ops_other@ == internal_ops(self.ops@.take(i as int)),
            decreases self.ops.len() - i,
        {
            assert(self.ops@.take(i + 1).drop_last() =~= self.ops@.take(i as int));
            match self.ops[i] {
                AggOp::Avg => {
                    self.ops_other.push(AggOp::Avg);
                    self.ops_other.push(AggOp::Count);
                },
                op => {
                    self.ops_other.push(op);
                },
            }
            i = i + 1;
            assert(self.ops_other@ =~= internal_ops(self.ops@.take(i as int)));
        }
        assert(self.ops@.take(i as int) =~= self.ops@);
    }

    /// The key of the group that a tuple belongs to.
    fn eval_groupby_fields(&self, tuple: &Tuple<F>) -> (r: Vec<F>)
        requires
            self.plan().defined::<F>(tuple@),
        ensures
            values(r@) == self.plan().key::<F>(tuple@),
    {
        let ghost key = self.plan().key::<F>(tuple@);
        let mut fields: Vec<F> = Vec::new();
        let mut i: usize = 0;
        while i < self.groupby_expr.len()
            invariant
                i <= self.groupby_expr.len(),
                key == self.plan().key::<F>(tuple@),
                self.plan().defined::<F>(tuple@),
                values(fields@) == key.take(i as int),
            decreases self.groupby_expr.len() - i,
        {
            assert(self.plan().groupby[i as int].defined(tuple@));
            let field = self.groupby_expr[i].eval(tuple);
            proof {
                lemma_values_push(fields@, field);
                assert(key.take(i + 1) =~= key.take(i as int).push(field@));
            }
            fields.push(field);
            i = i + 1;
        }
        assert(key.take(i as int) =~= key);
        fields
    }

    /// What a tuple contributes to the states of its group.
    fn eval_internal_agg_fields(&self, tuple: &Tuple<F>) -> (r: Vec<F>)
        requires
            self.ops.len() == self.agg_expr.len(),
            self.plan().defined::<F>(tuple@),
        ensures
            values(r@) == self.plan().fields::<F>(tuple@),
    {
        let ghost args = self.plan().args::<F>(tuple@);
        let mut fields: Vec<F> = Vec::new();
        let mut i: usize = 0;
        while i < self.agg_expr.len()
            invariant
                i <= self.ops.len(),
                self.ops.len() == self.agg_expr.len(),
                args == self.plan().args::<F>(tuple@),
                self.plan().defined::<F>(tuple@),
                values(fields@) == internal_fields::<F>(args, self.ops@.take(i as int)),
            decreases self.agg_expr.len() - i,
        {
            assert(self.plan().agg[i as int].defined(tuple@));
            assert(self.ops@.take(i + 1).drop_last() =~= self.ops@.take(i as int));
            let ghost before = fields@;
            let field = self.agg_expr[i].eval(tuple);
            match self.ops[i] {
                AggOp::Avg => {
                    let sum_field = match field.to_int() {
                        Some(n) => F::decimal_from_int(n),
                        None => field,
                    };
                    let one = F::from_int(1);
                    proof {
                        lemma_values_push(before, sum_field);
                        lemma_values_push(before.push(sum_field), one);
                    }
                    fields.push(sum_field);
                    fields.push(one);
                },
                _ => {
                    proof {
                        lemma_values_push(before, field);
                    }
                    fields.push(field);
                },
            }
            i = i + 1;
            assert(values(fields@) =~= internal_fields::<F>(args, self.ops@.take(i as int)));
        }
        assert(self.ops@.take(i as int) =~= self.ops@);
        fields
    }

    /// Adds a tuple to its group.
    pub fn merge_tuple_into_group(&mut self, tuple: &Tuple<F>)
        requires
            old(self).inv(),
            old(self).progress().internal == internal_ops(old(self).plan().ops),
            old(self).plan().absorbs::<F>(old(self).progress().groups, tuple@),
        ensures
            final(self).inv(),
            final(self).plan() == old(self).plan(),
            final(self).child() == old(self).child(),
            final(self).schema() == old(self).schema(),
            final(self).progress() == (Progress {
                groups: old(self).plan().absorb::<F>(old(self).progress().groups, tuple@),
                ..old(self).progress()
            }),
    {
        let groupby_fields = self.eval_groupby_fields(tuple);
        let agg_fields = self.eval_internal_agg_fields(tuple);
        let ghost ops = internal_ops(self.ops@);
        let ghost key = values(groupby_fields@);
        let ghost contribution = values(agg_fields@);
        proof {
            lemma_internal_len::<F>(self.plan().args::<F>(tuple@), self.ops@);
        }
        if let Some(fields) = self.map.get_mut(&groupby_fields) {
            let ghost before = values(fields@);
            let mut i: usize = 0;
            while i < fields.len()
                invariant
                    i <= fields.len(),
                    fields.len() == before.len() == ops.len() == agg_fields.len(),
                    ops == self.ops_other@,
                    contribution == values(agg_fields@),
                    mergeable::<F>(ops, contribution, before),
                    forall|j: int|
                        0 <= j < i ==> (#[trigger] fields@[j])@ == merged_all::<F>(
                            ops,
                            contribution,
                            before,
                        )[j],
                    forall|j: int| i <= j < fields.len() ==> (#[trigger] fields@[j])@ == before[j],
                decreases fields.len() - i,
            {
                assert(merged::<F>(ops[i as int], contribution[i as int], before[i as int]) is Ok);
                Self::merge_fields(self.ops_other[i], &agg_fields[i], &mut fields[i]).unwrap();
                i = i + 1;
            }
            assert(values(fields@) =~= merged_all::<F>(ops, contribution, before));
        } else {
            let mut init_fields: Vec<F> = Vec::with_capacity(agg_fields.len());
            let mut i: usize = 0;
            while i < agg_fields.len()
                invariant
                    i <= agg_fields.len(),
                    agg_fields.len() == ops.len(),
                    ops == self.ops_other@,
                    contribution == values(agg_fields@),
                    values(init_fields@) == placed_all::<F>(ops, contribution).take(i as int),
                decreases agg_fields.len() - i,
            {
                let field = Self::place_field(self.ops_other[i], &agg_fields[i]);
                proof {
                    lemma_values_push(init_fields@, field);
                    assert(placed_all::<F>(ops, contribution).take(i + 1) =~= placed_all::<F>(
                        ops,
                        contribution,
                    ).take(i as int).push(field@));
                }
                init_fields.push(field);
                i = i + 1;
            }
            assert(values(init_fields@) =~= placed_all::<F>(ops, contribution));
            self.map.insert(groupby_fields, init_fields);
        }
    }

    /// Adds the rest of the child's tuples to their groups.
    fn read_child(&mut self) -> (r: Result<(), CrustyError>)
        requires
            old(self).inv(),
            old(self).open,
            old(self).map@ == Map::<Seq<F::V>, Seq<F::V>>::empty(),
            old(self).child.operator.is_open(),
            old(self).plan().absorbs_all::<F>(old(self).child.operator.run().rest()),
        ensures
            final(self).inv(),
            final(self).plan() == old(self).plan(),
            final(self).schema == old(self).schema,
            final(self).progress() == (Progress {
                groups: old(self).plan().groups::<F>(old(self).child.operator.run().rest()),
                ..old(self).progress()
            }),
            r == reported(old(self).child.operator.run().ending),
            final(self).child.operator.schema() == old(self).child.operator.schema(),
            final(self).child.operator.expects_rewind() == old(
                self,
            ).child.operator.expects_rewind(),
            final(self).child.operator.is_open(),
            final(self).child.operator.fresh_run() == old(self).child.operator.fresh_run(),
            final(self).child.operator.close_failure() == old(self).child.operator.close_failure(),
            r is Ok ==> {
                let input = old(self).child.operator.run();
                final(self).child.operator.run() == input.advanced(input.rest().len())
            },
    {
        let ghost plan = self.plan();
        let ghost input = self.child.operator.run();
        let ghost fed = input.rest();
        let ghost mut n: int = 0;
        proof {
            plan.lemma_no_groups::<F>();
            assert(fed.take(0) =~= Seq::empty());
        }
        loop
            invariant
                self.inv(),
                self.open,
                self.plan() == plan,
                self.schema == old(self).schema,
                plan == old(self).plan(),
                input == old(self).child.operator.run(),
                fed == input.rest(),
                plan.absorbs_all::<F>(fed),
                0 <= n <= fed.len(),
                self.progress() == (Progress {
                    groups: plan.groups::<F>(fed.take(n)),
                    ..old(self).progress()
                }),
                self.child.operator.is_open(),
                self.child.operator.run() == input.advanced(n as nat),
                self.child.operator.fresh_run() == old(self).child.operator.fresh_run(),
                self.child.operator.close_failure() == old(self).child.operator.close_failure(),
                self.child.operator.schema() == old(self).child.operator.schema(),
                self.child.operator.expects_rewind() == old(self).child.operator.expects_rewind(),
            decreases fed.len() - n,
        {
            match self.child.operator.next() {
                Ok(Some(tuple)) => {
                    proof {
                        assert(fed[n] == tuple@);
                        plan.lemma_groups_step::<F>(fed, n);
                    }
                    self.merge_tuple_into_group(&tuple);
                    proof {
                        n = n + 1;
                    }
                },
                Ok(None) => {
                    assert(fed.take(n) =~= fed);
                    return Ok(());
                },
                Err(e) => {
                    assert(fed.take(n) =~= fed);
                    return Err(e);
                },
            }
        }
    }

    /// Turns the groups into result tuples, in ascending order of their keys. Where a group fails,
    /// the results of those before it stay.
    fn materialize_results(&mut self) -> (r: Result<(), CrustyError>)
        requires
            old(self).groups_inv(),
        ensures
            *final(self) == (Aggregate {
                map: final(self).map,
                results: final(self).results,
                ..*old(self)
            }),
            final(self).groups_inv(),
            final(self).map@ == Map::<Seq<F::V>, Seq<F::V>>::empty(),
            r == reported(output_failure::<F>(old(self).ops@, listing::<F>(old(self).map@))),
            rows(final(self).results@) == output_rows::<F>(
                old(self).ops@,
                listing::<F>(old(self).map@),
            ),
    {
        self.results.clear();
        let ghost groups = listing::<F>(self.map@);
        let ghost ops = self.ops@;
        let entries = self.map.drain();
        proof {
            assert forall|i: int| 0 <= i < groups.len() implies (#[trigger] groups[i]).1.len()
                == internal_ops(ops).len() by {
                assert(has_key(groups, groups[i].0));
                assert(old(self).map@.contains_key(groups[i].0));
            }
        }
        assert(rows(self.results@) =~= Seq::empty());
        assert(groups.take(0) =~= Seq::empty());
        for group in it: entries
            invariant
                *self == (Aggregate { map: self.map, results: self.results, ..*old(self) }),
                self.map.wf(),
                self.map@ == Map::<Seq<F::V>, Seq<F::V>>::empty(),
                ops == old(self).ops@,
                groups == listing::<F>(old(self).map@),
                group_values(it.seq()) == groups,
                forall|i: int|
                    0 <= i < groups.len() ==> (#[trigger] groups[i]).1.len() == internal_ops(
                        ops,
                    ).len(),
                output_failure::<F>(ops, groups.take(it.index() as int)) is None,
                rows(self.results@) == output_rows::<F>(ops, groups.take(it.index() as int)),
        {
            let ghost n = it.index() as int;
            let ghost key = groups[n].0;
            let ghost state = groups[n].1;
            assert(groups.take(n + 1).drop_last() =~= groups.take(n));
            assert(group == it.seq()[n]);
            assert(group_values(it.seq())[n] == (values(group.key@), values(group.state@)));
            let mut out_fields = group.key;
            let agg_vals = group.state;
            let mut internal_idx: usize = 0;
            let mut i: usize = 0;
            assert(ops.take(0) =~= Seq::empty());
            assert(key + Seq::<F::V>::empty() =~= key);
            while i < self.ops.len()
                invariant
                    i <= self.ops.len(),
                    self.ops@ == ops,
                    state == values(agg_vals@),
                    state.len() == internal_ops(ops).len(),
                    internal_idx == internal_ops(ops.take(i as int)).len(),
                    finished::<F>(ops.take(i as int), state) matches Ok(out) && values(out_fields@)
                        == key + out,
                    0 <= n < groups.len(),
                    groups[n] == (key, state),
                    groups.take(n + 1).drop_last() == groups.take(n),
                    groups == listing::<F>(old(self).map@),
                    ops == old(self).ops@,
                    output_failure::<F>(ops, groups.take(n)) is None,
                    rows(self.results@) == output_rows::<F>(ops, groups.take(n)),
                    *self == (Aggregate { map: self.map, results: self.results, ..*old(self) }),
                    self.map.wf(),
                    self.map@ == Map::<Seq<F::V>, Seq<F::V>>::empty(),
                decreases self.ops.len() - i,
            {
                let ghost out = finished::<F>(ops.take(i as int), state)->Ok_0;
                let ghost before = out_fields@;
                proof {
                    lemma_internal_ops_prefix(ops, i + 1);
                    assert(ops.take(i + 1).drop_last() =~= ops.take(i as int));
                    assert(ops.take(i + 1).last() == ops[i as int]);
                    assert(agg_vals.len() == state.len());
                }
                match self.ops[i] {
                    AggOp::Avg => {
                        assert(internal_idx + 2 == internal_ops(ops.take(i + 1)).len());
                        match agg_vals[internal_idx].div_field(&agg_vals[internal_idx + 1]) {
                            Ok(avg) => {
                                proof {
                                    lemma_values_push(before, avg);
                                    assert(key + out.push(avg@) =~= (key + out).push(avg@));
                                }
                                out_fields.push(avg);
                            },
                            Err(e) => {
                                proof {
                                    lemma_finished_prefix::<F>(ops, state, i + 1);
                                    assert(groups.take(n + 1).last() == groups[n]);
                                    lemma_output_prefix::<F>(ops, groups, n + 1);
                                }
                                return Err(e);
                            },
                        }
                        internal_idx = internal_idx + 2;
                    },
                    _ => {
                        let field = agg_vals[internal_idx].duplicate();
                        proof {
                            lemma_values_push(before, field);
                            assert(key + out.push(field@) =~= (key + out).push(field@));
                        }
                        out_fields.push(field);
                        internal_idx = internal_idx + 1;
                    },
                }
                i = i + 1;
            }
            assert(ops.take(i as int) =~= ops);
            let tuple = Tuple::new(out_fields);
            proof {
                lemma_rows_push(self.results@, tuple);
            }
            self.results.push(tuple);
        }
        assert(groups.take(groups.len() as int) =~= groups);
        Ok(())
    }
}

/// What opening an aggregation leads to, from what opening its child leads to: the rows of the
/// child are grouped, and each group becomes a row.
pub open spec fn aggregate_run<F: FieldValue, E: Expr<F>>(plan: Plan<E>, input: Run<F::V>) -> Run<
    F::V,
> {
    let groups = listing::<F>(plan.groups::<F>(input.rest()));
    Run {
        allowed: input.allowed && (input.failure is None ==> plan.absorbs_all::<F>(input.rest())),
        failure: if input.failure is Some {
            input.failure
        } else if input.ending is Some {
            input.ending
        } else {
            output_failure::<F>(plan.ops, groups)
        },
        rows: output_rows::<F>(plan.ops, groups),
        cursor: 0,
        ending: None,
    }
}

/// What an aggregate operator has in hand after it was opened, where its child behaves as `input`.
pub open spec fn opened_progress<F: FieldValue, E: Expr<F>>(
    plan: Plan<E>,
    input: Run<F::V>,
    before: Progress<F::V>,
) -> Progress<F::V> {
    let groups = plan.groups::<F>(input.rest());
    if before.open || input.failure is Some {
        before
    } else {
        Progress {
            open: true,
            will_rewind: before.will_rewind,
            groups: if input.ending is Some {
                groups
            } else {
                Map::empty()
            },
            internal: internal_ops(plan.ops),
            results: if input.ending is Some {
                Seq::empty()
            } else {
                output_rows::<F>(plan.ops, listing::<F>(groups))
            },
            index: 0,
        }
    }
}

impl<F: FieldValue, E: Expr<F>> OpIterator<F> for Aggregate<F, E> {
    closed spec fn inv(&self) -> bool {
        self.inner_inv() && self.child.operator.inv()
    }

    open spec fn is_open(&self) -> bool {
        self.progress().open
    }

    open spec fn run(&self) -> Run<F::V> {
        if self.is_open() {
            run_over(self.progress().results, self.progress().index)
        } else {
            aggregate_run::<F, E>(self.plan(), self.child().operator.run())
        }
    }

    open spec fn fresh_run(&self) -> Run<F::V> {
        aggregate_run::<F, E>(self.plan(), self.child().operator.fresh_run())
    }

    open spec fn close_failure(&self) -> Option<CrustyError> {
        self.child().operator.close_failure()
    }

    closed spec fn schema(&self) -> TableSchema {
        self.schema
    }

    open spec fn expects_rewind(&self) -> bool {
        self.progress().will_rewind
    }

    fn configure(&mut self, will_rewind: bool)
        ensures
            final(self).plan() == old(self).plan(),
            final(self).progress() == (Progress { will_rewind, ..old(self).progress() }),
            !final(self).child().operator.expects_rewind(),
            final(self).child().operator.is_open() == old(self).child().operator.is_open(),
            final(self).child().operator.run() == old(self).child().operator.run(),
            final(self).child().operator.fresh_run() == old(self).child().operator.fresh_run(),
            final(self).child().operator.close_failure() == old(
                self,
            ).child().operator.close_failure(),
            final(self).child().operator.schema() == old(self).child().operator.schema(),
    {
        self.will_rewind = will_rewind;
        self.child.operator.configure(false);
    }

    fn open(&mut self) -> (r: Result<(), CrustyError>)
        ensures
            final(self).plan() == old(self).plan(),
            final(self).progress() == opened_progress::<F, E>(
                old(self).plan(),
                old(self).child().operator.run(),
                old(self).progress(),
            ),
            old(self).is_open() ==> final(self).child() == old(self).child(),
            final(self).child().operator.schema() == old(self).child().operator.schema(),
            final(self).child().operator.expects_rewind() == old(
                self,
            ).child().operator.expects_rewind(),
            ({
                let input = old(self).child().operator.run();
                !old(self).is_open() && input.failure is None ==> {
                    &&& final(self).child().operator.is_open()
                    &&& input.ending is None ==> final(self).child().operator.run()
                        == input.advanced(input.rest().len())
                    &&& final(self).child().operator.fresh_run() == old(
                        self,
                    ).child().operator.fresh_run()
                    &&& final(self).child().operator.close_failure() == old(
                        self,
                    ).child().operator.close_failure()
                }
            }),
    {
        if !self.open {
            self.child.operator.open()?;
            self.open = true;
            self.index = 0;
            self.map.clear();
            self.results.clear();

            self.build_internal_ops();

            assert(rows(self.results@) =~= Seq::empty());
            self.read_child()?;
            self.materialize_results()?;
        }
        Ok(())
    }

    fn next(&mut self) -> (r: Result<Option<Tuple<F>>, CrustyError>)
        ensures
            final(self).plan() == old(self).plan(),
            final(self).child() == old(self).child(),
            final(self).progress() == (Progress {
                index: final(self).progress().index,
                ..old(self).progress()
            }),
    {
        if !self.open {
            unreached::<()>();
        }
        if self.index < self.results.len() {
            let t = self.results[self.index].duplicate();
            self.index = self.index + 1;
            Ok(Some(t))
        } else {
            Ok(None)
        }
    }

    fn close(&mut self) -> (r: Result<(), CrustyError>)
        ensures
            final(self).plan() == old(self).plan(),
            final(self).progress() == if r is Ok {
                closed_progress::<F::V>(old(self).progress().will_rewind)
            } else {
                old(self).progress()
            },
            final(self).child().operator.schema() == old(self).child().operator.schema(),
            final(self).child().operator.expects_rewind() == old(
                self,
            ).child().operator.expects_rewind(),
            r is Ok ==> {
                &&& !final(self).child().operator.is_open()
                &&& final(self).child().operator.run() == old(self).child().operator.fresh_run()
                &&& final(self).child().operator.fresh_run() == old(
                    self,
                ).child().operator.fresh_run()
                &&& final(self).child().operator.close_failure() == old(
                    self,
                ).child().operator.close_failure()
            },
    {
        self.child.operator.close()?;
        self.open = false;
        self.index = 0;
        self.map.clear();
        self.ops_other.clear();
        self.results.clear();
        assert(rows(self.results@) =~= Seq::empty());
        Ok(())
    }

    fn rewind(&mut self) -> (r: Result<(), CrustyError>)
        ensures
            r is Ok,
            final(self).plan() == old(self).plan(),
            final(self).child() == old(self).child(),
            final(self).progress() == (Progress { index: 0, ..old(self).progress() }),
    {
        if !self.open {
            unreached::<()>();
        }
        self.index = 0;
        Ok(())
    }

    fn get_schema(&self) -> (r: &TableSchema) {
        &self.schema
    }
}

} // verus!
