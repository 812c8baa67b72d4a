//! What an aggregation computes: the aggregate functions, the state that they keep per group, and
//! the rows that come out.

use crate::error::CrustyError;
use crate::expr::Expr;
use crate::field::FieldValue;
use vstd::prelude::*;

verus! {

/// An aggregate function.
#[derive(Clone, Copy, Debug, PartialEq, Eq, Structural)]
pub enum AggOp {
    Avg,
    Count,
    Max,
    Min,
    Sum,
}

/// The functions whose states a group keeps for `ops`: an average keeps a sum and a count, every
/// other function itself.
pub open spec fn internal_ops(ops: Seq<AggOp>) -> Seq<AggOp>
    decreases ops.len(),
{
    if ops.len() == 0 {
        Seq::empty()
    } else {
        internal_ops(ops.drop_last()) + (if ops.last() == AggOp::Avg {
            seq![AggOp::Avg, AggOp::Count]
        } else {
            seq![ops.last()]
        })
    }
}

/// A value as an average sums it up: integers as decimals.
pub open spec fn averaged<F: FieldValue>(v: F::V) -> F::V {
    match F::as_int(v) {
        Some(n) => F::decimal_value(n),
        None => v,
    }
}

/// What a row with the argument values `args` contributes to the states of `internal_ops(ops)`.
pub open spec fn internal_fields<F: FieldValue>(args: Seq<F::V>, ops: Seq<AggOp>) -> Seq<F::V>
    decreases ops.len(),
{
    if ops.len() == 0 {
        Seq::empty()
    } else {
        let arg = args[ops.len() - 1];
        internal_fields::<F>(args, ops.drop_last()) + (if ops.last() == AggOp::Avg {
            seq![averaged::<F>(arg), F::int_value(1)]
        } else {
            seq![arg]
        })
    }
}

/// The state of an internal function after the first row of a group.
pub open spec fn placed<F: FieldValue>(op: AggOp, v: F::V) -> F::V {
    match op {
        AggOp::Count => F::int_value(1),
        AggOp::Max | AggOp::Min | AggOp::Sum => v,
        AggOp::Avg => averaged::<F>(v),
    }
}

/// The state of an internal function after one more row of a group.
pub open spec fn merged<F: FieldValue>(op: AggOp, v: F::V, acc: F::V) -> Result<
    F::V,
    CrustyError,
> {
    match op {
        AggOp::Count => F::plus(acc, F::int_value(1)),
        AggOp::Max => Ok(
            if F::le(acc, v) {
                v
            } else {
                acc
            },
        ),
        AggOp::Min => Ok(
            if F::le(acc, v) {
                acc
            } else {
                v
            },
        ),
        AggOp::Sum | AggOp::Avg => F::plus(acc, v),
    }
}

/// The states of a new group.
pub open spec fn placed_all<F: FieldValue>(ops: Seq<AggOp>, fields: Seq<F::V>) -> Seq<F::V> {
    Seq::new(fields.len(), |i: int| placed::<F>(ops[i], fields[i]))
}

/// Whether a row with these contributions can be added to the states of a group.
pub open spec fn mergeable<F: FieldValue>(
    ops: Seq<AggOp>,
    fields: Seq<F::V>,
    state: Seq<F::V>,
) -> bool {
    forall|i: int|
        0 <= i < state.len() ==> (#[trigger] merged::<F>(ops[i], fields[i], state[i])) is Ok
}

/// The states of a group after one more row.
pub open spec fn merged_all<F: FieldValue>(
    ops: Seq<AggOp>,
    fields: Seq<F::V>,
    state: Seq<F::V>,
) -> Seq<F::V> {
    Seq::new(state.len(), |i: int| merged::<F>(ops[i], fields[i], state[i])->Ok_0)
}

/// The values of `ops` for a group whose internal functions ended in `state`, or the first failure
/// among them.
pub open spec fn finished<F: FieldValue>(ops: Seq<AggOp>, state: Seq<F::V>) -> Result<
    Seq<F::V>,
    CrustyError,
>
    decreases ops.len(),
{
    if ops.len() == 0 {
        Ok(Seq::empty())
    } else {
        let at = internal_ops(ops.drop_last()).len() as int;
        match finished::<F>(ops.drop_last(), state) {
            Err(e) => Err(e),
            Ok(out) => if ops.last() == AggOp::Avg {
                match F::over(state[at], state[at + 1]) {
                    Ok(q) => Ok(out.push(q)),
                    Err(e) => Err(e),
                }
            } else {
                Ok(out.push(state[at]))
            },
        }
    }
}

/// The first failure among the groups, in their order.
pub open spec fn output_failure<F: FieldValue>(
    ops: Seq<AggOp>,
    groups: Seq<(Seq<F::V>, Seq<F::V>)>,
) -> Option<CrustyError>
    decreases groups.len(),
{
    if groups.len() == 0 {
        None
    } else {
        match output_failure::<F>(ops, groups.drop_last()) {
            Some(e) => Some(e),
            None => match finished::<F>(ops, groups.last().1) {
                Ok(_) => None,
                Err(e) => Some(e),
            },
        }
    }
}

/// The output rows of the groups, in their order, up to the first group that fails: the group key
/// and then the values of `ops`.
pub open spec fn output_rows<F: FieldValue>(
    ops: Seq<AggOp>,
    groups: Seq<(Seq<F::V>, Seq<F::V>)>,
) -> Seq<Seq<F::V>>
    decreases groups.len(),
{
    if groups.len() == 0 {
        Seq::empty()
    } else {
        let before = output_rows::<F>(ops, groups.drop_last());
        if output_failure::<F>(ops, groups) is Some {
            before
        } else {
            before.push(groups.last().0 + finished::<F>(ops, groups.last().1)->Ok_0)
        }
    }
}

/// A row contributes one value to each internal function.
pub proof fn lemma_internal_len<F: FieldValue>(args: Seq<F::V>, ops: Seq<AggOp>)
    ensures
        internal_fields::<F>(args, ops).len() == internal_ops(ops).len(),
    decreases ops.len(),
{
    if ops.len() > 0 {
        lemma_internal_len::<F>(args, ops.drop_last());
    }
}

/// A failure among the first functions is the failure of all.
pub proof fn lemma_finished_prefix<F: FieldValue>(ops: Seq<AggOp>, state: Seq<F::V>, n: int)
    requires
        0 <= n <= ops.len(),
        finished::<F>(ops.take(n), state) is Err,
    ensures
        finished::<F>(ops, state) == finished::<F>(ops.take(n), state),
    decreases ops.len(),
{
    if n == ops.len() {
        assert(ops.take(n) =~= ops);
    } else {
        assert(ops.drop_last().take(n) =~= ops.take(n));
        lemma_finished_prefix::<F>(ops.drop_last(), state, n);
    }
}

/// A failure among the first groups is the failure of all, and ends the output.
pub proof fn lemma_output_prefix<F: FieldValue>(
    ops: Seq<AggOp>,
    groups: Seq<(Seq<F::V>, Seq<F::V>)>,
    n: int,
)
    requires
        0 <= n <= groups.len(),
        output_failure::<F>(ops, groups.take(n)) is Some,
    ensures
        output_failure::<F>(ops, groups) == output_failure::<F>(ops, groups.take(n)),
        output_rows::<F>(ops, groups) == output_rows::<F>(ops, groups.take(n)),
    decreases groups.len(),
{
    if n == groups.len() {
        assert(groups.take(n) =~= groups);
    } else {
        assert(groups.drop_last().take(n) =~= groups.take(n));
        lemma_output_prefix::<F>(ops, groups.drop_last(), n);
    }
}

/// The first functions keep their states in front.
pub proof fn lemma_internal_ops_prefix(ops: Seq<AggOp>, n: int)
    requires
        0 <= n <= ops.len(),
    ensures
        internal_ops(ops.take(n)).len() <= internal_ops(ops).len(),
        internal_ops(ops).take(internal_ops(ops.take(n)).len() as int) == internal_ops(
            ops.take(n),
        ),
    decreases ops.len(),
{
    if n == ops.len() {
        assert(ops.take(n) =~= ops);
        assert(internal_ops(ops).take(internal_ops(ops).len() as int) =~= internal_ops(ops));
    } else {
        assert(ops.drop_last().take(n) =~= ops.take(n));
        lemma_internal_ops_prefix(ops.drop_last(), n);
        let len = internal_ops(ops.take(n)).len() as int;
        assert(internal_ops(ops).take(len) =~= internal_ops(ops.drop_last()).take(len));
    }
}

/// A group-by aggregation: the expressions of the group key, and the aggregate functions with the
/// expressions of their arguments.
pub ghost struct Plan<E> {
    pub groupby: Seq<E>,
    pub agg: Seq<E>,
    pub ops: Seq<AggOp>,
}

impl<E> Plan<E> {
    /// Whether every expression has a value on this row.
    pub open spec fn defined<F: FieldValue>(self, row: Seq<F::V>) -> bool where E: Expr<F> {
        &&& forall|i: int| 0 <= i < self.groupby.len() ==> (#[trigger] self.groupby[i]).defined(row)
        &&& forall|i: int| 0 <= i < self.agg.len() ==> (#[trigger] self.agg[i]).defined(row)
    }

    /// The key of the group that a row belongs to.
    pub open spec fn key<F: FieldValue>(self, row: Seq<F::V>) -> Seq<F::V> where E: Expr<F> {
        self.groupby.map_values(|e: E| e.value(row))
    }

    /// The arguments that a row gives the aggregate functions.
    pub open spec fn args<F: FieldValue>(self, row: Seq<F::V>) -> Seq<F::V> where E: Expr<F> {
        self.agg.map_values(|e: E| e.value(row))
    }

    /// What a row contributes to the states of its group.
    pub open spec fn fields<F: FieldValue>(self, row: Seq<F::V>) -> Seq<F::V> where E: Expr<F> {
        internal_fields::<F>(self.args::<F>(row), self.ops)
    }

    /// Whether a row can be added to the groups.
    pub open spec fn absorbs<F: FieldValue>(
        self,
        groups: Map<Seq<F::V>, Seq<F::V>>,
        row: Seq<F::V>,
    ) -> bool where E: Expr<F> {
        &&& self.defined::<F>(row)
        &&& groups.contains_key(self.key::<F>(row)) ==> mergeable::<F>(
            internal_ops(self.ops),
            self.fields::<F>(row),
            groups[self.key::<F>(row)],
        )
    }

    /// The groups after one more row.
    pub open spec fn absorb<F: FieldValue>(
        self,
        groups: Map<Seq<F::V>, Seq<F::V>>,
        row: Seq<F::V>,
    ) -> Map<Seq<F::V>, Seq<F::V>> where E: Expr<F> {
        let key = self.key::<F>(row);
        let fields = self.fields::<F>(row);
        let ops = internal_ops(self.ops);
        groups.insert(
            key,
            if groups.contains_key(key) {
                merged_all::<F>(ops, fields, groups[key])
            } else {
                placed_all::<F>(ops, fields)
            },
        )
    }

    /// The groups of all the rows, taken in order.
    #[verifier::opaque]
    pub open spec fn groups<F: FieldValue>(self, rows: Seq<Seq<F::V>>) -> Map<
        Seq<F::V>,
        Seq<F::V>,
    > where E: Expr<F>
        decreases rows.len(),
    {
        if rows.len() == 0 {
            Map::empty()
        } else {
            self.absorb::<F>(self.groups::<F>(rows.drop_last()), rows.last())
        }
    }

    /// Whether each of the rows can be added to the groups of those before it.
    pub open spec fn absorbs_all<F: FieldValue>(self, rows: Seq<Seq<F::V>>) -> bool where
        E: Expr<F>,
     {
        forall|i: int|
            0 <= i < rows.len() ==> self.absorbs::<F>(
                self.groups::<F>(rows.take(i)),
                #[trigger] rows[i],
            )
    }

    /// No rows make no groups.
    pub proof fn lemma_no_groups<F: FieldValue>(self) where E: Expr<F>
        ensures
            self.groups::<F>(Seq::empty()) == Map::<Seq<F::V>, Seq<F::V>>::empty(),
    {
        reveal(Plan::groups);
    }

    /// The groups of the first `n + 1` rows come from those of the first `n`.
    pub proof fn lemma_groups_step<F: FieldValue>(self, rows: Seq<Seq<F::V>>, n: int) where
        E: Expr<F>,

        requires
            0 <= n < rows.len(),
        ensures
            self.groups::<F>(rows.take(n + 1)) == self.absorb::<F>(
                self.groups::<F>(rows.take(n)),
                rows[n],
            ),
    {
        reveal(Plan::groups);
        assert(rows.take(n + 1).drop_last() =~= rows.take(n));
    }
}

} // verus!
