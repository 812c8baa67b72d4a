use crustydb::aggregate::Aggregate;
use crustydb::datatypes::{Field, FieldModel};
use crustydb::error::CrustyError;
use crustydb::expr::{colidx_expr, ColumnExpr};
use crustydb::operator::{OpIterator, Run, TupleIterator};
use crustydb::plan::AggOp;
use crustydb::tuple::{Attribute, TableSchema, Tuple};
use std::cell::RefCell;
use std::rc::Rc;

fn f_int(n: i64) -> Field {
    Field::Int(n)
}

fn f_decimal(value: f64) -> Field {
    let whole = value.trunc();
    let fraction = ((value - whole) * 10_000.0).round();
    Field::Decimal(whole as i128 * 10_000 + fraction as i128)
}

fn f_str(s: &str) -> Field {
    Field::String(s.to_string())
}

fn test_tuples() -> Vec<Tuple<Field>> {
    vec![
        Tuple::new(vec![f_int(1), f_int(1), f_int(3), f_str("E")]),
        Tuple::new(vec![f_int(2), f_int(1), f_int(3), f_str("G")]),
        Tuple::new(vec![f_int(3), f_int(1), f_int(4), f_str("A")]),
        Tuple::new(vec![f_int(4), f_int(2), f_int(4), f_str("G")]),
        Tuple::new(vec![f_int(5), f_int(2), f_int(5), f_str("G")]),
        Tuple::new(vec![f_int(6), f_int(2), f_int(5), f_str("G")]),
    ]
}

fn over(
    tuples: Vec<Tuple<Field>>,
    groupby_expr: Vec<ColumnExpr>,
    agg_expr: Vec<ColumnExpr>,
    ops: Vec<AggOp>,
) -> Aggregate<Field, ColumnExpr> {
    Aggregate::new(
        groupby_expr,
        agg_expr,
        ops,
        TableSchema::new(vec![]),
        Box::new(TupleIterator::new(tuples, TableSchema::new(vec![]))),
    )
}

fn get_iter(
    groupby_expr: Vec<ColumnExpr>,
    agg_expr: Vec<ColumnExpr>,
    ops: Vec<AggOp>,
) -> Box<dyn OpIterator<Field>> {
    let mut iter = Box::new(over(test_tuples(), groupby_expr, agg_expr, ops));
    iter.configure(false);
    iter
}

fn execute_iter(iter: &mut dyn OpIterator<Field>) -> Result<Vec<Tuple<Field>>, CrustyError> {
    iter.open()?;
    let mut tuples = Vec::new();
    while let Some(tuple) = iter.next()? {
        tuples.push(tuple);
    }
    Ok(tuples)
}

fn run_aggregate(
    groupby_expr: Vec<ColumnExpr>,
    agg_expr: Vec<ColumnExpr>,
    ops: Vec<AggOp>,
) -> Vec<Tuple<Field>> {
    let mut iter = get_iter(groupby_expr, agg_expr, ops);
    execute_iter(&mut *iter).unwrap()
}

#[test]
fn test_empty_group() {
    let group_by = vec![];
    let agg = vec![colidx_expr(0), colidx_expr(1), colidx_expr(2)];
    let ops = vec![AggOp::Count, AggOp::Max, AggOp::Avg];
    let t = run_aggregate(group_by, agg, ops);
    assert_eq!(t.len(), 1);
    assert_eq!(t[0], Tuple::new(vec![f_int(6), f_int(2), f_decimal(4.0)]));
}

#[test]
fn test_empty_aggregation() {
    let group_by = vec![colidx_expr(2)];
    let agg = vec![];
    let ops = vec![];
    let t = run_aggregate(group_by, agg, ops);
    assert_eq!(t.len(), 3);
    assert_eq!(t[0], Tuple::new(vec![f_int(3)]));
    assert_eq!(t[1], Tuple::new(vec![f_int(4)]));
    assert_eq!(t[2], Tuple::new(vec![f_int(5)]));
}

#[test]
fn test_count() {
    let group_by = vec![colidx_expr(1), colidx_expr(2)];
    let agg = vec![colidx_expr(0)];
    let ops = vec![AggOp::Count];
    let t = run_aggregate(group_by, agg, ops);
    assert_eq!(t.len(), 4);
    assert_eq!(t[0], Tuple::new(vec![f_int(1), f_int(3), f_int(2)]));
    assert_eq!(t[1], Tuple::new(vec![f_int(1), f_int(4), f_int(1)]));
    assert_eq!(t[2], Tuple::new(vec![f_int(2), f_int(4), f_int(1)]));
    assert_eq!(t[3], Tuple::new(vec![f_int(2), f_int(5), f_int(2)]));
}

#[test]
fn test_sum() {
    let group_by = vec![colidx_expr(1), colidx_expr(2)];
    let agg = vec![colidx_expr(0)];
    let ops = vec![AggOp::Sum];
    let tuples = run_aggregate(group_by, agg, ops);
    assert_eq!(tuples.len(), 4);
    assert_eq!(tuples[0], Tuple::new(vec![f_int(1), f_int(3), f_int(3)]));
    assert_eq!(tuples[1], Tuple::new(vec![f_int(1), f_int(4), f_int(3)]));
    assert_eq!(tuples[2], Tuple::new(vec![f_int(2), f_int(4), f_int(4)]));
    assert_eq!(tuples[3], Tuple::new(vec![f_int(2), f_int(5), f_int(11)]));
}

#[test]
fn test_max() {
    let group_by = vec![colidx_expr(1), colidx_expr(2)];
    let agg = vec![colidx_expr(3)];
    let ops = vec![AggOp::Max];
    let t = run_aggregate(group_by, agg, ops);
    assert_eq!(t.len(), 4);
    assert_eq!(t[0], Tuple::new(vec![f_int(1), f_int(3), f_str("G")]));
    assert_eq!(t[1], Tuple::new(vec![f_int(1), f_int(4), f_str("A")]));
    assert_eq!(t[2], Tuple::new(vec![f_int(2), f_int(4), f_str("G")]));
    assert_eq!(t[3], Tuple::new(vec![f_int(2), f_int(5), f_str("G")]));
}

#[test]
fn test_min() {
    let group_by = vec![colidx_expr(1), colidx_expr(2)];
    let agg = vec![colidx_expr(3)];
    let ops = vec![AggOp::Min];
    let t = run_aggregate(group_by, agg, ops);
    assert!(t.len() == 4);
    assert_eq!(t[0], Tuple::new(vec![f_int(1), f_int(3), f_str("E")]));
    assert_eq!(t[1], Tuple::new(vec![f_int(1), f_int(4), f_str("A")]));
    assert_eq!(t[2], Tuple::new(vec![f_int(2), f_int(4), f_str("G")]));
    assert_eq!(t[3], Tuple::new(vec![f_int(2), f_int(5), f_str("G")]));
}

#[test]
fn test_avg() {
    let group_by = vec![colidx_expr(1), colidx_expr(2)];
    let agg = vec![colidx_expr(0)];
    let ops = vec![AggOp::Avg];
    let t = run_aggregate(group_by, agg, ops);
    assert_eq!(t.len(), 4);
    assert_eq!(t[0], Tuple::new(vec![f_int(1), f_int(3), f_decimal(1.5)]));
    assert_eq!(t[1], Tuple::new(vec![f_int(1), f_int(4), f_decimal(3.0)]));
    assert_eq!(t[2], Tuple::new(vec![f_int(2), f_int(4), f_decimal(4.0)]));
    assert_eq!(t[3], Tuple::new(vec![f_int(2), f_int(5), f_decimal(5.5)]));
}

#[test]
fn test_multi_column_aggregation() {
    let group_by = vec![colidx_expr(3)];
    let agg = vec![colidx_expr(0), colidx_expr(1), colidx_expr(2)];
    let ops = vec![AggOp::Count, AggOp::Max, AggOp::Avg];
    let t = run_aggregate(group_by, agg, ops);
    assert_eq!(t.len(), 3);
    assert_eq!(
        t[0],
        Tuple::new(vec![f_str("A"), f_int(1), f_int(1), f_decimal(4.0)])
    );
    assert_eq!(
        t[1],
        Tuple::new(vec![f_str("E"), f_int(1), f_int(1), f_decimal(3.0)])
    );
    assert_eq!(
        t[2],
        Tuple::new(vec![f_str("G"), f_int(4), f_int(2), f_decimal(4.25)])
    );
}

#[test]
#[should_panic]
fn test_merge_tuples_not_int() {
    let group_by = vec![];
    let agg = vec![colidx_expr(3)];
    let ops = vec![AggOp::Avg];
    let _ = run_aggregate(group_by, agg, ops);
}

#[test]
#[should_panic]
fn test_next_not_open() {
    let mut iter = get_iter(vec![], vec![], vec![]);
    let _ = iter.next();
}

#[test]
#[should_panic]
fn test_rewind_not_open() {
    let mut iter = get_iter(vec![], vec![], vec![]);
    let _ = iter.rewind();
}

#[test]
fn test_open() {
    let mut iter = get_iter(vec![], vec![], vec![]);
    iter.open().unwrap();
}

#[test]
fn test_close() {
    let mut iter = get_iter(vec![], vec![], vec![]);
    iter.open().unwrap();
    iter.close().unwrap();
}

#[test]
fn test_rewind() {
    let mut iter = get_iter(vec![colidx_expr(2)], vec![colidx_expr(0)], vec![AggOp::Max]);
    iter.configure(true);
    let t_before = execute_iter(&mut *iter).unwrap();
    iter.rewind().unwrap();
    let t_after = execute_iter(&mut *iter).unwrap();
    assert_eq!(t_before, t_after);
}

#[test]
fn no_rows_make_no_groups() {
    let mut iter = over(vec![], vec![], vec![colidx_expr(0)], vec![AggOp::Count]);
    assert_eq!(execute_iter(&mut iter).unwrap(), vec![]);
}

#[test]
fn order_of_rows_does_not_matter_without_sums() {
    let build = |reverse: bool| {
        let mut tuples = test_tuples();
        if reverse {
            tuples.reverse();
        }
        let mut iter = over(
            tuples,
            vec![colidx_expr(3)],
            vec![colidx_expr(0), colidx_expr(0), colidx_expr(0)],
            vec![AggOp::Count, AggOp::Max, AggOp::Min],
        );
        execute_iter(&mut iter).unwrap()
    };
    assert_eq!(build(false), build(true));
    assert_eq!(
        build(true)[2],
        Tuple::new(vec![f_str("G"), f_int(4), f_int(6), f_int(2)])
    );
}

#[test]
fn group_sizes_add_up() {
    let t = run_aggregate(vec![colidx_expr(2)], vec![colidx_expr(0)], vec![AggOp::Count]);
    assert_eq!(
        t,
        vec![
            Tuple::new(vec![f_int(3), f_int(2)]),
            Tuple::new(vec![f_int(4), f_int(2)]),
            Tuple::new(vec![f_int(5), f_int(2)]),
        ]
    );
}

#[test]
fn mixed_keys_come_out_in_order() {
    let tuples = vec![
        Tuple::new(vec![f_str("b")]),
        Tuple::new(vec![f_int(7)]),
        Tuple::new(vec![f_decimal(0.5)]),
        Tuple::new(vec![f_str("ab")]),
        Tuple::new(vec![f_int(-7)]),
        Tuple::new(vec![f_str("a")]),
        Tuple::new(vec![f_int(7)]),
    ];
    let mut iter = over(tuples, vec![colidx_expr(0)], vec![colidx_expr(0)], vec![AggOp::Count]);
    assert_eq!(
        execute_iter(&mut iter).unwrap(),
        vec![
            Tuple::new(vec![f_int(-7), f_int(1)]),
            Tuple::new(vec![f_int(7), f_int(2)]),
            Tuple::new(vec![f_decimal(0.5), f_int(1)]),
            Tuple::new(vec![f_str("a"), f_int(1)]),
            Tuple::new(vec![f_str("ab"), f_int(1)]),
            Tuple::new(vec![f_str("b"), f_int(1)]),
        ]
    );
}

#[test]
fn average_rounds_towards_zero() {
    let tuples = vec![
        Tuple::new(vec![f_int(-1)]),
        Tuple::new(vec![f_int(-1)]),
        Tuple::new(vec![f_int(0)]),
    ];
    let mut iter = over(tuples, vec![], vec![colidx_expr(0)], vec![AggOp::Avg]);
    assert_eq!(
        execute_iter(&mut iter).unwrap(),
        vec![Tuple::new(vec![Field::Decimal(-6666)])]
    );
}

#[test]
fn average_of_decimals() {
    let tuples = vec![
        Tuple::new(vec![f_decimal(1.25)]),
        Tuple::new(vec![f_decimal(2.5)]),
    ];
    let mut iter = over(
        tuples,
        vec![],
        vec![colidx_expr(0), colidx_expr(0)],
        vec![AggOp::Avg, AggOp::Sum],
    );
    assert_eq!(
        execute_iter(&mut iter).unwrap(),
        vec![Tuple::new(vec![f_decimal(1.875), f_decimal(3.75)])]
    );
}

#[test]
fn average_of_a_single_string_fails_on_open() {
    let tuples = vec![
        Tuple::new(vec![f_int(1), f_int(10)]),
        Tuple::new(vec![f_int(2), f_str("x")]),
        Tuple::new(vec![f_int(3), f_int(30)]),
    ];
    let mut iter = over(tuples, vec![colidx_expr(0)], vec![colidx_expr(1)], vec![AggOp::Avg]);
    assert_eq!(iter.open(), Err(CrustyError::TypeMismatch));
    // The group before the one that failed stays in the results.
    assert_eq!(
        iter.next(),
        Ok(Some(Tuple::new(vec![f_int(1), f_decimal(10.0)])))
    );
    assert_eq!(iter.next(), Ok(None));
}

#[test]
fn next_stays_at_the_end() {
    let mut iter = over(test_tuples(), vec![], vec![colidx_expr(0)], vec![AggOp::Sum]);
    iter.open().unwrap();
    assert_eq!(iter.next(), Ok(Some(Tuple::new(vec![f_int(21)]))));
    assert_eq!(iter.next(), Ok(None));
    assert_eq!(iter.next(), Ok(None));
}

#[test]
fn opening_twice_changes_nothing() {
    let mut iter = over(
        test_tuples(),
        vec![colidx_expr(2)],
        vec![colidx_expr(0)],
        vec![AggOp::Count],
    );
    iter.open().unwrap();
    iter.next().unwrap();
    iter.open().unwrap();
    assert_eq!(
        iter.next(),
        Ok(Some(Tuple::new(vec![f_int(4), f_int(2)])))
    );
}

#[test]
fn reopening_after_close_starts_over() {
    let mut iter = over(
        test_tuples(),
        vec![colidx_expr(1)],
        vec![colidx_expr(0)],
        vec![AggOp::Sum],
    );
    let first = execute_iter(&mut iter).unwrap();
    iter.close().unwrap();
    let second = execute_iter(&mut iter).unwrap();
    assert_eq!(first, second);
    assert_eq!(
        second,
        vec![
            Tuple::new(vec![f_int(1), f_int(6)]),
            Tuple::new(vec![f_int(2), f_int(15)]),
        ]
    );
}

#[test]
fn averaged_integers_go_through_doubles() {
    let n: i64 = 9_007_199_254_740_993;
    let mut iter = over(
        vec![Tuple::new(vec![f_int(n)]), Tuple::new(vec![f_int(n)])],
        vec![],
        vec![colidx_expr(0), colidx_expr(0)],
        vec![AggOp::Avg, AggOp::Max],
    );
    assert_eq!(
        execute_iter(&mut iter).unwrap(),
        vec![Tuple::new(vec![f_decimal(n as f64), f_int(n)])]
    );
}

#[test]
fn merging_tuples_after_open_leaves_the_results() {
    let mut iter = over(
        test_tuples(),
        vec![colidx_expr(1)],
        vec![colidx_expr(0)],
        vec![AggOp::Avg],
    );
    iter.open().unwrap();
    iter.merge_tuple_into_group(&test_tuples()[0]);
    iter.merge_tuple_into_group(&test_tuples()[1]);
    assert_eq!(
        iter.next(),
        Ok(Some(Tuple::new(vec![f_int(1), f_decimal(2.0)])))
    );
}

#[test]
fn aggregates_nest() {
    let inner = over(
        test_tuples(),
        vec![colidx_expr(3)],
        vec![colidx_expr(0)],
        vec![AggOp::Count],
    );
    let mut outer: Aggregate<Field, ColumnExpr> = Aggregate::new(
        vec![],
        vec![colidx_expr(1), colidx_expr(1)],
        vec![AggOp::Max, AggOp::Sum],
        TableSchema::new(vec![]),
        Box::new(inner),
    );
    assert_eq!(
        execute_iter(&mut outer).unwrap(),
        vec![Tuple::new(vec![f_int(4), f_int(6)])]
    );
}

#[test]
fn schema_is_handed_back() {
    let schema = TableSchema::new(vec![Attribute {
        name: "n".to_string(),
    }]);
    let child: TupleIterator<Field> = TupleIterator::new(vec![], TableSchema::new(vec![]));
    let iter: Aggregate<Field, ColumnExpr> =
        Aggregate::new(vec![], vec![], vec![], schema, Box::new(child));
    assert_eq!(iter.get_schema().attributes[0].name, "n");
}

/// A child that hands out one tuple, fails where it is told to, and notes the calls made of it.
struct Faulty {
    calls: Rc<RefCell<Vec<&'static str>>>,
    handed_out: bool,
    open_error: bool,
    next_error: bool,
    close_error: bool,
    schema: TableSchema,
}

fn faulty(open_error: bool, next_error: bool, close_error: bool) -> Aggregate<Field, ColumnExpr> {
    watched(open_error, next_error, close_error).0
}

/// The operator over such a child, and the calls made of the child.
fn watched(
    open_error: bool,
    next_error: bool,
    close_error: bool,
) -> (
    Aggregate<Field, ColumnExpr>,
    Rc<RefCell<Vec<&'static str>>>,
) {
    let calls = Rc::new(RefCell::new(vec![]));
    let iter = Aggregate::new(
        vec![],
        vec![colidx_expr(0)],
        vec![AggOp::Count],
        TableSchema::new(vec![]),
        Box::new(Faulty {
            calls: calls.clone(),
            handed_out: false,
            open_error,
            next_error,
            close_error,
            schema: TableSchema::new(vec![]),
        }),
    );
    (iter, calls)
}

impl OpIterator<Field> for Faulty {
    // The functions of the model have no executable meaning.
    fn inv(&self) -> bool {
        unreachable!()
    }

    fn is_open(&self) -> bool {
        unreachable!()
    }

    fn run(&self) -> Run<FieldModel> {
        unreachable!()
    }

    fn fresh_run(&self) -> Run<FieldModel> {
        unreachable!()
    }

    fn close_failure(&self) -> Option<CrustyError> {
        unreachable!()
    }

    fn schema(&self) -> TableSchema {
        unreachable!()
    }

    fn expects_rewind(&self) -> bool {
        unreachable!()
    }

    fn configure(&mut self, will_rewind: bool) {
        assert!(!will_rewind);
        self.calls.borrow_mut().push("configure");
    }

    fn open(&mut self) -> Result<(), CrustyError> {
        self.calls.borrow_mut().push("open");
        if self.open_error {
            Err(CrustyError::IOError("open".to_string()))
        } else {
            Ok(())
        }
    }

    fn next(&mut self) -> Result<Option<Tuple<Field>>, CrustyError> {
        self.calls.borrow_mut().push("next");
        if !self.handed_out {
            self.handed_out = true;
            Ok(Some(Tuple::new(vec![f_int(1)])))
        } else if self.next_error {
            Err(CrustyError::ExecutionError("next".to_string()))
        } else {
            Ok(None)
        }
    }

    fn close(&mut self) -> Result<(), CrustyError> {
        self.calls.borrow_mut().push("close");
        if self.close_error {
            Err(CrustyError::IOError("close".to_string()))
        } else {
            Ok(())
        }
    }

    fn rewind(&mut self) -> Result<(), CrustyError> {
        self.calls.borrow_mut().push("rewind");
        Ok(())
    }

    fn get_schema(&self) -> &TableSchema {
        &self.schema
    }
}

#[test]
fn child_is_never_told_to_expect_a_rewind() {
    faulty(false, false, false).configure(true);
}

#[test]
fn failing_to_open_the_child_fails() {
    let mut iter = faulty(true, false, false);
    assert_eq!(iter.open(), Err(CrustyError::IOError("open".to_string())));
}

#[test]
fn failing_child_leaves_no_results() {
    let mut iter = faulty(false, true, false);
    assert_eq!(
        iter.open(),
        Err(CrustyError::ExecutionError("next".to_string()))
    );
    assert_eq!(iter.next(), Ok(None));
}

#[test]
fn failing_to_close_the_child_keeps_the_results() {
    let mut iter = faulty(false, false, true);
    iter.open().unwrap();
    assert_eq!(iter.close(), Err(CrustyError::IOError("close".to_string())));
    assert_eq!(iter.next(), Ok(Some(Tuple::new(vec![f_int(1)]))));
}

#[test]
fn each_call_makes_its_own_calls_of_the_child() {
    let (mut iter, calls) = watched(false, false, false);
    iter.configure(true);
    assert_eq!(calls.take(), vec!["configure"]);
    iter.open().unwrap();
    assert_eq!(calls.take(), vec!["open", "next", "next"]);
    iter.open().unwrap();
    iter.next().unwrap();
    iter.rewind().unwrap();
    assert!(calls.take().is_empty());
    iter.close().unwrap();
    assert_eq!(calls.take(), vec!["close"]);
    iter.close().unwrap();
    assert_eq!(calls.take(), vec!["close"]);
}

#[test]
fn opening_again_after_a_failed_read_leaves_the_child_alone() {
    let (mut iter, calls) = watched(false, true, false);
    assert_eq!(
        iter.open(),
        Err(CrustyError::ExecutionError("next".to_string()))
    );
    assert_eq!(calls.take(), vec!["open", "next", "next"]);
    assert_eq!(iter.open(), Ok(()));
    assert_eq!(iter.next(), Ok(None));
    assert!(calls.take().is_empty());
}
