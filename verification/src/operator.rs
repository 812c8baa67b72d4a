//! Query operators.

use crate::error::CrustyError;
use crate::field::FieldValue;
use crate::tuple::{TableSchema, Tuple};
use vstd::pervasive::unreached;
use vstd::prelude::*;

verus! {

/// What opening an operator leads to.
pub ghost struct Run<V> {
    /// Whether `open` may be called.
    pub allowed: bool,
    /// Why opening fails, where it does.
    pub failure: Option<CrustyError>,
    /// Every row of the run, those already handed out among them.
    pub rows: Seq<Seq<V>>,
    /// How many of the rows have been handed out.
    pub cursor: nat,
    /// What comes after the last row: the end of the run, or an error.
    pub ending: Option<CrustyError>,
}

impl<V> Run<V> {
    /// The rows that have not been handed out.
    pub open spec fn rest(self) -> Seq<Seq<V>> {
        if self.cursor <= self.rows.len() {
            self.rows.skip(self.cursor as int)
        } else {
            Seq::empty()
        }
    }

    /// The run after `n` more rows have been handed out.
    pub open spec fn advanced(self, n: nat) -> Run<V> {
        Run { cursor: self.cursor + n, ..self }
    }

    /// The run from its first row on.
    pub open spec fn rewound(self) -> Run<V> {
        Run { cursor: 0, ..self }
    }

    /// The rows that have not been handed out come one after the other, each once, and then the
    /// run ends.
    pub proof fn law_rest(self, n: nat)
        requires
            self.cursor <= self.rows.len(),
        ensures
            n < self.rest().len() ==> {
                &&& self.advanced(n).cursor < self.rows.len()
                &&& self.rows[self.advanced(n).cursor as int] == self.rest()[n as int]
            },
            n == self.rest().len() ==> self.advanced(n).cursor == self.rows.len(),
    {
    }

    /// However many rows have been handed out, a rewound run hands out all of them again; where
    /// none had been handed out before, the same rows once more.
    pub proof fn law_rewind(self, n: nat)
        ensures
            self.advanced(n).rewound().rest() == self.rows,
            self.cursor == 0 ==> self.advanced(n).rewound().rest() == self.rest(),
    {
        assert(self.rows.skip(0) =~= self.rows);
    }
}

/// The result that reports `failure`, or success where there is none.
pub open spec fn reported(failure: Option<CrustyError>) -> Result<(), CrustyError> {
    match failure {
        None => Ok(()),
        Some(e) => Err(e),
    }
}

/// A query operator: it hands out tuples, one at a time, between `open` and `close`.
///
/// An operator's behaviour is stated by two runs. `run` is what `open` leads to from the
/// operator's present state; of an open operator it is the run under way, which opening once more
/// leaves alone. `fresh_run` is what `open` leads to once the operator has been closed.
pub trait OpIterator<F: FieldValue> {
    /// The operator's invariant.
    spec fn inv(&self) -> bool;

    spec fn is_open(&self) -> bool;

    spec fn run(&self) -> Run<F::V>;

    spec fn fresh_run(&self) -> Run<F::V>;

    /// Why closing fails, where it does.
    spec fn close_failure(&self) -> Option<CrustyError>;

    spec fn schema(&self) -> TableSchema;

    /// Whether the operator has been told that it will be rewound. Only `configure` changes that.
    spec fn expects_rewind(&self) -> bool;

    /// Tells the operator whether it will be rewound.
    fn configure(&mut self, will_rewind: bool)
        requires
            old(self).inv(),
        ensures
            final(self).inv(),
            final(self).is_open() == old(self).is_open(),
            final(self).run() == old(self).run(),
            final(self).fresh_run() == old(self).fresh_run(),
            final(self).close_failure() == old(self).close_failure(),
            final(self).schema() == old(self).schema(),
            final(self).expects_rewind() == will_rewind,
    ;

    /// Opens the operator. Opening an open operator changes nothing.
    fn open(&mut self) -> (r: Result<(), CrustyError>)
        requires
            old(self).inv(),
            old(self).run().allowed,
        ensures
            final(self).inv(),
            final(self).schema() == old(self).schema(),
            final(self).expects_rewind() == old(self).expects_rewind(),
            r == reported(old(self).run().failure),
            r is Ok ==> {
                &&& final(self).is_open()
                &&& final(self).run() == old(self).run()
                &&& final(self).fresh_run() == old(self).fresh_run()
                &&& final(self).close_failure() == old(self).close_failure()
            },
    ;

    /// Hands out the next tuple, or none at the end of the run.
    fn next(&mut self) -> (r: Result<Option<Tuple<F>>, CrustyError>)
        requires
            old(self).inv(),
            old(self).is_open(),
        ensures
            final(self).inv(),
            final(self).schema() == old(self).schema(),
            final(self).expects_rewind() == old(self).expects_rewind(),
            ({
                let run = old(self).run();
                if run.cursor < run.rows.len() {
                    &&& r matches Ok(Some(tuple))
                    &&& tuple@ == run.rows[run.cursor as int]
                    &&& final(self).run() == run.advanced(1)
                } else {
                    match run.ending {
                        Some(e) => r == Err::<Option<Tuple<F>>, CrustyError>(e),
                        None => r == Ok::<Option<Tuple<F>>, CrustyError>(None) && final(self).run()
                            == run,
                    }
                }
            }),
            final(self).is_open(),
            final(self).fresh_run() == old(self).fresh_run(),
            final(self).close_failure() == old(self).close_failure(),
    ;

    /// Closes the operator.
    fn close(&mut self) -> (r: Result<(), CrustyError>)
        requires
            old(self).inv(),
        ensures
            final(self).inv(),
            final(self).schema() == old(self).schema(),
            final(self).expects_rewind() == old(self).expects_rewind(),
            r == reported(old(self).close_failure()),
            r is Ok ==> {
                &&& !final(self).is_open()
                &&& final(self).run() == old(self).fresh_run()
                &&& final(self).fresh_run() == old(self).fresh_run()
                &&& final(self).close_failure() == old(self).close_failure()
            },
    ;

    /// Goes back to the first tuple of the run.
    fn rewind(&mut self) -> (r: Result<(), CrustyError>)
        requires
            old(self).inv(),
            old(self).is_open(),
        ensures
            final(self).inv(),
            final(self).schema() == old(self).schema(),
            final(self).expects_rewind() == old(self).expects_rewind(),
            r is Ok ==> {
                &&& final(self).is_open()
                &&& final(self).run() == old(self).run().rewound()
                &&& final(self).fresh_run() == old(self).fresh_run()
                &&& final(self).close_failure() == old(self).close_failure()
            },
    ;

    /// The schema of the tuples.
    fn get_schema(&self) -> (r: &TableSchema)
        ensures
            *r == self.schema(),
    ;
}

/// The operator that hands out a list of tuples.
#[verifier::reject_recursive_types(F)]
pub struct TupleIterator<F: FieldValue> {
    tuples: Vec<Tuple<F>>,
    schema: TableSchema,
    will_rewind: bool,
    open: bool,
    index: usize,
}

/// The values of a vector of tuples, in order.
pub open spec fn rows<F: View>(tuples: Seq<Tuple<F>>) -> Seq<Seq<F::V>> {
    tuples.map_values(|t: Tuple<F>| t@)
}

/// The rows of a vector with one more tuple.
pub proof fn lemma_rows_push<F: View>(tuples: Seq<Tuple<F>>, t: Tuple<F>)
    ensures
        rows(tuples.push(t)) == rows(tuples).push(t@),
{
    assert(rows(tuples.push(t)) =~= rows(tuples).push(t@));
}

/// The run over a list of rows of which `cursor` have been handed out.
pub open spec fn run_over<V>(rows: Seq<Seq<V>>, cursor: nat) -> Run<V> {
    Run { allowed: true, failure: None, rows, cursor, ending: None }
}

impl<F: FieldValue> TupleIterator<F> {
    /// The rows that the operator hands out.
    pub closed spec fn rows(&self) -> Seq<Seq<F::V>> {
        rows(self.tuples@)
    }

    /// How many rows it has handed out.
    pub closed spec fn position(&self) -> nat {
        self.index as nat
    }

    pub fn new(tuples: Vec<Tuple<F>>, schema: TableSchema) -> (r: Self)
        ensures
            r.inv(),
            !r.is_open(),
            !r.expects_rewind(),
            r.rows() == rows(tuples@),
            r.schema() == schema,
    {
        TupleIterator { tuples, schema, will_rewind: false, open: false, index: 0 }
    }
}

impl<F: FieldValue> OpIterator<F> for TupleIterator<F> {
    closed spec fn inv(&self) -> bool {
        self.index <= self.tuples.len()
    }

    closed spec fn is_open(&self) -> bool {
        self.open
    }

    open spec fn run(&self) -> Run<F::V> {
        run_over(
            self.rows(),
            if self.is_open() {
                self.position()
            } else {
                0
            },
        )
    }

    open spec fn fresh_run(&self) -> Run<F::V> {
        run_over(self.rows(), 0)
    }

    open spec fn close_failure(&self) -> Option<CrustyError> {
        None
    }

    closed spec fn schema(&self) -> TableSchema {
        self.schema
    }

    closed spec fn expects_rewind(&self) -> bool {
        self.will_rewind
    }

    fn configure(&mut self, will_rewind: bool) {
        self.will_rewind = will_rewind;
    }

    fn open(&mut self) -> (r: Result<(), CrustyError>) {
        if !self.open {
            self.open = true;
            self.index = 0;
        }
        Ok(())
    }

    fn next(&mut self) -> (r: Result<Option<Tuple<F>>, CrustyError>) {
        if !self.open {
            unreached::<()>();
        }
        if self.index < self.tuples.len() {
            let tuple = self.tuples[self.index].duplicate();
            self.index = self.index + 1;
            Ok(Some(tuple))
        } else {
            Ok(None)
        }
    }

    fn close(&mut self) -> (r: Result<(), CrustyError>) {
        self.open = false;
        self.index = 0;
        Ok(())
    }

    fn rewind(&mut self) -> (r: Result<(), CrustyError>)
        ensures
            r is Ok,
    {
        if !self.open {
            unreached::<()>();
        }
        self.index = 0;
        Ok(())
    }

    fn get_schema(&self) -> (r: &TableSchema) {
        &self.schema
    }
}

} // verus!
