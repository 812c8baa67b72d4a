//! Verified pieces of a small relational engine: a group-by aggregate operator, and the scan over
//! the records of a heap file.
//!
//! The aggregate operator (`aggregate`) reads tuples from a child operator (`operator`), keeps the
//! state of each group in a table ordered by group key (`group_table`), and hands out one tuple per
//! group. It works over any field type with integers, an addition, a division and a total order
//! (`field`); `datatypes` has the engine's own. What it computes is defined in `plan` and, in terms
//! of the rows alone, in the `*_laws` modules.
//!
//! The scan (`heapfileiter`) is a state machine that says which page to read next; `scan_laws`
//! states what it hands out of a file.

pub mod aggregate;
pub mod aggregate_laws;
pub mod datatypes;
pub mod double;
pub mod error;
pub mod expr;
pub mod field;
pub mod field_laws;
pub mod group_table;
pub mod heap_page;
pub mod heapfileiter;
pub mod ids;
pub mod integer_laws;
pub mod operator;
pub mod order;
pub mod permutation_laws;
pub mod plan;
pub mod plan_laws;
pub mod run_laws;
pub mod scan_laws;
pub mod tuple;
