# crustydb

Two pieces of a small relational engine, verified with Verus:

- the group-by aggregate operator (`src/aggregate.rs`), which groups the tuples of a child operator
  and hands out one tuple per group, in ascending order of the group keys;
- the scan over the records of a heap file (`src/heapfileiter.rs`), a state machine that says which
  page to read next.

The operator's contract states, for every child, what `open`, `next`, `rewind` and `close` do. The
modules `aggregate_laws`, `permutation_laws`, `integer_laws` and `scan_laws` state what comes out in
terms of the rows and the file alone, and prove it.

Nothing in `src/` is trusted without proof. `app/` reads the pages that a scan asks for and offers
the records as an ordinary iterator; `tests/` runs the library.
