# join_lasso

Two operations on columnar data, written in Verus and proved down to the calls into polars:

- `join_many_sorted` joins several frames, each sorted by the same key columns, into one: a full
  outer join with every combination of the rows that share a key, in the order of the key columns.
  `columns_are_ready` and `try_join_many_sorted` are for frames of which it is not known that every
  column can be read.
- `ewm_lasso` runs a lasso regression over exponentially weighted rows and gives the coefficients
  after each row.

`src/` is the library. Its contracts speak of sequences of cells and of the mathematical state of
the regression; the modules that end in `_laws` prove what holds of every join and every run.
Frames, series and row encodings are polars' own, and the few calls that reach them are in
`frames`, `names` and `row_keys`, each with the contract that the proofs rest on: among these, that
the encoded keys of two rows compare as their cells do.

`app/` puts the library on arrow arrays, series and the steps of an engine, and supplies the
floating point numbers. The laws on what the regression minimises, and on how it follows the scale
of its columns, are about numbers that are not rounded. `tests/` runs both operations on real frames
and on concrete numbers.
