# duck-hash-join

A verified library for hash joins on an `i32` key: rows lie in one arena, a pointer
table of salted entries leads to chains of rows, and the rows are filed partition by
partition.

- `src/` is the library. Every function states in its contract what it computes;
  Verus proves it. What holds of several functions together is stated by the proof
  functions whose names begin with `law_`.
- `tests/` runs the library on concrete values.
- `app/` is a program around the library: it reads parquet files, hands their
  columns to the library and prints timings. Its first argument picks the benchmark:
  `inner_join_bench`, `chain_bench`, `rg_check` or `datafusion_bench`.

Row addresses are logical: row `i` of an arena has the address `ARENA_BASE` plus `i`
times the row width, which fits the 48 bits that an entry has for it. Fields are
little-endian. Floating-point columns are carried as bit patterns.

The library trusts four outside functions: `map` with `collect` and `reduce` of
rayon's parallel iterators, `rayon::current_num_threads`, and `Arc::clone`. The
wrappers around them say what is claimed of each.
