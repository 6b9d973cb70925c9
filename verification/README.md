# fer_model

A model of the forced eviction rate of a lease-based cache, with its integer
logic verified by Verus.

- `src/` — the verified library:
  - `lease` — how reuse intervals and leases decide each access's tenancy, and
    the tenancy histogram;
  - `histogram` — totals of a `(tenancy, count)` histogram and the physical cache
    size (the rounded-up mean tenancy);
  - `vcsd` — the binomial stages of the virtual-cache-size distribution and the
    over-allocation of a virtual cache size;
  - `records` — the csv tables: rows read and written through the csv crate,
    and the fields of each table;
  - `parse` — integer fields, and decimal text of integers;
  - `table` — tables keyed by reference or tenancy, where later records win.
- `app/` — the command line (`model`, `td-generator`): reading and writing
  files and standard streams, and the `f64` probability computations (binomial terms, convolutions, the
  Markov chain).
- `tests/` — tests of the library on concrete values.
