# morsel_engine

An analytical query engine, verified with Verus. It has three parts.

* The executor (`kernel`, `plan`, `morsel`, `dispatcher`, `pipeline`,
  `scheduler`, `adaptive`, `eddy`): plans are lowered to kernel runs, cells are
  cut into morsels, and operators are routed by what they let pass.
* The SQL front end (`sql`): tokens, parser, expressions, masks, joins, groups,
  join order by dynamic programming, queries inside queries, and output.
* The evaluators for queries of the benchmark (`tpch`), each recognised by marks
  in its text and answered by a way of its own.

Cells are 64-bit words. Arithmetic on doubles is not part of the library: it is
handed in as a function on bit patterns (`float_bits::is_arith`), and so are the
reading, writing and adding up of doubles and the kernels. Contracts speak of
what such a function gives.

A query inside an expression is answered by `sql/engine`, which calls itself: a
depth says how far.

`app/` holds these functions for `f64` and puts the scheduler behind a lock.

What the library takes on trust stands in `group_index` (`fxhash`), `hashing`
(`xxhash-rust`), `sql/names` (`ahash`) and `text` (`std`).
