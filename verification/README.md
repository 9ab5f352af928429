# ahiru-core

The core of a SQL engine that reads files piecewise and never blocks on I/O,
written in Rust and verified with Verus.

An operator is pulled for batches. Where it needs bytes that are not there, it
says which, and the pull is repeated once they are. What a query returns does
not depend on these interruptions: every operator carries the history of what
it has returned, and its invariant ties that history to what its inputs have
returned. `exec::meaning::gave` says the same of whole plans: which batches a
plan gives, from the rows of the in-memory tables and the splits of the files on
up, and `exec::meaning::stops` for what reasons it can be interrupted or fail. A
file counts as it was found when it was looked at: operators keep the looks that
they have taken (`exec::looks`), and these lead from the catalog before a pull to
the one after it. The statements that run a query to its end (`CREATE TABLE AS`, `INSERT ... SELECT`)
are specified by them. `exec::finished` says what operators have returned once
they are done.

| Module | What it holds |
|---|---|
| `error` | error codes and their numbers |
| `vector` | types, values, columns, batches |
| `order`, `hash`, `float` | orders, hashes, IEEE-754 arithmetic on bit patterns |
| `expr` | compiled expressions and the machine that runs them |
| `plan` | plan nodes |
| `catalog`, `format` | fetched bytes, file-backed and in-memory tables, views, file formats |
| `exec` | the physical operators |
| `json` | the reader behind `UNNEST` |
| `ddl`, `dml` | `CREATE`, `DROP`, `ALTER`; `INSERT`, `UPDATE`, `DELETE` |
| `wire`, `abi` | what is exchanged with a host as bytes and as numbers |

A double is held as its bit pattern, so that arithmetic on it can be specified:
sums, products and quotients are the exact result rounded to nearest, ties to
even.

`app/` is the C interface for hosts that drive the engine as a wasm module.
