# ForgeDB

A relational database engine whose behaviour is stated in contracts and proved with Verus:
storage of rows on pages, a catalog, expressions, queries, changes of rows with constraints,
transactions with rollback and snapshots, and the commands of a session.

## Layout

- `src/` is the library. Every function states what it returns or changes, over mathematical
  views of its types.
  - Common ground: `error`, `host`, `float`, `state`.
  - Values and expressions: `types`, `values`, `compare`, `order`, `dates`, `text`, `debug_text`,
    `like`, `cast`, `builtins`, `calls`, `eval`.
  - Storage: `common`, `bytes`, `tuple`, `schema`, `storage`, `index`, `composite`, `reindex`,
    `catalog`, `catalog_format`, `expr_format`.
  - Queries: `plan`, `planner`, `scan`, `index_scan`, `filter`, `projection`, `window`,
    `grouping`, `aggregate`, `streaming`, `sort`, `external_sort`, `join`, `grace_join`,
    `arena_join`, `columnar_join`, `wire`, `iterator`, `executor`, `parallel`. What holds of them
    together: `join_laws`, `loop_laws`, `key_laws`, `group_laws`, `pass_laws`, `limit_laws`,
    `stream_laws`, `index_laws`, `aggregate_laws`.
  - Changes: `insert`, `update`, `delete`, `constraints`, `ddl`, `catalog_changes`, `txn`,
    `transactions`, `rollback`, `page_ids`.
  - Statements: `ast`, `engine`, `statements`, `run`, `resolve`, `recursion`, `subqueries`,
    `parsed`, `keywords`, `commands`, `partitions`, `registry`, `database`, `session`.
- `tests/` runs the library.
- `app/` is a console around it: files, threads and floating-point arithmetic.

Functions whose names begin with `law_` state what holds of the library as a whole, such as that
a row that is stored is read, that a transaction that is rolled back leaves the tables as they
were, and that no key occurs twice.

## Floating-point numbers

The library holds doubles as their bits and does not compute with them. Where a result is needed
that the `Host` does not know, a statement ends with `ForgeError::NeedsFloat` and changes no row;
the caller computes the result, notes it in the host and begins the statement anew. The note that
it was planned and the tables that hold the results of queries in its FROM clause may stay until
then; the statement makes them anew.

## Planned queries

The texts of the queries that were planned since the schema last changed are noted, up to a limit,
and their number is reported. The plans themselves are not kept: a query is planned each time it
runs.
