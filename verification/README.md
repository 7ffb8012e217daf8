# JimVD

A factor-graph store for categorical data: objects are covered by
rectangles (factors) of objects that share a set of property atoms, queries
are answered by set operations on factor extents, and the store learns new
factors for the conjunctions it is asked often and evicts the ones it no
longer uses.

The library under `src/` is verified with Verus:

- `strmap`, `text`, `index`: string-keyed maps, atom text (`attr=value`),
  set and index helpers.
- `types`, `cover`: the data model and the greedy exact cover that finds the
  structural factors.
- `graph`, `multi`, `lifecycle`, `metrics`: the factor graph of one table
  (queries with row fallback, adaptive materialisation, eviction, deltas,
  row reconstruction), several tables with factor joins, and the counters.
- `laws`: what the graph keeps true across operations (soundness of the
  factors, exact answers when the factors cover the rows, reads after
  writes, ordered percentiles).
- `consistency`: the two indexes agree with the factors and no extent
  repeats an object, after every operation and in every graph reached from
  a new one; an added factor stays listed under its atoms while it is held.
- `order`: the conjunction counter's key, and the intent a conjunction is
  materialised with, do not depend on the order of its equalities.
- `config`, `benchmark`, `oplog`: the configured benchmark runner and the
  engine-neutral operation log.
- `workload`, `runner`, `bench`, `suite`, `orchestrate`, `plan`, `sql`:
  the engine-comparison suite: generated users and operations, the JimVD
  engine, latency percentiles, the scaling, drift, evolution and join runs,
  the main-event state machine, and SQL text for the SQL engines.
- `storage`: the column encoding of factor blocks, with its round trip.

Probabilities, rates and weights are held as millionths.

`app/` holds the programs around the library: configuration files, the
PostgreSQL and DuckDB engines, reports, charts and the command line.
`tests/` exercises the library on concrete values.

The laws, each a public proof function:

- `consistency`: `law_new_graph_indexed`, `law_add_factor_keeps_indexed`,
  `law_remove_factor_keeps_indexed`, `law_delta_keeps_indexed`,
  `law_evict_keeps_indexed`, `law_query_keeps_indexed`,
  `law_reached_graphs_indexed`, `law_factor_listed`,
  `law_added_factor_stays_listed`.
- `order`: `law_conjunction_key_ignores_order`, `law_both_orders_one_counter`.
- `laws`: `law_delta_keeps_sound`, `law_add_factor_keeps_sound`,
  `law_evict_keeps_sound`, `law_query_keeps_sound`,
  `law_query_keeps_complete`, `law_query_answers_rows`,
  `law_fallback_answers_rows`, `law_read_after_write`,
  `law_read_after_delete`, `law_percentiles_ordered`.
- `orchestrate`: `law_main_event_counts`.
- `storage`: `law_blocks_round_trip`.
