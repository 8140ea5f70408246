# oxlive

A quad store whose SPARQL queries stay up to date, written in Verus.

A query is started once. It first hands out what is stored, and from then on it hands out
what every commit changes. Once it has taken in what is ready, and as long as no error has
ended it, its results are those that the query has over the committed quads.
`law_results_are_the_answer` in `src/results.rs` and `law_batches_add_up_to_the_answer` in
`src/deltas.rs` state this exactly, and Verus proves them.

## Layout

- `src/model.rs`, `numeric_encoder.rs`: terms, and the fixed-size form in which they are kept.
- `src/fx.rs`, `tally.rs`, `bag.rs`, `delta.rs`, `replay.rs`: hash maps, counters, bags, and
  what it means that a stream of additions and deletions leads from one bag to another.
- `src/error.rs`, `stats.rs`: what can go wrong, and what a running query costs.
- `src/table.rs`, `storage.rs`, `transaction.rs`, `readable.rs`, `loader.rs`, `tracking.rs`,
  `validity.rs`: the store, its transactions, what is published of a write, and how a store
  stays valid.
- `src/subscription.rs`, `live.rs`, `notifier.rs`: who hears of a change, and who is woken.
- `src/dataset.rs`, `source.rs`, `attachment.rs`, `opening.rs`, `listing.rs`: views of a store,
  and the sources that follow it.
- `src/streams.rs`, `graphs.rs`, `quad_stream.rs`, `eval_dataset.rs`: the quads of one or more
  graphs as one stream of changes.
- `src/tuple.rs`, `join.rs`, `join_values.rs`, `join_state.rs`, `operators.rs`, `node.rs`: rows,
  joins, and the nodes of a running query.
- `src/algebra.rs`, `plan.rs`, `evaluator.rs`, `driver.rs`: what a query means, its plan, and
  the query that runs.
- `src/solution.rs`, `solution_set.rs`, `template.rs`, `graph_output.rs`, `results.rs`,
  `deltas.rs`: solutions, graphs, complete results, and their changes.
- `tests/`: the library at work on concrete values.
- `app/`: the store behind a lock, with futures, and with the types of the RDF and SPARQL
  crates.

Proof functions whose names begin with `law_` state what holds of the library as a whole.
Functions marked `#[verifier::external_body]` call other crates; their contracts are taken on
trust.
