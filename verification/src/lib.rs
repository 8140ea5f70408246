//! Live queries over an RDF quad store: committed changes of the store reach the
//! queries that subscribed to them, and the answers of those queries are kept up to
//! date from the changes alone.

pub mod algebra;
pub mod attachment;
pub mod bag;
pub mod dataset;
pub mod delta;
pub mod deltas;
pub mod driver;
pub mod error;
pub mod eval_dataset;
pub mod evaluator;
pub mod fx;
pub mod graph_output;
pub mod graphs;
pub mod join;
pub mod join_state;
pub mod join_values;
pub mod listing;
pub mod live;
pub mod loader;
pub mod meaning;
pub mod model;
pub mod node;
pub mod notifier;
pub mod numeric_encoder;
pub mod opening;
pub mod operators;
pub mod plan;
pub mod quad_stream;
pub mod readable;
pub mod reading;
pub mod replay;
pub mod results;
pub mod solution;
pub mod solution_set;
pub mod source;
pub mod stats;
pub mod storage;
pub mod streams;
pub mod subscription;
pub mod table;
pub mod tally;
pub mod template;
pub mod tracking;
pub mod transaction;
pub mod tuple;
pub mod validity;
