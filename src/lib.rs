//! Compiles a small SQL-like query language over a single JSON document into a
//! dataflow plan of typed tasks, and evaluates plans against input documents.
//!
//! - `ast`: parsed statements; `clauses`: the clause keywords of `FOREACH`.
//! - `builder`, `resolve`, `plan`, `compile`: statement to task graph, alias
//!   resolution, context binding and scheduling, and the compiled plans.
//! - `json`, `ops`, `execute`: documents, operators, and the evaluator.
//! - `graph`: the task graph, kept in a petgraph `StableGraph`.
//! - `schema`: shapes of JSON values and of results.
//! - `laws`: properties that every compiled plan and every evaluation has.

pub mod ast;
pub mod builder;
pub mod clauses;
pub mod compile;
pub mod error;
pub mod execute;
pub mod graph;
pub mod json;
pub mod laws;
pub mod literal;
pub mod ops;
pub mod plan;
pub mod resolve;
pub mod schema;
pub mod task;
