//! A relational engine whose query semantics are stated and proved.
//!
//! The crate holds the values, expressions, operators and catalog of the engine.
//! Files, sockets and floating-point arithmetic belong to the host program: a double is
//! carried as its bit pattern, and an operation on it is answered by the [`host::Host`].
use vstd::prelude::*;

pub mod aggregate;
pub mod aggregate_laws;
pub mod arena_join;
pub mod arena_laws;
pub mod ast;
pub mod builtins;
pub mod bytes;
pub mod calendar_laws;
pub mod call_laws;
pub mod calls;
pub mod cast;
pub mod cast_laws;
pub mod catalog;
pub mod catalog_changes;
pub mod catalog_format;
pub mod change_laws;
pub mod columnar_join;
pub mod commands;
pub mod common;
pub mod compare;
pub mod composite;
pub mod constraints;
pub mod database;
pub mod dates;
pub mod ddl;
pub mod debug_text;
pub mod delete;
pub mod engine;
pub mod error;
pub mod eval;
pub mod executor;
pub mod expr_format;
pub mod expression_laws;
pub mod external_sort;
pub mod fast_join_laws;
pub mod filter;
pub mod float;
pub mod function_laws;
pub mod gather_laws;
pub mod grace_join;
pub mod group_laws;
pub mod grouping;
pub mod host;
pub mod index;
pub mod index_laws;
pub mod index_scan;
pub mod insert;
pub mod insert_laws;
pub mod iterator;
pub mod join;
pub mod join_count_laws;
pub mod join_laws;
pub mod key_laws;
pub mod keywords;
pub mod like;
pub mod limit_laws;
pub mod loop_laws;
pub mod order;
pub mod order_laws;
pub mod page_ids;
pub mod parallel;
pub mod parsed;
pub mod partitions;
pub mod pass_laws;
pub mod plan;
pub mod plan_laws;
pub mod planner;
pub mod projection;
pub mod recursion;
pub mod query_laws;
pub mod registry;
pub mod reindex;
pub mod resolve;
pub mod rollback;
pub mod row_laws;
pub mod run;
pub mod scan;
pub mod schema;
pub mod schema_laws;
pub mod session;
pub mod sort;
pub mod state;
pub mod statements;
pub mod storage;
pub mod stream_laws;
pub mod streaming;
pub mod subqueries;
pub mod subquery_laws;
pub mod table_aggregate_laws;
pub mod text;
pub mod transactions;
pub mod tuple;
pub mod txn;
pub mod types;
pub mod update;
pub mod values;
pub mod window;
pub mod window_laws;
pub mod wire;

verus! {

}
