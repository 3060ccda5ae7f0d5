//! An embedded document database: a transactional key-value façade over an
//! ordered byte store, a composite key encoding that groups documents of one
//! (schema, collection) pair under a common prefix, a binary document codec,
//! and a small pipe-oriented query language with a parser, a planner and an
//! executor.

pub mod error;
pub mod order;
pub mod sorted;
pub mod store;
pub mod txn;
pub mod scan;
pub mod laws;
pub mod keys;
pub mod ast;
pub mod parser;
pub mod plan;
pub mod schema;
pub mod doc;
pub mod exec;
