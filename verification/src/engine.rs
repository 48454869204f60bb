//! The query engine.
pub mod catalog;
pub mod condition;
pub mod error;
pub mod executor;
pub mod format_laws;
pub mod index;
pub mod join;
pub mod laws;
pub mod meta;
pub mod model;
pub mod reopening;
pub mod row;
pub mod row_laws;
pub mod semantics;
pub mod statement_laws;
pub mod tables;
pub mod value_laws;
