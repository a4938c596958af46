//! Schema-aware search: a small filter language, a schema graph over foreign
//! keys, a join resolver and an SQL synthesizer.

pub mod text;
pub mod command;
pub mod literal;
pub mod parser;
pub mod catalog;
pub mod graph;
pub mod table_search;
pub mod sql;
pub mod properties;
pub mod manager;
pub mod config;
