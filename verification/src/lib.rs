//! A small embeddable relational store: typed tables with primary-key and
//! unique constraints, a minimal textual query language, and primary/replica
//! replication by replay of a log of accepted write statements.
//!
//! Every value is kept as text. Numbers with a fraction are the one thing
//! that the library does not compare by itself: a caller hands the functions
//! that evaluate a clause a function that tells how two such numbers stand to
//! each other.

pub mod database;
pub mod demo;
pub mod digest;
pub mod executor;
pub mod query;
pub mod render;
pub mod replication;
pub mod row;
pub mod schema;
pub mod server;
pub mod sql;
pub mod table;
pub mod text;

pub use database::{Database, DatabaseInterface, TableMap};
pub use demo::init_demo_database;
pub use digest::checksum;
pub use executor::{execute_sql, execute_statement, Outcome};
pub use query::{query_to_predicate, CompareOp, NumOrder, Predicate};
pub use replication::{
    ReplicationConfig, ReplicationError, ReplicationEvent, ReplicationManager, SyncPlan, Written,
};
pub use row::{Row, RowInterface};
pub use schema::{ColumnSchema, ColumnType, Schema};
pub use server::{QueryResponse, RpcServer};
pub use sql::{parse_statement, Statement};
pub use table::{InsertOutcome, Table, TableInterface, UpdateOutcome};
