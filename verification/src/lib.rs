//! Warehouse inventory core: stock operations kept under byte-ordered keys,
//! monthly balance checkpoints, and period reports over both.

pub mod bytes;
pub mod error;
pub mod idempotence;
pub mod ids;
pub mod laws;
pub mod memories;
pub mod ordered;
pub mod plain;
pub mod processor;
pub mod reports;
pub mod reversal;
pub mod service;
pub mod time;
pub mod elements;
pub mod generated;
pub mod topologies;
pub mod aggregations;
pub mod animo;
pub mod balances;
pub mod canonical;
pub mod checkpoints;
pub mod coherence;
pub mod db;
