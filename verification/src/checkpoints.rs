//! Checkpoint topologies: balances snapshotted at month boundaries.

pub mod check_date_store_batch;
pub mod check_key;
