//! Ordered topologies: column families whose key order answers a class of
//! queries by range scans.

pub mod date_type_store_batch_id;
pub mod op_key;
