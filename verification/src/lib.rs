//! Parallel consumption of DynamoDB Streams: shard leases, parent-before-child
//! ordering, checkpoints and load balancing, verified.

pub mod backoff;
pub mod cleanup;
pub mod client;
pub mod collections;
pub mod coordinator;
pub mod fleet;
pub mod json;
pub mod leader;
pub mod lease_scan;
pub mod lease_table;
pub mod lease_wire;
pub mod metrics;
pub mod multistream;
pub mod position;
pub mod record;
pub mod scheduler;
pub mod sidecar;
pub mod source;
pub mod table_setup;
pub mod taker;
pub mod text;
pub mod worker;
