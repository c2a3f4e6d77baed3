//! A pluggable sink for what the engine observes. Every method has a default
//! that does nothing, so that a sink overrides only what it emits.

use std::sync::Arc;

use vstd::prelude::*;

verus! {

/// One delivered, non-empty batch.
#[derive(Clone, Debug)]
pub struct ShardMetrics<'a> {
    pub shard_id: &'a str,
    /// Records in the batch.
    pub records: u64,
    /// Payload bytes in the batch.
    pub bytes: u64,
    /// Consumer lag in milliseconds, when known.
    pub millis_behind_latest: Option<i64>,
}

/// A sink for engine metrics.
pub trait MetricsSink: Send + Sync {
    /// A batch of records was delivered on a shard.
    fn on_batch(&self, _m: &ShardMetrics<'_>) {
    }

    /// A shard reached its end.
    fn on_shard_end(&self, _shard_id: &str) {
    }

    /// The leader described the stream.
    fn on_describe_stream(&self) {
    }

    /// This worker acquired or created a lease.
    fn on_lease_acquired(&self, _shard_id: &str) {
    }

    /// This worker lost a lease.
    fn on_lease_lost(&self, _shard_id: &str) {
    }

    /// How many shard leases this worker holds.
    fn on_leases_held(&self, _count: u64) {
    }

    /// How long a shard waited for a processing slot.
    fn on_processing_slot_wait(&self, _shard_id: &str, _wait_ms: u64) {
    }

    /// How many shards are due when the processing pool starts.
    fn on_processing_queue_depth(&self, _depth: u64) {
    }

    /// The processing-concurrency cap.
    fn on_max_processing_concurrency(&self, _cap: u64) {
    }
}

/// The sink that records nothing.
pub struct NoopSink;

impl MetricsSink for NoopSink {

}

/// A shared sink.
pub type SharedMetricsSink = Arc<dyn MetricsSink>;

/// A shared sink that records nothing. It coerces to [`SharedMetricsSink`].
pub fn noop_sink() -> (s: Arc<NoopSink>)
    ensures
        *s == NoopSink,
{
    Arc::new(NoopSink)
}

} // verus!
