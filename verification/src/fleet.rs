//! The fleet runtime: what a worker that shares a stream with others decides in
//! each coordination cycle. The decisions stand here; whoever runs them performs
//! the calls that they ask for and hands back the results.

use vstd::prelude::*;

use crate::collections;
use crate::coordinator::RawLease;
use crate::fleet::cycle::{owned_shard_keys, plan_cycle, plan_release, CyclePlan, Release};
use crate::fleet::defer::{CkptDefer, Deferral};
use crate::fleet::drain::{Drain, DrainAction};
use crate::fleet::pool::Schedule;
use crate::fleet::run::{CycleRun, RunEffect};
use crate::fleet::sync::{ShardSync, SyncState};
use crate::position::InitialPosition;
use crate::worker;

pub mod cycle;
pub mod defer;
pub mod delivery;
pub mod drain;
pub mod holding;
pub mod leadership;
pub mod lineage;
pub mod pass;
pub mod pool;
pub mod run;
pub mod sync;

verus! {

/// How a fleet member works.
#[derive(Clone, Debug)]
pub struct FleetConfig {
    /// The name under which it holds leases.
    pub owner: String,
    /// The most shard leases that it holds at once.
    pub max_leases: usize,
    /// How long a worker may go without a heartbeat.
    pub lease_duration_ms: u64,
    /// The idle back-off between empty reads.
    pub poll_interval_ms: u64,
    /// Where the shards begin that are seeded into a table without shards.
    pub initial_position: InitialPosition,
}

/// One member of the fleet: its configuration and what it remembers from cycle
/// to cycle.
pub struct Fleet {
    pub config: FleetConfig,
    /// What is remembered of shard discovery while leading.
    pub sync: SyncState,
    /// The size of the processing pool; `None` is unbounded.
    pub processing_limit: Option<usize>,
    /// The deferral of checkpoints; `None` persists after each batch.
    pub defer: Option<CkptDefer>,
    /// When each shard is polled next, if the pool is bounded.
    pub schedule: Schedule,
}

impl Fleet {
    /// A member that has done nothing yet: unbounded, with a checkpoint after
    /// every batch.
    pub fn new(config: FleetConfig) -> (f: Fleet)
        ensures
            f.config == config,
            f.sync@ == (sync::SyncMemory { seeded: false, synced: Set::<Seq<char>>::empty() }),
            f.processing_limit is None,
            f.defer is None,
            f.schedule@ == Map::<Seq<char>, pool::ShardSched>::empty(),
    {
        Fleet {
            config,
            sync: SyncState::new(),
            processing_limit: None,
            defer: None,
            schedule: Schedule::new(),
        }
    }

    /// Bound the number of shards that are processed at once. `None` and zero
    /// mean no bound.
    pub fn with_max_processing_concurrency(self, max: Option<usize>) -> (f: Fleet)
        ensures
            f.processing_limit == (match max {
                Some(k) if k >= 1 => Some(k),
                _ => None,
            }),
            f.config == self.config,
            f.sync == self.sync,
            f.defer == self.defer,
            f.schedule == self.schedule,
    {
        let mut f = self;
        f.processing_limit =
        match max {
            Some(k) => if k >= 1 {
                Some(k)
            } else {
                None
            },
            None => None,
        };
        f
    }

    /// Resize the processing pool; it takes effect in the next cycle. A member
    /// without a bound stays without one.
    pub fn set_max_processing_concurrency(&mut self, target: usize)
        ensures
            final(self).processing_limit == (match old(self).processing_limit {
                Some(_) => Some(
                    if target >= 1 {
                        target
                    } else {
                        1
                    },
                ),
                None => None,
            }),
            final(self).config == old(self).config,
            final(self).sync == old(self).sync,
            final(self).defer == old(self).defer,
            final(self).schedule == old(self).schedule,
    {
        if self.processing_limit.is_some() {
            self.processing_limit = Some(
                if target >= 1 {
                    target
                } else {
                    1
                },
            );
        }
    }

    /// Defer checkpoints to at most one write per interval and shard. `None` and
    /// zero persist after each batch.
    pub fn with_checkpoint_interval(self, interval_ms: Option<u64>) -> (f: Fleet)
        ensures
            pass::deferral(f.defer) == (match interval_ms {
                Some(ms) if ms >= 1 => Some(
                    Deferral {
                        interval: ms * 1_000_000,
                        shards: Map::<Seq<char>, defer::Pending>::empty(),
                    },
                ),
                _ => None,
            }),
            f.config == self.config,
            f.sync == self.sync,
            f.processing_limit == self.processing_limit,
            f.schedule == self.schedule,
    {
        let mut f = self;
        f.defer =
        match interval_ms {
            Some(ms) => if ms >= 1 {
                Some(CkptDefer::new(ms))
            } else {
                None
            },
            None => None,
        };
        f
    }

    /// Start to run cycles until all shards are complete, `max_cycles` at most.
    pub fn run_until_complete(&self, max_cycles: usize) -> (r: (Drain, DrainAction))
        ensures
            (r.0.left(), r.1) == drain::drain_on(max_cycles as nat),
    {
        Drain::start(max_cycles)
    }

    /// Start a coordination cycle.
    pub fn run_cycle(&self) -> (r: (CycleRun, Vec<RunEffect>))
        ensures
            r.0.wf(),
            r.0@ == run::RunStageModel::Scanning,
            run::effects_of(r.1@) == seq![run::RunEffectModel::Scan],
    {
        CycleRun::start()
    }

    /// Start a round of shard discovery, as the leader.
    pub fn leader_shard_sync(&self, rows: &[RawLease]) -> (s: ShardSync)
        ensures
            s.wf(),
            s@ == sync::sync_start(cycle::full_rows(rows@), self.sync@),
    {
        ShardSync::start(rows, &self.sync)
    }

    /// Decide a cycle from a scan of the lease table, after the leases were
    /// claimed. What is pending of shards that this member does not hold any
    /// more is dropped.
    pub fn plan_cycle(&mut self, rows: &[RawLease]) -> (p: CyclePlan)
        ensures
            p.held@ == cycle::held(cycle::full_rows(rows@), old(self).config.owner@).dom(),
            p.complete == worker::all_done(
                cycle::graph_of(cycle::full_rows(rows@)),
                cycle::completed_shards(cycle::full_rows(rows@)),
            ),
            pool::owned_models(p.work@) == (if p.complete {
                Seq::empty()
            } else {
                cycle::cycle_work(cycle::full_rows(rows@), old(self).config.owner@)
            }),
            pass::deferral(final(self).defer) == (match pass::deferral(old(self).defer) {
                Some(d) => Some(d.restricted(p.held@)),
                None => None,
            }),
            final(self).config == old(self).config,
            final(self).sync == old(self).sync,
            final(self).processing_limit == old(self).processing_limit,
            final(self).schedule == old(self).schedule,
    {
        let p = plan_cycle(rows, self.config.owner.as_str());
        match &mut self.defer {
            Some(d) => d.prune(&p.held),
            None => {},
        }
        p
    }

    /// The shards that this member currently owns.
    pub fn owned_shards(&self, rows: &[RawLease]) -> (r: Vec<String>)
        ensures
            collections::texts(r@) == cycle::row_keys(
                cycle::full_rows(rows@).filter(
                    |x: cycle::FullRow| cycle::holds(x, self.config.owner@),
                ),
            ),
    {
        owned_shard_keys(rows, self.config.owner.as_str())
    }

    /// Plan the release of every lease that this member owns.
    pub fn release_owned(&mut self, rows: &[RawLease]) -> (r: Vec<Release>)
        ensures
            (cycle::release_models(r@), pass::deferral(final(self).defer)) == cycle::releases(
                cycle::full_rows(rows@),
                old(self).config.owner@,
                pass::deferral(old(self).defer),
            ),
            final(self).config == old(self).config,
            final(self).sync == old(self).sync,
            final(self).processing_limit == old(self).processing_limit,
            final(self).schedule == old(self).schedule,
    {
        plan_release(rows, self.config.owner.as_str(), &mut self.defer)
    }
}

} // verus!
