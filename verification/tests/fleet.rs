//! A fleet member over a simulated stream, lease table and clock.

use std::cell::RefCell;
use std::collections::{BTreeMap, HashMap};
use std::rc::Rc;

use dynamodb_streams_consumer::collections::StringSet;
use dynamodb_streams_consumer::coordinator::{LeaseCoordinator, RawLease};
use dynamodb_streams_consumer::fleet::cycle::leases_to_delete;
use dynamodb_streams_consumer::fleet::drain::{Drain, DrainAction, DrainEvent};
use dynamodb_streams_consumer::fleet::leadership::{LeaderBid, Leadership};
use dynamodb_streams_consumer::fleet::pass::{PassEffect, PassEvent, PassOutcome, ShardPass};
use dynamodb_streams_consumer::fleet::pool::{
    keep_alive_tick_ms, Claim, OwnedShard, Pool, PoolItem, Renewed, Schedule,
};
use dynamodb_streams_consumer::fleet::run::{RunEffect, RunEvent};
use dynamodb_streams_consumer::fleet::sync::{ShardSync, SyncAction, SyncState};
use dynamodb_streams_consumer::fleet::{Fleet, FleetConfig};
use dynamodb_streams_consumer::leader::{is_shard_key, ShardMeta, LEADER_LEASE_KEY};
use dynamodb_streams_consumer::lease_table::{Change, Condition, LeaseWrite};
use dynamodb_streams_consumer::position::InitialPosition;
use dynamodb_streams_consumer::scheduler::{Record, RecordBatch};
use dynamodb_streams_consumer::worker::run::{WorkerAction, WorkerEvent};
use dynamodb_streams_consumer::worker::{
    batch_ack, child_shards, eligible, LeaseView, Worker,
};

const MS: u64 = 1_000_000;

fn rec(shard: &str, seq: &str) -> Record {
    Record { shard_id: shard.into(), seq: seq.into(), data: vec![] }
}

fn shard(id: &str, parents: &[&str]) -> ShardMeta {
    ShardMeta { id: id.into(), parents: parents.iter().map(|p| p.to_string()).collect() }
}

fn set(items: &[&str]) -> StringSet {
    let mut s = StringSet::new();
    for i in items {
        s.insert(i.to_string());
    }
    s
}

// ---- the simulated world ----

/// A stream: its shards, and what a read returns.
trait Stream {
    fn describe(&self) -> Option<Vec<ShardMeta>>;
    fn children(&self, parent: &str) -> Option<Vec<ShardMeta>> {
        self.describe().map(|all| child_shards(&all, parent))
    }
    fn read(&mut self, shard: &str, after: Option<&str>) -> Option<RecordBatch>;
}

/// Closed shards with fixed records.
struct Fixed {
    metas: Vec<ShardMeta>,
    data: HashMap<String, Vec<Record>>,
    ends: bool,
}

fn after_token(all: &[Record], after: Option<&str>) -> Vec<Record> {
    match after.and_then(|tok| all.iter().position(|r| r.seq == tok)) {
        Some(i) => all[i + 1..].to_vec(),
        None => all.to_vec(),
    }
}

impl Stream for Fixed {
    fn describe(&self) -> Option<Vec<ShardMeta>> {
        Some(self.metas.clone())
    }
    fn read(&mut self, shard: &str, after: Option<&str>) -> Option<RecordBatch> {
        let all = self.data.get(shard).cloned().unwrap_or_default();
        let records = after_token(&all, after);
        Some(RecordBatch { records, shard_end: self.ends, millis_behind_latest: None })
    }
}

fn fixed(shards: &[(&str, &[&str], &[&str])]) -> Fixed {
    Fixed {
        metas: shards.iter().map(|(id, parents, _)| shard(id, parents)).collect(),
        data: shards
            .iter()
            .map(|(id, _, seqs)| (id.to_string(), seqs.iter().map(|q| rec(id, q)).collect()))
            .collect(),
        ends: true,
    }
}

fn open(seqs: &[&str]) -> Fixed {
    Fixed { ends: false, ..fixed(&[("s0", &[], seqs)]) }
}

fn roots(n: usize) -> Fixed {
    let ids: Vec<String> = (0..n).map(|i| format!("s{i}")).collect();
    Fixed {
        metas: ids.iter().map(|id| shard(id, &[])).collect(),
        data: ids
            .iter()
            .enumerate()
            .map(|(i, id)| (id.clone(), vec![rec(id, &format!("{i}"))]))
            .collect(),
        ends: true,
    }
}

fn row(owner: Option<&str>, counter: u64, completed: bool, checkpoint: Option<&str>) -> RawLease {
    RawLease {
        lease_key: String::new(),
        owner: owner.map(|o| o.to_string()),
        lease_counter: counter,
        completed,
        checkpoint: checkpoint.map(|c| c.to_string()),
        parents: vec![],
    }
}

/// A lease table that holds every write to its condition.
#[derive(Default)]
struct Table {
    rows: BTreeMap<String, RawLease>,
    checkpoints: usize,
    renews: usize,
    scans: usize,
    /// The scan that fails, if one does.
    failing_scan: Option<usize>,
}

impl Table {
    fn put(&mut self, key: &str, row: RawLease) {
        self.rows.insert(key.to_string(), RawLease { lease_key: key.to_string(), ..row });
    }

    fn list(&self) -> Vec<RawLease> {
        self.rows.values().cloned().collect()
    }

    fn scan(&mut self) -> Option<Vec<RawLease>> {
        self.scans += 1;
        if Some(self.scans) == self.failing_scan {
            return None;
        }
        Some(self.list())
    }

    /// The counter after the write; `None` if its condition fails.
    fn apply(&mut self, w: &LeaseWrite) -> Option<u64> {
        match w.change {
            Change::SaveCheckpoint(_) => self.checkpoints += 1,
            Change::Renew => self.renews += 1,
            _ => {}
        }
        let found = self.rows.get(&w.key).cloned();
        let meets = match (&w.condition, &found) {
            (Condition::Absent, r) => r.is_none(),
            (Condition::CounterIs(c), Some(r)) => r.lease_counter == *c,
            (Condition::HeldBy(c, o), Some(r)) => {
                r.lease_counter == *c && r.owner.as_ref() == Some(o)
            }
            (Condition::Completed, Some(r)) => r.completed,
            (Condition::Always, _) => true,
            _ => false,
        };
        if !meets {
            return None;
        }
        let mut r = found.unwrap_or(row(None, 0, false, None));
        match &w.change {
            Change::Create(o, c, cp, p) => {
                r.owner = o.clone();
                r.lease_counter = *c;
                r.checkpoint = cp.clone();
                r.parents = p.clone();
            }
            Change::Take(o) | Change::Beat(o) => {
                r.owner = Some(o.clone());
                r.lease_counter += 1;
            }
            Change::Renew => r.lease_counter += 1,
            Change::SaveCheckpoint(s) => {
                r.checkpoint = Some(s.clone());
                r.lease_counter += 1;
            }
            Change::Complete => r.completed = true,
            Change::Release => {
                r.owner = None;
                r.lease_counter += 1;
            }
            Change::Delete => {
                self.rows.remove(&w.key);
                return Some(r.lease_counter);
            }
        }
        let counter = r.lease_counter;
        self.put(&w.key, r);
        Some(counter)
    }
}

/// What the member reported.
#[derive(Default)]
struct Metrics {
    batches: Vec<(String, u64, u64, Option<i64>)>,
    shard_ends: u64,
    lost: u64,
    described: u64,
    children_described: u64,
    held: u64,
    slot_waits: usize,
    max_concurrency: u64,
    max_queue_depth: u64,
    max_fetching: usize,
    max_delivering: usize,
}

/// How a consumer answers a batch: `Err` fails the delivery.
type Consume = Box<dyn FnMut(&str, &[Record]) -> Result<Option<String>, ()>>;

fn ack_all() -> Consume {
    Box::new(|_, records| Ok(batch_ack(records)))
}

fn never_ack() -> Consume {
    Box::new(|_, _| Ok(None))
}

/// What a pass is doing, and when it will be done.
enum Busy {
    Fetch(Option<String>),
    Deliver(RecordBatch),
    Checkpoint(u64, String),
}

struct Running {
    slot: usize,
    shard: String,
    pass: ShardPass,
    busy: Busy,
    until: u64,
}

struct Sim {
    fleet: Fleet,
    coordinator: LeaseCoordinator,
    leadership: Leadership,
    table: Table,
    stream: Box<dyn Stream>,
    consume: Consume,
    delivered: Vec<(String, String)>,
    metrics: Metrics,
    now: u64,
    fetch_ns: u64,
    deliver_ns: u64,
}

impl Sim {
    fn new(stream: impl Stream + 'static, owner: &str, duration_ms: u64, poll_ms: u64) -> Sim {
        Sim {
            fleet: Fleet::new(FleetConfig {
                owner: owner.into(),
                max_leases: 100,
                lease_duration_ms: duration_ms,
                poll_interval_ms: poll_ms,
                initial_position: InitialPosition::default(),
            }),
            coordinator: LeaseCoordinator::new(owner, 100, duration_ms),
            leadership: Leadership::new(owner, duration_ms),
            table: Table::default(),
            stream: Box::new(stream),
            consume: ack_all(),
            delivered: vec![],
            metrics: Metrics::default(),
            now: 0,
            fetch_ns: MS,
            deliver_ns: 20 * MS,
        }
    }

    fn capped(mut self, cap: Option<usize>) -> Sim {
        self.fleet = self.fleet.with_max_processing_concurrency(cap);
        self
    }

    fn deferring(mut self, interval_ms: Option<u64>) -> Sim {
        self.fleet = self.fleet.with_checkpoint_interval(interval_ms);
        self
    }

    fn owner(&self) -> String {
        self.fleet.config.owner.clone()
    }

    fn seqs(&self, shard: &str) -> Vec<String> {
        self.delivered
            .iter()
            .filter(|(s, _)| s == shard)
            .map(|(_, q)| q.clone())
            .collect()
    }

    /// Do what a pass asks for. Gives the outcome once the pass is over.
    fn perform(
        &mut self,
        slot: usize,
        shard: &str,
        pass: ShardPass,
        effects: Vec<PassEffect>,
        read: Option<RecordBatch>,
        running: &mut Vec<Running>,
    ) -> Option<PassOutcome> {
        let owner = self.owner();
        let mut busy = None;
        for e in effects {
            match e {
                PassEffect::Fetch(after) => busy = Some((Busy::Fetch(after), self.fetch_ns)),
                PassEffect::Deliver => {
                    let b = RecordBatch {
                        records: read.as_ref().unwrap().records.clone(),
                        shard_end: false,
                        millis_behind_latest: None,
                    };
                    busy = Some((Busy::Deliver(b), self.deliver_ns));
                }
                PassEffect::Checkpoint(c, s) => busy = Some((Busy::Checkpoint(c, s), 0)),
                PassEffect::ReportBatch(n, b, lag) => {
                    self.metrics.batches.push((shard.to_string(), n, b, lag))
                }
                PassEffect::ReportLost => self.metrics.lost += 1,
                PassEffect::TellLost | PassEffect::TellEnded => {}
                PassEffect::MarkComplete(c) => {
                    self.table.apply(&LeaseWrite::mark_complete(shard, &owner, c));
                }
                PassEffect::ReportEnd => self.metrics.shard_ends += 1,
                PassEffect::Finish(o) => return Some(o),
            }
        }
        let (busy, ns) = busy.unwrap();
        let until = self.now + ns;
        running.push(Running { slot, shard: shard.to_string(), pass, busy, until });
        let fetching = running.iter().filter(|r| matches!(r.busy, Busy::Fetch(_))).count();
        let delivering = running.iter().filter(|r| matches!(r.busy, Busy::Deliver(_))).count();
        self.metrics.max_fetching = self.metrics.max_fetching.max(fetching);
        self.metrics.max_delivering = self.metrics.max_delivering.max(delivering);
        None
    }

    fn start(
        &mut self,
        slot: usize,
        shard: &str,
        counter: u64,
        checkpoint: &Option<String>,
        running: &mut Vec<Running>,
    ) {
        let (pass, effects) = ShardPass::start(shard, counter, checkpoint, &self.fleet.defer);
        assert!(self.perform(slot, shard, pass, effects, None, running).is_none());
    }

    /// Let the running pass that is done first go on. Gives its slot and outcome
    /// once it is over.
    fn advance(&mut self, running: &mut Vec<Running>) -> Option<(usize, PassOutcome)> {
        let first = (0..running.len()).min_by_key(|i| running[*i].until).unwrap();
        let mut r = running.remove(first);
        self.now = self.now.max(r.until);
        let owner = self.owner();
        let mut read = None;
        let event = match r.busy {
            Busy::Fetch(after) => match self.stream.read(&r.shard, after.as_deref()) {
                Some(b) => {
                    read = Some(RecordBatch {
                        records: b.records.clone(),
                        shard_end: b.shard_end,
                        millis_behind_latest: b.millis_behind_latest,
                    });
                    PassEvent::Fetched(b)
                }
                None => PassEvent::FetchFailed,
            },
            Busy::Deliver(b) => {
                for x in &b.records {
                    self.delivered.push((r.shard.clone(), x.seq.clone()));
                }
                match (self.consume)(&r.shard, &b.records) {
                    Ok(ack) => PassEvent::Delivered(ack),
                    Err(()) => PassEvent::DeliveryFailed,
                }
            }
            Busy::Checkpoint(c, seq) => {
                match self.table.apply(&LeaseWrite::checkpoint(&r.shard, &owner, c, &seq)) {
                    Some(c) => PassEvent::Persisted(c),
                    None => PassEvent::PersistFailed,
                }
            }
        };
        let effects = r.pass.step(event, &mut self.fleet.defer, self.now);
        let slot = r.slot;
        let shard = r.shard;
        self.perform(slot, &shard, r.pass, effects, read, running).map(|o| (slot, o))
    }

    fn run_pool(&mut self, pool: &mut Pool) {
        let owner = self.owner();
        let duration = self.fleet.config.lease_duration_ms;
        let tick = keep_alive_tick_ms(duration) * MS;
        let mut next_tick = self.now + tick;
        let mut running: Vec<Running> = vec![];
        let mut idle: Vec<usize> = (0..pool.size()).collect();
        loop {
            while let Some(slot) = idle.pop() {
                match pool.claim(slot) {
                    Claim::Item(item) => {
                        self.metrics.slot_waits += 1;
                        self.start(
                            slot,
                            &item.shard,
                            item.counter,
                            &item.checkpoint,
                            &mut running,
                        );
                    }
                    Claim::Wait => panic!("no renewal is under way here"),
                    Claim::Done => {}
                }
            }
            if running.is_empty() {
                return;
            }
            let next = running.iter().map(|r| r.until).min().unwrap();
            if next > next_tick {
                self.now = next_tick;
                next_tick += tick;
                let asked = pool.begin_renewal(self.now, duration);
                let results = asked
                    .iter()
                    .map(|r| {
                        let w = LeaseWrite::renew(&r.shard, &owner, r.counter);
                        self.table.apply(&w).map(|counter| Renewed { counter, at_ns: self.now })
                    })
                    .collect();
                pool.finish_renewal(&results);
                continue;
            }
            if let Some((slot, outcome)) = self.advance(&mut running) {
                pool.finish(slot, outcome);
                idle.push(slot);
            }
        }
    }

    fn cleanup(&mut self, rows: &[RawLease]) {
        for key in leases_to_delete(rows) {
            self.table.apply(&LeaseWrite::delete_lease(&key));
        }
    }

    fn bid(&mut self, bid: LeaderBid) -> Option<u64> {
        let owner = self.owner();
        let write = match bid {
            LeaderBid::Renew { base } => LeaseWrite::renew(LEADER_LEASE_KEY, &owner, base),
            LeaderBid::Create => {
                LeaseWrite::try_acquire_leadership(LEADER_LEASE_KEY, &owner, None)
            }
            LeaderBid::Steal { seen } => {
                LeaseWrite::try_acquire_leadership(LEADER_LEASE_KEY, &owner, Some(seen))
            }
            LeaderBid::Follow => return None,
        };
        self.table.apply(&write)
    }

    /// One cycle. `None` if it failed.
    fn try_cycle(&mut self, now_ms: u64) -> Option<bool> {
        let owner = self.owner();
        let (mut run, mut effects) = self.fleet.run_cycle();
        loop {
            let mut event = None;
            for e in effects {
                match e {
                    RunEffect::Scan => event = Some(RunEvent::Scanned(self.table.scan())),
                    RunEffect::Bid(b) => event = Some(RunEvent::Answered(self.bid(b))),
                    RunEffect::Describe => {
                        self.metrics.described += 1;
                        event = Some(RunEvent::Described(self.stream.describe()));
                    }
                    RunEffect::DescribeChildren(p) => {
                        self.metrics.children_described += 1;
                        event = Some(RunEvent::Described(self.stream.children(&p)));
                    }
                    RunEffect::CreateLease(n) => {
                        let w = LeaseWrite::create_shard_lease(&n.id, &n.parents, &n.checkpoint);
                        self.table.apply(&w);
                    }
                    RunEffect::DeleteLease(k) => {
                        self.table.apply(&LeaseWrite::delete_lease(&k));
                    }
                    RunEffect::Heartbeat => {
                        self.table.apply(&LeaseWrite::heartbeat(&owner));
                    }
                    RunEffect::Acquire(k) => {
                        let seen = self.table.rows[&k].lease_counter;
                        self.table.apply(&LeaseWrite::claim(&k, &owner, seen));
                    }
                    RunEffect::ReportHeld(n) => self.metrics.held = n,
                    RunEffect::ReportLimit(k) => self.metrics.max_concurrency = k,
                    RunEffect::ReportDepth(n) => {
                        self.metrics.max_queue_depth = self.metrics.max_queue_depth.max(n)
                    }
                    RunEffect::ProcessAll(work) => {
                        let mut running = vec![];
                        for (i, w) in work.iter().enumerate() {
                            self.start(i, &w.shard, w.counter, &w.checkpoint, &mut running);
                        }
                        while !running.is_empty() {
                            self.advance(&mut running);
                        }
                        event = Some(RunEvent::Processed);
                    }
                    RunEffect::ProcessPooled(due, k) => {
                        let mut pool = Pool::new(due, k);
                        self.run_pool(&mut pool);
                        event = Some(RunEvent::Pooled(pool.outcomes().clone()));
                    }
                    RunEffect::Sleep(ns) => self.now += ns as u64,
                    RunEffect::Finish(complete) => return Some(complete),
                    RunEffect::Fail => return None,
                }
            }
            effects = run.step(
                event.unwrap(),
                &mut self.fleet,
                &mut self.coordinator,
                &mut self.leadership,
                now_ms,
                self.now,
            );
        }
    }

    fn run_cycle(&mut self, now_ms: u64) -> bool {
        self.try_cycle(now_ms).unwrap()
    }

    fn run_until_complete(&mut self, max_cycles: usize) {
        let (mut drain, mut action) = self.fleet.run_until_complete(max_cycles);
        while action == DrainAction::RunCycle {
            let complete = self.run_cycle(self.now / MS);
            action = drain.step(DrainEvent::Cycled(complete));
        }
        assert_eq!(action, DrainAction::Finish);
    }

    fn release_owned(&mut self) -> usize {
        let owner = self.owner();
        let mut released = 0;
        for r in self.fleet.release_owned(&self.table.list()) {
            let flushed = r.pending.as_ref().and_then(|seq| {
                let w = LeaseWrite::checkpoint(&r.lease_key, &owner, r.counter, seq);
                self.table.apply(&w)
            });
            let w = LeaseWrite::release(&r.lease_key, &owner, r.release_counter(flushed));
            if self.table.apply(&w).is_some() {
                released += 1;
            }
        }
        released
    }

    fn shards_complete(&self) -> bool {
        self.table.rows.values().filter(|r| is_shard_key(&r.lease_key)).all(|r| r.completed)
    }
}

fn nothing() -> Fixed {
    Fixed { metas: vec![], data: HashMap::new(), ends: true }
}

// ---- discovery, cleanup and ownership ----

#[test]
fn leader_gcs_completed_parent_once_child_processing() {
    let mut sim = Sim::new(nothing(), "w1", 1000, 1);
    sim.table.put("p", row(None, 3, true, Some("100000000000000000000000001")));
    let mut c = row(Some("w1"), 1, false, Some("100000000000000000000000009"));
    c.parents = vec!["p".into()];
    sim.table.put("c", c);
    let rows = sim.table.list();
    sim.cleanup(&rows);
    assert!(!sim.table.rows.contains_key("p"), "completed parent lease should be GC'd");
    assert!(sim.table.rows.contains_key("c"), "processing child lease must remain");
}

#[test]
fn leader_retains_completed_parent_while_child_not_started() {
    let mut sim = Sim::new(nothing(), "w1", 1000, 1);
    sim.table.put("p", row(None, 0, true, Some("100000000000000000000000001")));
    let mut c = row(None, 0, false, None);
    c.parents = vec!["p".into()];
    sim.table.put("c", c);
    let rows = sim.table.list();
    sim.cleanup(&rows);
    assert!(sim.table.rows.contains_key("p"), "parent retained until child processes");
    assert!(sim.table.rows.contains_key("c"));
}

#[test]
fn owned_shards_excludes_completed_other_owner_released_and_leader_sentinel() {
    let mut sim = Sim::new(nothing(), "w1", 1000, 1);
    sim.table.put("s0", row(Some("w1"), 0, false, None));
    sim.table.put("s1", row(Some("w1"), 0, true, None));
    sim.table.put("s2", row(Some("w2"), 0, false, None));
    sim.table.put("s3", row(None, 0, false, None));
    sim.table.put(LEADER_LEASE_KEY, row(Some("w1"), 0, false, None));
    sim.table.apply(&LeaseWrite::heartbeat("w1"));
    let mut owned = sim.fleet.owned_shards(&sim.table.list());
    owned.sort();
    assert_eq!(owned, vec!["s0".to_string()]);
}

#[test]
fn fleet_processes_all_shards_concurrently_in_order() {
    let stream =
        fixed(&[("s0", &[], &["1", "2"]), ("s1", &[], &["3", "4"]), ("s2", &[], &["5"])]);
    let mut sim = Sim::new(stream, "w1", 1000, 1);
    sim.run_until_complete(10);
    assert_eq!(sim.seqs("s0"), vec!["1", "2"]);
    assert_eq!(sim.seqs("s1"), vec!["3", "4"]);
    assert_eq!(sim.seqs("s2"), vec!["5"]);
    assert_eq!(sim.delivered.len(), 5, "every shard processed exactly once");
    assert_eq!(sim.metrics.max_delivering, 3);
}

#[test]
fn fleet_respects_parent_before_child() {
    let mut sim = Sim::new(fixed(&[("c", &["p"], &["2"]), ("p", &[], &["1"])]), "w1", 1000, 1);
    sim.run_until_complete(10);
    assert_eq!(sim.seqs("p"), vec!["1"]);
    assert_eq!(sim.seqs("c"), vec!["2"]);
    assert_eq!(sim.delivered[0].0, "p");
}

#[test]
fn fleet_resumes_from_checkpoint_no_redelivery() {
    let mut sim = Sim::new(open(&["1", "2", "3"]), "w1", 100_000, 1);
    sim.run_until_complete(5);
    assert_eq!(
        sim.seqs("s0"),
        vec!["1", "2", "3"],
        "each record delivered exactly once across cycles (resumed from checkpoint)"
    );
}

#[test]
fn fleet_without_ack_does_not_advance_checkpoint() {
    let mut sim = Sim::new(open(&["1", "2", "3"]), "w1", 100_000, 1);
    sim.consume = never_ack();
    sim.run_until_complete(3);
    assert_eq!(
        sim.seqs("s0").len(),
        9,
        "3 records re-delivered across 3 cycles (checkpoint never advanced)"
    );
}

#[test]
fn release_owned_clears_our_leases_for_fast_failover() {
    let mut sim = Sim::new(nothing(), "w1", 1000, 1);
    sim.table.put("mine", row(Some("w1"), 3, false, None));
    sim.table.put("theirs", row(Some("w2"), 1, false, None));
    sim.table.put("done", row(Some("w1"), 5, true, None));
    let released = sim.release_owned();
    assert_eq!(released, 1, "only our own, non-completed lease is released");
    assert!(sim.table.rows["mine"].owner.is_none(), "our lease is now unowned");
    assert_eq!(sim.table.rows["mine"].lease_counter, 4, "counter bumped under the lock");
    assert_eq!(
        sim.table.rows["theirs"].owner.as_deref(),
        Some("w2"),
        "another worker's lease untouched"
    );
    assert!(sim.table.rows["done"].owner.is_some(), "a completed lease is not released");
}

#[test]
fn follower_does_not_call_describe_stream() {
    let mut sim =
        Sim::new(fixed(&[("s0", &[], &["1"]), ("s1", &[], &["2"])]), "w2", 1000, 1);
    sim.table.put(LEADER_LEASE_KEY, row(Some("leader-x"), 5, false, None));
    sim.table.put("s0", row(None, 0, false, None));
    sim.table.put("s1", row(None, 0, false, None));
    sim.run_cycle(0);
    assert_eq!(sim.metrics.described, 0, "follower must not call DescribeStream");
    assert_eq!(sim.seqs("s0"), vec!["1"]);
    assert_eq!(sim.seqs("s1"), vec!["2"]);
}

#[test]
fn leader_publishes_shards_and_gates_child_on_parent() {
    let mut sim = Sim::new(fixed(&[("c", &["p"], &["2"]), ("p", &[], &["1"])]), "w1", 1000, 1);
    sim.run_until_complete(10);
    assert!(sim.metrics.described >= 1);
    assert!(sim.table.rows.contains_key("c"));
    assert_eq!(sim.seqs("p"), vec!["1"]);
    assert_eq!(sim.seqs("c"), vec!["2"]);
}

#[test]
fn leader_seeds_once_then_uses_child_shards_filter() {
    let stream =
        fixed(&[("g0", &[], &["1"]), ("g1", &["g0"], &["2"]), ("g2", &["g1"], &["3"])]);
    let mut sim = Sim::new(stream, "w1", 1000, 1);
    sim.run_until_complete(10);
    assert_eq!(sim.seqs("g0"), vec!["1"]);
    assert_eq!(sim.seqs("g1"), vec!["2"]);
    assert_eq!(sim.seqs("g2"), vec!["3"]);
    assert_eq!(sim.metrics.described, 1, "exactly one full DescribeStream (seed)");
    assert!(
        sim.metrics.children_described >= 2,
        "children found via CHILD_SHARDS, not full scans"
    );
}

struct LagStream;

impl Stream for LagStream {
    fn describe(&self) -> Option<Vec<ShardMeta>> {
        Some(vec![shard("s0", &[])])
    }
    fn read(&mut self, _shard: &str, after: Option<&str>) -> Option<RecordBatch> {
        if after.is_some() {
            return Some(RecordBatch {
                records: vec![],
                shard_end: true,
                millis_behind_latest: None,
            });
        }
        Some(RecordBatch {
            records: vec![rec("s0", "1"), rec("s0", "2")],
            shard_end: false,
            millis_behind_latest: Some(1234),
        })
    }
}

#[test]
fn fleet_emits_metrics_to_sink() {
    let mut sim = Sim::new(LagStream, "w1", 1000, 1);
    sim.run_until_complete(5);
    assert_eq!(sim.metrics.batches.len(), 1, "one non-empty batch delivered");
    let (shard, records, bytes, lag) = &sim.metrics.batches[0];
    assert_eq!(shard, "s0");
    assert_eq!(*records, 2, "2 records");
    assert_eq!(*bytes, 0, "empty payloads in this fake → 0 bytes");
    assert_eq!(*lag, Some(1234), "MillisBehindLatest forwarded to the sink");
    assert!(sim.metrics.described >= 1, "leader DescribeStream counted");
    assert_eq!(sim.metrics.shard_ends, 1, "shard-end emitted once");
}

// ---- the processing pool ----

fn conc_sim(n: usize, cap: Option<usize>) -> Sim {
    Sim::new(roots(n), "w1", 100_000, 1).capped(cap)
}

fn distinct_shards(sim: &Sim) -> usize {
    let mut got: Vec<String> = sim.delivered.iter().map(|(s, _)| s.clone()).collect();
    got.sort();
    got.dedup();
    got.len()
}

#[test]
fn max_processing_concurrency_caps_concurrent_deliver() {
    let mut sim = conc_sim(6, Some(2));
    sim.run_until_complete(10);
    assert!(
        sim.metrics.max_delivering <= 2,
        "observed concurrency {} exceeded the cap of 2",
        sim.metrics.max_delivering
    );
    assert_eq!(distinct_shards(&sim), 6, "every shard processed (no starvation)");
}

#[test]
fn max_processing_concurrency_none_is_unbounded() {
    let mut sim = conc_sim(6, None);
    sim.run_until_complete(10);
    assert_eq!(sim.delivered.len(), 6, "all shards delivered");
    assert!(sim.metrics.max_delivering > 2, "unbounded run should exceed 2 at once");
}

#[test]
fn set_max_processing_concurrency_grows_and_shrinks() {
    let mut sim = conc_sim(1, Some(2));
    assert_eq!(sim.fleet.processing_limit, Some(2));
    sim.fleet.set_max_processing_concurrency(5);
    assert_eq!(sim.fleet.processing_limit, Some(5), "grew to a 5-worker pool");
    sim.fleet.set_max_processing_concurrency(1);
    assert_eq!(sim.fleet.processing_limit, Some(1), "shrank to a 1-worker pool");
    sim.fleet.set_max_processing_concurrency(0);
    assert_eq!(sim.fleet.processing_limit, Some(1), "never below one");
}

#[test]
fn set_max_processing_concurrency_noop_on_unbounded() {
    let mut sim = conc_sim(1, None);
    assert!(sim.fleet.processing_limit.is_none());
    sim.fleet.set_max_processing_concurrency(4);
    assert!(sim.fleet.processing_limit.is_none());
}

#[test]
fn cap_one_fully_serializes() {
    let mut sim = conc_sim(5, Some(1));
    sim.run_until_complete(10);
    assert_eq!(sim.metrics.max_delivering, 1, "cap=1 must serialize processing");
    assert_eq!(sim.delivered.len(), 5, "all shards processed");
}

#[test]
fn cap_larger_than_shard_count_is_unbounded_in_effect() {
    let mut sim = conc_sim(3, Some(100));
    sim.run_until_complete(10);
    assert_eq!(sim.delivered.len(), 3);
    assert!(sim.metrics.max_delivering <= 3, "cannot exceed shard count");
}

#[test]
fn cap_zero_is_treated_as_unbounded() {
    let mut sim = conc_sim(2, Some(0));
    assert!(sim.fleet.processing_limit.is_none(), "Some(0) must map to unbounded");
    sim.run_until_complete(10);
    assert!(sim.shards_complete());
}

#[test]
fn many_shards_small_cap_bounds_and_completes() {
    let mut sim = conc_sim(50, Some(4));
    sim.run_until_complete(10);
    assert!(
        sim.metrics.max_delivering <= 4,
        "observed {} > cap 4",
        sim.metrics.max_delivering
    );
    assert_eq!(distinct_shards(&sim), 50, "every one of 50 shards processed");
}

#[test]
fn cap_no_state_leak_on_ack_path() {
    let mut sim = conc_sim(8, Some(3));
    sim.run_until_complete(10);
    assert!(
        sim.fleet.schedule.next_due().is_none(),
        "ended shards must leave the poll schedule"
    );
    sim.run_until_complete(10);
}

#[test]
fn cap_no_state_leak_on_none_ack_path() {
    let mut sim = conc_sim(6, Some(2));
    sim.consume = never_ack();
    sim.run_until_complete(10);
    assert!(sim.shards_complete());
}

#[test]
fn cap_does_not_gate_idle_shards() {
    let stream = fixed(&[("s0", &[], &["1"]), ("s1", &[], &[]), ("s2", &[], &[])]);
    let mut sim = Sim::new(stream, "w1", 100_000, 1).capped(Some(1));
    sim.run_until_complete(10);
    for s in ["s0", "s1", "s2"] {
        assert!(sim.table.rows.get(s).map(|r| r.completed).unwrap_or(false), "{s} complete");
    }
    assert_eq!(sim.delivered, vec![("s0".to_string(), "1".to_string())]);
}

#[test]
fn cap_preserves_per_shard_order() {
    let seqs: &[&str] = &["1", "2", "3", "4"];
    let stream = fixed(&[("s0", &[], seqs), ("s1", &[], seqs), ("s2", &[], seqs)]);
    let mut sim = Sim::new(stream, "w1", 100_000, 1).capped(Some(2));
    sim.run_until_complete(10);
    for s in ["s0", "s1", "s2"] {
        assert_eq!(sim.seqs(s), vec!["1", "2", "3", "4"], "{s} in-order under cap");
    }
}

#[test]
fn cap_preserves_resume_no_redelivery() {
    let mut sim = Sim::new(open(&["1", "2", "3"]), "w1", 100_000, 1).capped(Some(1));
    sim.run_until_complete(4);
    assert_eq!(
        sim.seqs("s0"),
        vec!["1", "2", "3"],
        "each record delivered exactly once across cycles under cap=1"
    );
}

#[test]
fn resize_takes_effect_next_cycle() {
    let mut sim = conc_sim(6, Some(3));
    sim.fleet.set_max_processing_concurrency(1);
    assert_eq!(sim.fleet.processing_limit, Some(1));
    sim.run_until_complete(10);
    assert!(
        sim.metrics.max_delivering <= 1,
        "post-shrink run observed {} concurrent deliveries (pool=1)",
        sim.metrics.max_delivering
    );
}

#[test]
fn cap_emits_slot_wait_and_gauge_metrics() {
    let mut sim = conc_sim(6, Some(2));
    sim.run_until_complete(10);
    assert_eq!(sim.metrics.max_concurrency, 2, "configured cap reported as a gauge");
    assert_eq!(sim.metrics.slot_waits, 6, "one slot-wait sample per delivered batch");
    assert_eq!(sim.metrics.max_queue_depth, 6, "the 6 due shards at pool start");
}

#[test]
fn pool_bounds_concurrent_fetches() {
    let mut sim = conc_sim(8, Some(2));
    sim.fetch_ns = 10 * MS;
    sim.run_until_complete(10);
    let observed = sim.metrics.max_fetching;
    assert!(
        observed <= 2,
        "observed {observed} concurrent GetRecords calls; pool=2 must bound the fetch"
    );
    assert_eq!(distinct_shards(&sim), 8, "every shard still processed");
}

#[test]
fn unbounded_fetches_exceed_two_proving_probe_sensitivity() {
    let mut sim = conc_sim(8, None);
    sim.fetch_ns = 10 * MS;
    sim.run_until_complete(10);
    assert!(sim.metrics.max_fetching > 2, "unbounded run should overlap more than 2 fetches");
}

struct IdleOpen {
    polls: Rc<RefCell<usize>>,
}

impl Stream for IdleOpen {
    fn describe(&self) -> Option<Vec<ShardMeta>> {
        Some(vec![shard("s0", &[])])
    }
    fn read(&mut self, _shard: &str, _after: Option<&str>) -> Option<RecordBatch> {
        *self.polls.borrow_mut() += 1;
        Some(RecordBatch { records: vec![], shard_end: false, millis_behind_latest: None })
    }
}

#[test]
fn idle_shard_backs_off_across_cycles() {
    let polls = Rc::new(RefCell::new(0));
    let mut sim = Sim::new(IdleOpen { polls: polls.clone() }, "w1", 100_000, 40).capped(Some(2));
    sim.run_until_complete(12);
    let n = *polls.borrow();
    assert!(
        (1..=6).contains(&n),
        "expected backed-off polling (1..=6 polls over 12 cycles), got {n}"
    );
}

#[test]
fn queued_shard_keeps_lease_and_counter_coherent_under_strict_locking() {
    let mut sim = Sim::new(roots(2), "w1", 600, 1).capped(Some(1));
    sim.deliver_ns = 300 * MS;
    sim.run_until_complete(6);
    let mut got: Vec<String> = sim.delivered.iter().map(|(s, _)| s.clone()).collect();
    got.sort();
    assert_eq!(
        got,
        vec!["s0".to_string(), "s1".to_string()],
        "both shards delivered — queued shard survived the wait under strict locking"
    );
    assert!(sim.table.renews >= 1, "the queued lease was renewed");
    assert!(
        sim.table
            .rows
            .values()
            .filter(|r| is_shard_key(&r.lease_key))
            .all(|r| r.completed && r.checkpoint.is_some()),
        "both shards checkpointed and completed"
    );
    assert_eq!(sim.metrics.lost, 0);
}

// ---- deferred checkpoints ----

struct Paged {
    records: Vec<Record>,
}

impl Stream for Paged {
    fn describe(&self) -> Option<Vec<ShardMeta>> {
        Some(vec![shard("s0", &[])])
    }
    fn read(&mut self, _shard: &str, after: Option<&str>) -> Option<RecordBatch> {
        let rest = after_token(&self.records, after);
        let shard_end = rest.len() <= 1;
        Some(RecordBatch {
            records: rest.into_iter().take(1).collect(),
            shard_end,
            millis_behind_latest: None,
        })
    }
}

fn paged_records(n: usize) -> Vec<Record> {
    (1..=n).map(|i| rec("s0", &format!("{i:04}"))).collect()
}

fn defer_sim(n_records: usize, interval_ms: Option<u64>) -> Sim {
    Sim::new(Paged { records: paged_records(n_records) }, "w1", 100_000, 1)
        .deferring(interval_ms)
}

#[test]
fn no_interval_checkpoints_every_batch() {
    let mut sim = defer_sim(20, None);
    sim.run_until_complete(10);
    assert_eq!(sim.table.checkpoints, 20, "per-batch checkpointing when interval is unset");
    assert!(sim.table.rows["s0"].completed);
    assert_eq!(sim.table.rows["s0"].checkpoint.as_deref(), Some("0020"));
}

#[test]
fn interval_defers_checkpoints_and_flushes_at_shard_end() {
    let mut sim = defer_sim(20, Some(60_000));
    sim.run_until_complete(10);
    assert_eq!(
        sim.table.checkpoints, 1,
        "single flush at shard end instead of 20 per-batch writes"
    );
    assert!(sim.table.rows["s0"].completed);
    assert_eq!(
        sim.table.rows["s0"].checkpoint.as_deref(),
        Some("0020"),
        "shard-end flush persists the final acked seq before mark_complete"
    );
}

#[test]
fn interval_elapsed_persists_midstream() {
    let mut sim = defer_sim(10, Some(1));
    sim.fetch_ns = 3 * MS;
    sim.run_until_complete(10);
    let n = sim.table.checkpoints;
    assert!(
        (2..=10).contains(&n),
        "expected midstream interval persists (2..=10 writes), got {n}"
    );
    assert_eq!(sim.table.rows["s0"].checkpoint.as_deref(), Some("0010"));
}

struct Trickle {
    all: Vec<Record>,
    visible: usize,
}

impl Stream for Trickle {
    fn describe(&self) -> Option<Vec<ShardMeta>> {
        Some(vec![shard("s0", &[])])
    }
    fn read(&mut self, _shard: &str, after: Option<&str>) -> Option<RecordBatch> {
        let upto = self.visible.min(self.all.len());
        self.visible += 1;
        let idx = match after {
            None => 0,
            Some(tok) => match self.all.iter().position(|r| r.seq == tok) {
                Some(i) => i + 1,
                None => 0,
            },
        };
        Some(RecordBatch {
            records: self.all[idx..upto].to_vec(),
            shard_end: upto == self.all.len(),
            millis_behind_latest: None,
        })
    }
}

#[test]
fn deferred_resume_does_not_redeliver_across_passes() {
    let stream = Trickle { all: paged_records(6), visible: 1 };
    let mut sim = Sim::new(stream, "w1", 100_000, 1).deferring(Some(60_000));
    sim.run_until_complete(20);
    let mut got = sim.seqs("s0");
    let total = got.len();
    got.sort();
    got.dedup();
    assert_eq!(
        (got.len(), total),
        (6, 6),
        "each record served exactly once across cycles under deferral"
    );
}

#[test]
fn release_owned_flushes_pending_checkpoint() {
    let stream = Fixed {
        metas: vec![shard("s0", &[])],
        data: HashMap::from([("s0".to_string(), paged_records(5))]),
        ends: false,
    };
    let mut sim = Sim::new(stream, "w1", 100_000, 1).deferring(Some(60_000));
    sim.run_until_complete(1);
    assert_eq!(sim.table.checkpoints, 0, "nothing persisted before release");
    let released = sim.release_owned();
    assert!(released >= 1, "shard lease released (leader sentinel may also count)");
    assert_eq!(
        sim.table.rows["s0"].checkpoint.as_deref(),
        Some("0005"),
        "release flushed the pending high-water mark"
    );
    assert!(sim.table.rows["s0"].owner.is_none(), "lease released");
}

// ---- passes that do not go well ----

#[test]
fn a_failed_delivery_stops_the_pass_and_saves_nothing() {
    let mut sim = Sim::new(open(&["1"]), "w1", 100_000, 1).deferring(Some(60_000));
    sim.consume = Box::new(|_, _| Err(()));
    sim.run_until_complete(1);
    assert_eq!(sim.table.checkpoints, 0);
    assert_eq!(sim.table.rows["s0"].checkpoint, None);
    assert_eq!(sim.fleet.defer.as_ref().unwrap().resume_from("s0"), None);
    assert!(sim.metrics.batches.is_empty());
}

#[test]
fn a_refused_checkpoint_reports_a_lost_lease() {
    let (mut pass, effects) = ShardPass::start("s", 4, &None, &None);
    assert!(matches!(effects[..], [PassEffect::Fetch(None)]));
    let batch = RecordBatch {
        records: vec![Record { shard_id: "s".into(), seq: "9".into(), data: vec![1, 2, 3] }],
        shard_end: false,
        millis_behind_latest: None,
    };
    let effects = pass.step(PassEvent::Fetched(batch), &mut None, 0);
    assert!(matches!(effects[..], [PassEffect::Deliver]));
    let effects = pass.step(PassEvent::Delivered(Some("9".into())), &mut None, 0);
    match &effects[..] {
        [PassEffect::Checkpoint(c, s)] => assert_eq!((*c, s.as_str()), (4, "9")),
        other => panic!("unexpected {other:?}"),
    }
    let effects = pass.step(PassEvent::PersistFailed, &mut None, 0);
    assert!(matches!(
        effects[..],
        [
            PassEffect::ReportLost,
            PassEffect::TellLost,
            PassEffect::Finish(PassOutcome::Stopped)
        ]
    ));
    assert!(pass.step(PassEvent::FetchFailed, &mut None, 0).is_empty(), "it is over");
}

#[test]
fn payload_bytes_are_reported() {
    let (mut pass, _) = ShardPass::start("s", 1, &Some("8".into()), &None);
    let batch = RecordBatch {
        records: vec![
            Record { shard_id: "s".into(), seq: "9".into(), data: vec![1, 2, 3] },
            Record { shard_id: "s".into(), seq: "10".into(), data: vec![4] },
        ],
        shard_end: true,
        millis_behind_latest: Some(5),
    };
    pass.step(PassEvent::Fetched(batch), &mut None, 0);
    let effects = pass.step(PassEvent::Delivered(None), &mut None, 0);
    match &effects[..] {
        [PassEffect::ReportBatch(n, b, lag), PassEffect::TellEnded, PassEffect::MarkComplete(c), PassEffect::ReportEnd, PassEffect::Finish(o)] =>
        {
            assert_eq!((*n, *b, *lag, *c), (2, 4, Some(5), 1));
            assert_eq!(*o, PassOutcome::Ended);
        }
        other => panic!("unexpected {other:?}"),
    }
}

// ---- cycles that do not go well ----

#[test]
fn a_failed_scan_ends_the_cycle_and_the_next_one_goes_on() {
    for failing in 1..=3 {
        let mut sim = Sim::new(roots(2), "w1", 1000, 1);
        sim.table.failing_scan = Some(failing);
        assert_eq!(sim.try_cycle(0), None);
        assert!(sim.delivered.is_empty());
        sim.run_until_complete(10);
        assert_eq!(distinct_shards(&sim), 2);
    }
}

struct Undescribed;

impl Stream for Undescribed {
    fn describe(&self) -> Option<Vec<ShardMeta>> {
        None
    }
    fn read(&mut self, _shard: &str, _after: Option<&str>) -> Option<RecordBatch> {
        None
    }
}

#[test]
fn a_failed_seed_ends_the_cycle_and_is_retried() {
    let mut sim = Sim::new(Undescribed, "w1", 1000, 1);
    assert_eq!(sim.try_cycle(0), None);
    assert_eq!(sim.try_cycle(1), None);
    assert_eq!(sim.metrics.described, 2);
    sim.stream = Box::new(roots(1));
    sim.run_until_complete(10);
    assert!(sim.shards_complete());
    assert_eq!(sim.metrics.held, 0);
}

#[test]
fn an_answer_that_is_not_waited_for_ends_the_cycle() {
    let mut sim = Sim::new(nothing(), "w1", 1000, 1);
    let (mut run, effects) = sim.fleet.run_cycle();
    assert!(matches!(effects[..], [RunEffect::Scan]));
    let effects = run.step(
        RunEvent::Processed,
        &mut sim.fleet,
        &mut sim.coordinator,
        &mut sim.leadership,
        0,
        0,
    );
    assert!(matches!(effects[..], [RunEffect::Fail]));
    let effects = run.step(
        RunEvent::Scanned(None),
        &mut sim.fleet,
        &mut sim.coordinator,
        &mut sim.leadership,
        0,
        0,
    );
    assert!(effects.is_empty(), "it is over");
}

#[test]
fn two_members_share_a_stream() {
    let mut a = Sim::new(roots(4), "a", 1000, 1);
    let mut b = Sim::new(open(&[]), "b", 1000, 1);
    for (k, o) in [("s0", "a"), ("s1", "a"), ("s2", "a"), ("s3", "a")] {
        a.table.put(k, row(Some(o), 1, false, None));
    }
    a.table.put(LEADER_LEASE_KEY, row(Some("a"), 1, false, None));
    a.table.apply(&LeaseWrite::heartbeat("a"));
    std::mem::swap(&mut a.table, &mut b.table);
    b.run_cycle(0);
    let mine = b.fleet.owned_shards(&b.table.list());
    assert_eq!(mine.len(), 2, "the late member steals its fair share");
    assert_eq!(b.metrics.described, 0);
}

// ---- members that fail ----

#[test]
fn a_crash_at_any_record_loses_nothing() {
    for interval in [None, Some(10_000)] {
        for failing in 1..=5 {
            let mut a = Sim::new(Paged { records: paged_records(5) }, "a", 1000, 1);
            a = a.deferring(interval);
            let mut left = failing;
            a.consume = Box::new(move |_, records| {
                left -= 1;
                if left == 0 {
                    Err(())
                } else {
                    Ok(batch_ack(records))
                }
            });
            a.run_cycle(0);
            let reached = a.table.rows["s0"].checkpoint.clone();

            let mut b = Sim::new(Paged { records: paged_records(5) }, "b", 1000, 1);
            std::mem::swap(&mut a.table, &mut b.table);
            for now_ms in [0, 2000, 4000] {
                b.run_cycle(now_ms);
            }
            assert!(b.table.rows["s0"].completed);
            assert!(b.table.rows["s0"].checkpoint >= reached, "the checkpoint only advances");
            let (first, second) = (a.seqs("s0"), b.seqs("s0"));
            for r in paged_records(5) {
                assert!(first.contains(&r.seq) || second.contains(&r.seq), "{} is lost", r.seq);
            }
            if interval.is_none() {
                let rest: Vec<String> =
                    paged_records(5)[failing - 1..].iter().map(|r| r.seq.clone()).collect();
                assert_eq!(second, rest, "the successor goes on after the checkpoint");
            }
        }
    }
}

#[test]
fn nothing_stays_pending_of_a_shard_that_is_claimed_back() {
    let mut sim = defer_sim(8, Some(100_000));
    sim.fleet.defer.as_mut().unwrap().record_ack("s0", "0003", 0);
    // meanwhile another member went further and gave the lease up
    sim.table.put("s0", row(None, 5, false, Some("0005")));
    sim.run_cycle(0);
    assert_eq!(sim.seqs("s0"), vec!["0006", "0007", "0008"]);
    assert_eq!(sim.table.rows["s0"].checkpoint.as_deref(), Some("0008"));
}

#[test]
fn a_late_write_cannot_set_the_checkpoint_back() {
    let mut table = Table::default();
    table.put("s", row(Some("a"), 3, false, Some("0001")));
    assert_eq!(table.apply(&LeaseWrite::claim("s", "b", 3)), Some(4));
    assert_eq!(table.apply(&LeaseWrite::checkpoint("s", "b", 4, "0004")), Some(5));
    assert_eq!(table.apply(&LeaseWrite::checkpoint("s", "a", 3, "0002")), None);
    assert_eq!(table.apply(&LeaseWrite::mark_complete("s", "a", 3)), None);
    assert_eq!(table.rows["s"].checkpoint.as_deref(), Some("0004"));
    assert!(!table.rows["s"].completed);
}

#[test]
fn a_child_gets_no_lease_while_its_parent_is_open() {
    let mut stream = fixed(&[("p", &[], &["1"]), ("c", &["p"], &["2"])]);
    stream.ends = false;
    let mut sim = Sim::new(stream, "w1", 100_000, 1);
    sim.run_until_complete(3);
    assert_eq!(sim.seqs("p"), vec!["1"]);
    assert!(!sim.table.rows.contains_key("c"));
    assert!(sim.seqs("c").is_empty());
}

fn due(shard: &str, counter: u64, last_renewed: u64) -> PoolItem {
    PoolItem { shard: shard.into(), counter, checkpoint: None, enqueued: 0, last_renewed }
}

#[test]
fn a_pool_finishes_every_shard_whose_lease_it_keeps() {
    let mut pool = Pool::new(vec![due("a", 1, 0), due("b", 2, 0), due("c", 3, 0)], 2);
    assert!(matches!(pool.claim(0), Claim::Item(i) if i.shard == "a"));
    // the other two wait for a third of the lease duration: they are renewed
    let asked = pool.begin_renewal(200 * MS, 600);
    let asked: Vec<(String, u64)> = asked.into_iter().map(|r| (r.shard, r.counter)).collect();
    assert_eq!(asked, vec![("b".to_string(), 2), ("c".to_string(), 3)]);
    assert!(matches!(pool.claim(1), Claim::Wait), "a slot does not leave meanwhile");
    pool.finish_renewal(&vec![Some(Renewed { counter: 5, at_ns: 200 * MS }), None]);
    assert!(matches!(pool.claim(1), Claim::Item(i) if i.shard == "b" && i.counter == 5));
    pool.finish(1, PassOutcome::Ended);
    pool.finish(0, PassOutcome::Stopped);
    assert!(matches!(pool.claim(0), Claim::Done));
    assert!(matches!(pool.claim(1), Claim::Done));
    assert_eq!(pool.size(), 2);
    assert_eq!(
        *pool.outcomes(),
        vec![
            ("b".to_string(), PassOutcome::Ended),
            ("a".to_string(), PassOutcome::Stopped)
        ]
    );
}

// ---- leadership ----

fn leader(owner: &str, counter: u64) -> RawLease {
    RawLease { lease_key: LEADER_LEASE_KEY.into(), ..row(Some(owner), counter, false, None) }
}

#[test]
fn a_live_leader_is_left_alone_and_a_stalled_one_replaced() {
    let mut l = Leadership::new("w1", 1000);
    assert_eq!(l.decide(&[], 0), LeaderBid::Create);
    assert!(!l.settle(None));
    assert_eq!(l.decide(&[leader("x", 5)], 0), LeaderBid::Follow);
    assert_eq!(l.decide(&[leader("x", 6)], 5_000), LeaderBid::Follow, "it renews");
    assert_eq!(l.decide(&[leader("x", 6)], 6_000), LeaderBid::Follow);
    assert_eq!(l.decide(&[leader("x", 6)], 6_001), LeaderBid::Steal { seen: 6 });
    assert!(l.settle(Some(7)));
    assert_eq!(l.decide(&[leader("w1", 7)], 6_002), LeaderBid::Renew { base: 7 });
    let released = RawLease { owner: None, ..leader("x", 9) };
    assert_eq!(l.decide(&[released], 6_003), LeaderBid::Steal { seen: 9 });
}

// ---- discovery that fails ----

fn table_row(key: &str, completed: bool, checkpoint: Option<&str>, parents: &[&str]) -> RawLease {
    RawLease {
        lease_key: key.into(),
        parents: parents.iter().map(|p| p.to_string()).collect(),
        ..row(None, 0, completed, checkpoint)
    }
}

#[test]
fn failed_discovery_falls_back_and_is_retried() {
    let mut memory = SyncState::new();
    let mut round = ShardSync::start(&[], &memory);
    assert!(matches!(round.action(), SyncAction::Describe));
    assert!(round.answer(&None, &[], &mut memory, InitialPosition::Latest).is_empty());
    assert!(!memory.seeded, "a failed seed is retried");

    let mut round = ShardSync::start(&[], &memory);
    let all = Some(vec![shard("p", &[]), shard("c", &["p"])]);
    let created = round.answer(&all, &[], &mut memory, InitialPosition::Latest);
    assert_eq!(created.len(), 1, "the child waits for its parent");
    assert_eq!(created[0].id, "p");
    assert_eq!(created[0].checkpoint.as_deref(), Some("LATEST"));
    assert!(memory.seeded);

    let rows = vec![table_row("p", true, Some("LATEST"), &[])];
    let mut round = ShardSync::start(&rows, &memory);
    assert!(matches!(round.action(), SyncAction::DescribeChildren(_)));
    assert!(round.answer(&None, &rows, &mut memory, InitialPosition::Latest).is_empty());
    assert!(matches!(round.action(), SyncAction::Describe), "a full description instead");
    let created = round.answer(&all, &rows, &mut memory, InitialPosition::Latest);
    assert_eq!(created.len(), 1);
    assert_eq!(created[0].id, "c");
    assert_eq!(
        created[0].checkpoint.as_deref(),
        Some("LATEST"),
        "the parent ended without a record: its start mode is inherited"
    );
    assert!(matches!(round.action(), SyncAction::Done));
    assert!(
        matches!(ShardSync::start(&rows, &memory).action(), SyncAction::DescribeChildren(_)),
        "it was not marked as asked for"
    );

    let mut round = ShardSync::start(&rows, &memory);
    round.answer(&Some(vec![]), &rows, &mut memory, InitialPosition::Latest);
    assert!(
        matches!(ShardSync::start(&rows, &memory).action(), SyncAction::Done),
        "a childless parent is asked about once"
    );
    let rows = vec![table_row("p", true, Some("7"), &[]), table_row("c", false, None, &["p"])];
    let fresh = SyncState { seeded: true, ..SyncState::new() };
    assert!(
        matches!(ShardSync::start(&rows, &fresh).action(), SyncAction::Done),
        "a parent with published children is not asked about"
    );
}

#[test]
fn a_child_takes_the_start_mode_only_from_parents_without_a_record() {
    let all = Some(vec![shard("p", &[]), shard("c", &["p"])]);
    for (checkpoint, expected) in [(Some("100"), None), (Some("LATEST"), Some("LATEST"))] {
        let rows = vec![table_row("p", true, checkpoint, &[])];
        let mut memory = SyncState::new();
        let mut round = ShardSync::start(&rows, &memory);
        let created = round.answer(&all, &rows, &mut memory, InitialPosition::Latest);
        assert_eq!(created.len(), 1);
        assert_eq!(created[0].id, "c");
        assert_eq!(created[0].checkpoint.as_deref(), expected);
    }
}

#[test]
fn a_merge_child_waits_for_its_last_parent() {
    let child = Some(vec![shard("c", &["p1", "p2"])]);
    let mut memory = SyncState { seeded: true, ..SyncState::new() };
    let rows = vec![table_row("p1", true, None, &[]), table_row("p2", false, None, &[])];
    let mut round = ShardSync::start(&rows, &memory);
    assert!(matches!(round.action(), SyncAction::DescribeChildren(p) if p == "p1"));
    assert!(round.answer(&child, &rows, &mut memory, InitialPosition::default()).is_empty());
    assert!(matches!(round.action(), SyncAction::Done));
    assert!(
        matches!(ShardSync::start(&rows, &memory).action(), SyncAction::Done),
        "nobody is asked twice"
    );

    let rows = vec![table_row("p1", true, None, &[]), table_row("p2", true, None, &[])];
    let mut round = ShardSync::start(&rows, &memory);
    assert!(matches!(round.action(), SyncAction::DescribeChildren(p) if p == "p2"));
    let created = round.answer(&child, &rows, &mut memory, InitialPosition::default());
    assert_eq!(created.len(), 1);
    assert_eq!(created[0].id, "c");
    assert_eq!(created[0].parents, vec!["p1", "p2"]);
    assert!(matches!(ShardSync::start(&rows, &memory).action(), SyncAction::Done));
}

#[test]
fn a_deleted_parent_does_not_hold_back_a_merge_child() {
    let child = Some(vec![shard("c", &["p1", "p2"])]);
    let done = table_row("p2", true, None, &[]);

    let mut memory = SyncState { seeded: true, child_synced: set(&["p1"]) };
    let rows = vec![done.clone()];
    let mut round = ShardSync::start(&rows, &memory);
    assert!(matches!(round.action(), SyncAction::DescribeChildren(p) if p == "p2"));
    let created = round.answer(&child, &rows, &mut memory, InitialPosition::Latest);
    assert_eq!(created.len(), 1, "p1 was asked about, so it was complete");
    assert_eq!(created[0].id, "c");
    assert_eq!(created[0].checkpoint, None, "nothing is known of how p1 ended");

    let mut memory = SyncState { seeded: true, ..SyncState::new() };
    let rows = vec![table_row("d", false, Some("7"), &["p1"]), done.clone()];
    let mut round = ShardSync::start(&rows, &memory);
    let created = round.answer(&child, &rows, &mut memory, InitialPosition::Latest);
    assert_eq!(created.len(), 1, "a lease names p1 as a parent, so it was complete");

    let mut memory = SyncState { seeded: true, ..SyncState::new() };
    let rows = vec![done.clone()];
    let mut round = ShardSync::start(&rows, &memory);
    let created = round.answer(&child, &rows, &mut memory, InitialPosition::Latest);
    assert!(created.is_empty(), "p1 may be unpublished yet");

    let mut memory = SyncState { seeded: true, child_synced: set(&["p1"]) };
    let rows = vec![table_row("p1", false, None, &[]), done];
    let mut round = ShardSync::start(&rows, &memory);
    let created = round.answer(&child, &rows, &mut memory, InitialPosition::Latest);
    assert!(created.is_empty(), "the lease of p1 says that it is not complete");
}

#[test]
fn the_initial_position_is_for_a_table_without_shards() {
    let all = Some(vec![shard("old", &[]), shard("late", &[])]);
    for (key, expected) in
        [(LEADER_LEASE_KEY, Some("LATEST")), ("__hb__:w1", Some("LATEST")), ("old", None)]
    {
        let rows = vec![table_row(key, false, None, &[])];
        let mut memory = SyncState::new();
        let mut round = ShardSync::start(&rows, &memory);
        let created = round.answer(&all, &rows, &mut memory, InitialPosition::Latest);
        let late = created.iter().find(|l| l.id == "late").unwrap();
        assert_eq!(late.checkpoint.as_deref(), expected, "beside {key}");
    }
}

#[test]
fn a_drain_ends_at_its_limit_or_before() {
    assert_eq!(Drain::start(0).1, DrainAction::Finish);
    let (mut d, a) = Drain::start(2);
    assert_eq!(a, DrainAction::RunCycle);
    assert_eq!(d.step(DrainEvent::Cycled(false)), DrainAction::RunCycle);
    assert_eq!(d.step(DrainEvent::Cycled(false)), DrainAction::Finish);
    let (mut d, _) = Drain::start(5);
    assert_eq!(d.step(DrainEvent::Cycled(true)), DrainAction::Finish);
    let (mut d, _) = Drain::start(5);
    assert_eq!(d.step(DrainEvent::Failed), DrainAction::Fail);
    assert_eq!(d.step(DrainEvent::Cycled(false)), DrainAction::Finish);
}

#[test]
fn a_cycle_leaves_the_configuration_alone() {
    let mut sim = Sim::new(roots(2), "w1", 100_000, 7);
    sim.fleet = Fleet::new(FleetConfig {
        owner: "w1".into(),
        max_leases: 9,
        lease_duration_ms: 1234,
        poll_interval_ms: 7,
        initial_position: InitialPosition::Latest,
    })
    .with_max_processing_concurrency(Some(1));
    sim.run_cycle(0);
    assert_eq!(sim.fleet.config.lease_duration_ms, 1234);
    assert_eq!(sim.fleet.config.max_leases, 9);
    assert_eq!(sim.fleet.config.poll_interval_ms, 7);
    assert_eq!(sim.fleet.config.owner, "w1");
}

#[test]
fn a_member_never_holds_more_than_its_limit() {
    for limit in 0..=3 {
        let mut stream = roots(3);
        stream.ends = false;
        let mut sim = Sim::new(stream, "w1", 100_000, 1);
        sim.fleet.config.max_leases = limit;
        sim.coordinator = LeaseCoordinator::new("w1", limit, 100_000);
        for cycle in 0..4 {
            sim.run_cycle(cycle);
            let held = sim.fleet.owned_shards(&sim.table.list()).len();
            assert_eq!(held, limit, "after cycle {cycle}");
        }
    }
}

#[test]
fn an_idle_shard_is_polled_again_within_the_ceiling() {
    let mut schedule = Schedule::new();
    let owned =
        vec![OwnedShard { shard: "s0".into(), counter: 1, checkpoint: None }];
    assert_eq!(schedule.refresh(&owned, 0).len(), 1);
    schedule.fold(&vec![("s0".to_string(), PassOutcome::Idle)], 0, 6_000);
    assert_eq!(schedule.refresh(&owned, 4_999 * MS).len(), 0);
    assert_eq!(schedule.refresh(&owned, 5_000 * MS).len(), 1);
}

// ---- the single worker ----

#[test]
fn eligible_gates_child_until_parent_complete() {
    let child = shard("c", &["p"]);
    let existing = set(&["p", "c"]);
    assert!(!eligible(&child, &set(&[]), &existing));
    assert!(eligible(&child, &set(&["p"]), &existing));
}

#[test]
fn eligible_treats_gcd_parent_as_satisfied() {
    let child = shard("c", &["p"]);
    let existing = set(&["c"]);
    assert!(eligible(&child, &set(&[]), &existing));
}

#[test]
fn eligible_merge_child_needs_all_parents_satisfied() {
    let child = shard("c", &["p1", "p2"]);
    let existing = set(&["p1", "p2", "c"]);
    assert!(!eligible(&child, &set(&["p1"]), &existing));
    assert!(eligible(&child, &set(&["p1"]), &set(&["p2_absent", "c"])));
}

/// Drive all shards to completion in dependency order.
fn run_worker(worker: &Worker, stream: &mut Fixed, table: &mut Table) -> Vec<String> {
    let mut events = vec![];
    let (mut run, mut action) = worker.run();
    loop {
        action = match action {
            WorkerAction::Describe => {
                run.step(WorkerEvent::Described(stream.describe().unwrap()))
            }
            WorkerAction::Look(key) => {
                let view = table.rows.get(&key).map(|r| LeaseView { completed: r.completed });
                run.step(WorkerEvent::Looked(view))
            }
            WorkerAction::Read(m) => {
                read_shard(worker.owner(), &m, stream, table, &mut events);
                run.step(WorkerEvent::Read)
            }
            WorkerAction::Finish(complete, progressed) => {
                assert!(complete || !progressed);
                return events;
            }
            WorkerAction::Fail => panic!("no call failed"),
        };
    }
}

fn read_shard(
    owner: &str,
    m: &ShardMeta,
    stream: &mut Fixed,
    table: &mut Table,
    events: &mut Vec<String>,
) {
    let write = match table.rows.get(&m.id) {
        None => LeaseWrite::create(&m.id, owner),
        Some(r) => LeaseWrite::claim(&m.id, owner, r.lease_counter),
    };
    let counter = table.apply(&write).unwrap();
    let checkpoint = table.rows[&m.id].checkpoint.clone();
    events.push(format!("init:{}", m.id));
    let (mut pass, mut effects) = ShardPass::start(&m.id, counter, &checkpoint, &None);
    let mut batch: Vec<Record> = vec![];
    'pass: loop {
        let mut event = None;
        for e in effects {
            match e {
                PassEffect::Fetch(after) => {
                    let b = stream.read(&m.id, after.as_deref()).unwrap();
                    batch = b.records.clone();
                    event = Some(PassEvent::Fetched(b));
                }
                PassEffect::Deliver => {
                    for r in &batch {
                        events.push(format!("rec:{}:{}", r.shard_id, r.seq));
                    }
                    event = Some(PassEvent::Delivered(batch_ack(&batch)));
                }
                PassEffect::Checkpoint(c, s) => {
                    let w = LeaseWrite::checkpoint(&m.id, owner, c, &s);
                    event = Some(PassEvent::Persisted(table.apply(&w).unwrap()));
                }
                PassEffect::TellEnded => events.push(format!("end:{}", m.id)),
                PassEffect::MarkComplete(c) => {
                    table.apply(&LeaseWrite::mark_complete(&m.id, owner, c)).unwrap();
                }
                PassEffect::Finish(_) => break 'pass,
                _ => {}
            }
        }
        effects = pass.step(event.unwrap(), &mut None, 0);
    }
}

#[test]
fn a_worker_makes_one_pass_if_asked_to() {
    let graph = || WorkerEvent::Described(vec![shard("c", &["p"]), shard("p", &[])]);
    let seen = |completed| WorkerEvent::Looked(Some(LeaseView { completed }));
    let worker = Worker::new("w1");

    let (mut run, action) = worker.run_once();
    assert!(matches!(action, WorkerAction::Describe));
    assert!(matches!(run.step(graph()), WorkerAction::Look(k) if k == "c"));
    assert!(matches!(run.step(WorkerEvent::Looked(None)), WorkerAction::Look(k) if k == "p"));
    assert!(matches!(run.step(seen(false)), WorkerAction::Read(m) if m.id == "p"));
    assert!(matches!(run.step(WorkerEvent::Read), WorkerAction::Finish(false, true)));
    assert!(matches!(run.step(WorkerEvent::Read), WorkerAction::Fail), "out of turn");

    let (mut run, _) = worker.run();
    run.step(graph());
    run.step(WorkerEvent::Looked(None));
    run.step(seen(false));
    assert!(matches!(run.step(WorkerEvent::Read), WorkerAction::Describe), "the next pass");
    run.step(graph());
    run.step(seen(true));
    assert!(matches!(run.step(seen(true)), WorkerAction::Finish(true, false)));

    let (mut run, _) = worker.run();
    let none = run.step(WorkerEvent::Described(vec![]));
    assert!(matches!(none, WorkerAction::Finish(false, false)), "no shard, no progress");
    let (mut run, _) = worker.run();
    assert!(matches!(run.step(WorkerEvent::Failed), WorkerAction::Fail));
}

#[test]
fn worker_preserves_parent_before_child_and_checkpoints() {
    let mut stream = fixed(&[("child", &["parent"], &["3"]), ("parent", &[], &["1", "2"])]);
    let mut table = Table::default();
    let events = run_worker(&Worker::new("w1"), &mut stream, &mut table);
    assert_eq!(
        events,
        vec![
            "init:parent",
            "rec:parent:1",
            "rec:parent:2",
            "end:parent",
            "init:child",
            "rec:child:3",
            "end:child",
        ]
    );
    assert_eq!(table.rows["parent"].checkpoint.as_deref(), Some("2"));
    assert!(table.rows["parent"].completed && table.rows["child"].completed);
}

#[test]
fn worker_resumes_from_existing_checkpoint() {
    let mut stream = fixed(&[("s", &[], &["10", "11", "12"])]);
    let mut table = Table::default();
    table.put("s", row(None, 3, false, Some("11")));
    let events = run_worker(&Worker::new("w1"), &mut stream, &mut table);
    assert_eq!(events, vec!["init:s", "rec:s:12", "end:s"]);
}

#[test]
fn pool_bounds_fetches_at_2000_shards() {
    let mut sim = conc_sim(2000, Some(8));
    sim.fleet.config.max_leases = 2000;
    sim.coordinator = LeaseCoordinator::new("w1", 2000, 100_000);
    sim.deliver_ns = MS;
    sim.run_until_complete(1);
    assert!(sim.metrics.max_fetching <= 8 && sim.metrics.max_delivering <= 8);
    assert_eq!(sim.metrics.max_queue_depth, 2000);
    assert_eq!(distinct_shards(&sim), 2000);
}
