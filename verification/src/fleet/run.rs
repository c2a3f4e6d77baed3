//! One coordination cycle from beginning to end: lead if possible, discover and
//! clean up as the leader, send the heartbeat, claim leases, and process the
//! shards that are held and ready.
//!
//! A cycle is a machine. It asks for effects, in order; the last one of each
//! list is answered by the next event, unless it ends the cycle. Effects that
//! are not answered are best effort: the cycle goes on if they fail.

use vstd::prelude::*;

use crate::cleanup;
use crate::collections;
use crate::coordinator::{LeaseCoordinator, RawLease, Seen};
use crate::coordinator;
use crate::fleet::cycle::{held_names, leases_to_delete, take_decisions};
use crate::fleet::cycle;
use crate::fleet::defer::Deferral;
use crate::fleet::leadership::{LeaderBid, Leadership};
use crate::fleet::leadership;
use crate::fleet::pass::PassOutcome;
use crate::fleet::pass;
use crate::fleet::pool::{idle_wait, ItemModel, OwnedModel, OwnedShard, PoolItem, ShardSched};
use crate::fleet::pool;
use crate::fleet::sync::{
    NewLease, NewLeaseModel, ShardSync, SyncAction, SyncMemory, SyncModel, SyncStage,
};
use crate::fleet::sync;
use crate::fleet::Fleet;
use crate::leader::{ShardMeta, ShardNode};
use crate::leader;
use crate::position::InitialPosition;
use crate::taker;
use crate::worker;

verus! {

/// What a cycle asks for.
pub enum RunEffect {
    /// Scan the lease table.
    Scan,
    /// Bid for leadership.
    Bid(LeaderBid),
    /// Describe the whole stream, and report that it was described.
    Describe,
    /// Describe the children of a shard, and report that it was described.
    DescribeChildren(String),
    /// Create a lease if it is absent, best effort.
    CreateLease(NewLease),
    /// Delete a completed lease, best effort.
    DeleteLease(String),
    /// Send the heartbeat, best effort.
    Heartbeat,
    /// Acquire a lease, best effort, and report it if that succeeds.
    Acquire(String),
    /// Report how many leases are held.
    ReportHeld(u64),
    /// Report the size of the processing pool.
    ReportLimit(u64),
    /// Report how many shards are queued.
    ReportDepth(u64),
    /// Run a pass over each of these shards, all at once.
    ProcessAll(Vec<OwnedShard>),
    /// Run a pass over each of these shards in a pool of so many slots.
    ProcessPooled(Vec<PoolItem>, usize),
    /// Sleep for so many nanoseconds.
    Sleep(u128),
    /// The cycle is over; all shards are complete, or not.
    Finish(bool),
    /// The last answer ended the cycle with an error.
    Fail,
}

/// What happened since the last step of a cycle.
pub enum RunEvent {
    /// The rows of the lease table; `None` if the scan failed.
    Scanned(Option<Vec<RawLease>>),
    /// The counter of the leader lease, if the bid was granted.
    Answered(Option<u64>),
    /// The described shards; `None` if the call failed.
    Described(Option<Vec<ShardMeta>>),
    /// All passes are over.
    Processed,
    /// All passes of the pool are over, with these outcomes.
    Pooled(Vec<(String, PassOutcome)>),
}

/// An effect, with text in place of strings.
pub enum RunEffectModel {
    Scan,
    Bid(LeaderBid),
    Describe,
    DescribeChildren(Seq<char>),
    CreateLease(NewLeaseModel),
    DeleteLease(Seq<char>),
    Heartbeat,
    Acquire(Seq<char>),
    ReportHeld(u64),
    ReportLimit(u64),
    ReportDepth(u64),
    ProcessAll(Seq<OwnedModel>),
    ProcessPooled(Seq<ItemModel>, usize),
    Sleep(u128),
    Finish(bool),
    Fail,
}

impl View for RunEffect {
    type V = RunEffectModel;

    open spec fn view(&self) -> RunEffectModel {
        match self {
            RunEffect::Scan => RunEffectModel::Scan,
            RunEffect::Bid(b) => RunEffectModel::Bid(*b),
            RunEffect::Describe => RunEffectModel::Describe,
            RunEffect::DescribeChildren(p) => RunEffectModel::DescribeChildren(p@),
            RunEffect::CreateLease(l) => RunEffectModel::CreateLease(l@),
            RunEffect::DeleteLease(k) => RunEffectModel::DeleteLease(k@),
            RunEffect::Heartbeat => RunEffectModel::Heartbeat,
            RunEffect::Acquire(k) => RunEffectModel::Acquire(k@),
            RunEffect::ReportHeld(n) => RunEffectModel::ReportHeld(*n),
            RunEffect::ReportLimit(k) => RunEffectModel::ReportLimit(*k),
            RunEffect::ReportDepth(n) => RunEffectModel::ReportDepth(*n),
            RunEffect::ProcessAll(w) => RunEffectModel::ProcessAll(pool::owned_models(w@)),
            RunEffect::ProcessPooled(q, k) => RunEffectModel::ProcessPooled(
                pool::item_models(q@),
                *k,
            ),
            RunEffect::Sleep(ns) => RunEffectModel::Sleep(*ns),
            RunEffect::Finish(c) => RunEffectModel::Finish(*c),
            RunEffect::Fail => RunEffectModel::Fail,
        }
    }
}

/// Effects, with text in place of strings.
pub open spec fn effects_of(s: Seq<RunEffect>) -> Seq<RunEffectModel> {
    s.map_values(|e: RunEffect| e@)
}

/// An event, with text in place of strings.
pub enum RunEventModel {
    Scanned(Option<Seq<RawLease>>),
    Answered(Option<u64>),
    Described(Option<Seq<ShardNode>>),
    Processed,
    Pooled(Seq<(Seq<char>, PassOutcome)>),
}

impl View for RunEvent {
    type V = RunEventModel;

    open spec fn view(&self) -> RunEventModel {
        match self {
            RunEvent::Scanned(Some(rows)) => RunEventModel::Scanned(Some(rows@)),
            RunEvent::Scanned(None) => RunEventModel::Scanned(None),
            RunEvent::Answered(c) => RunEventModel::Answered(*c),
            RunEvent::Described(a) => RunEventModel::Described(sync::answer_model(*a)),
            RunEvent::Processed => RunEventModel::Processed,
            RunEvent::Pooled(o) => RunEventModel::Pooled(pool::outcome_models(o@)),
        }
    }
}

/// Where a cycle stands.
pub enum RunStage {
    /// The table is being scanned, to see who leads.
    Scanning,
    /// A bid for leadership is being made.
    Bidding(Vec<RawLease>),
    /// Shards are being discovered, as the leader.
    Syncing(Vec<RawLease>, ShardSync),
    /// The table is being scanned, to see what to claim.
    Claiming,
    /// The table is being scanned, to see what is held.
    Planning,
    Processing,
    Pooling,
    Finished,
}

/// Where a cycle stands, with models in place of machines.
pub enum RunStageModel {
    Scanning,
    Bidding(Seq<RawLease>),
    Syncing(Seq<RawLease>, SyncModel),
    Claiming,
    Planning,
    Processing,
    Pooling,
    Finished,
}

/// One coordination cycle.
pub struct CycleRun {
    stage: RunStage,
}

impl View for CycleRun {
    type V = RunStageModel;

    closed spec fn view(&self) -> RunStageModel {
        match self.stage {
            RunStage::Scanning => RunStageModel::Scanning,
            RunStage::Bidding(rows) => RunStageModel::Bidding(rows@),
            RunStage::Syncing(rows, s) => RunStageModel::Syncing(rows@, s@),
            RunStage::Claiming => RunStageModel::Claiming,
            RunStage::Planning => RunStageModel::Planning,
            RunStage::Processing => RunStageModel::Processing,
            RunStage::Pooling => RunStageModel::Pooling,
            RunStage::Finished => RunStageModel::Finished,
        }
    }
}

/// What a member of the fleet remembers.
pub struct World {
    pub owner: Seq<char>,
    pub initial: InitialPosition,
    pub poll_ms: u64,
    pub max_leases: usize,
    pub limit: Option<usize>,
    pub memory: SyncMemory,
    pub deferral: Option<Deferral>,
    pub schedule: Map<Seq<char>, ShardSched>,
    /// The coordinator: whom it decides for, how much it takes, for how long a
    /// worker lives without a heartbeat, and how fresh each worker is.
    pub me: Seq<char>,
    pub max_take: usize,
    pub duration: u64,
    pub seen: Map<Seq<char>, Seen>,
    /// The bid for leadership: for whom, for how long a leader lives, how fresh
    /// it is, and the counter that is held.
    pub bidder: Seq<char>,
    pub reign: u64,
    pub leader_seen: Map<Seq<char>, Seen>,
    pub leader_counter: u64,
}

/// What a member remembers, its coordinator and its bid for leadership.
pub open spec fn world(f: Fleet, c: LeaseCoordinator, l: Leadership) -> World {
    World {
        owner: f.config.owner@,
        initial: f.config.initial_position,
        poll_ms: f.config.poll_interval_ms,
        max_leases: f.config.max_leases,
        limit: f.processing_limit,
        memory: f.sync@,
        deferral: pass::deferral(f.defer),
        schedule: f.schedule@,
        me: c.me(),
        max_take: c.max_take(),
        duration: c.duration(),
        seen: c.seen(),
        bidder: l.owner(),
        reign: l.duration(),
        leader_seen: l.seen(),
        leader_counter: l.held_counter(),
    }
}

/// The effects that create leases.
pub open spec fn creations(s: Seq<NewLeaseModel>) -> Seq<RunEffectModel> {
    s.map_values(|l: NewLeaseModel| RunEffectModel::CreateLease(l))
}

/// The effects that delete leases.
pub open spec fn deletions(s: Seq<Seq<char>>) -> Seq<RunEffectModel> {
    s.map_values(|k: Seq<char>| RunEffectModel::DeleteLease(k))
}

/// The effects that acquire leases.
pub open spec fn acquisitions(s: Seq<Seq<char>>) -> Seq<RunEffectModel> {
    s.map_values(|k: Seq<char>| RunEffectModel::Acquire(k))
}

/// The heartbeat, and the scan that shows what to claim.
pub open spec fn beat() -> Seq<RunEffectModel> {
    seq![RunEffectModel::Heartbeat, RunEffectModel::Scan]
}

/// The completed leases that the leader deletes, given a scan.
pub open spec fn tombstones(rows: Seq<RawLease>) -> Seq<Seq<char>> {
    cleanup::deletable(
        cycle::graph_of(cycle::full_rows(rows)),
        cycle::lease_states(cycle::full_rows(rows)),
    )
}

/// How the leader goes on, given where its discovery of shards stands: it asks
/// what the discovery asks for, and once that is done it cleans up.
pub open spec fn discovering(rows: Seq<RawLease>, s: SyncModel) -> (
    RunStageModel,
    Seq<RunEffectModel>,
) {
    match s.stage {
        SyncStage::Done => (RunStageModel::Claiming, deletions(tombstones(rows)) + beat()),
        SyncStage::Asking => (
            RunStageModel::Syncing(rows, s),
            seq![RunEffectModel::DescribeChildren(s.parents[0])],
        ),
        _ => (RunStageModel::Syncing(rows, s), seq![RunEffectModel::Describe]),
    }
}

/// What a scan shows of the leader.
pub open spec fn leader_freshness(w: World, rows: Seq<RawLease>, now_ms: u64) -> Map<
    Seq<char>,
    Seen,
> {
    coordinator::observed(
        w.leader_seen,
        leadership::leader_view(leadership::leader_row(coordinator::raw_rows(rows))),
        w.bidder,
        now_ms,
    )
}

/// The bid that a scan calls for.
pub open spec fn bid_of(w: World, rows: Seq<RawLease>, now_ms: u64) -> LeaderBid {
    leadership::bid_for(
        leadership::leader_row(coordinator::raw_rows(rows)),
        leader_freshness(w, rows, now_ms),
        w.bidder,
        w.reign,
        now_ms,
    )
}

/// The freshness of the workers after a scan.
pub open spec fn freshness(w: World, rows: Seq<RawLease>, now_ms: u64) -> Map<Seq<char>, Seen> {
    coordinator::observed(
        w.seen,
        cycle::without_leader(coordinator::raw_rows(rows)),
        w.me,
        now_ms,
    )
}

/// `take` is a fair set of leases to claim after a scan.
pub open spec fn fair(
    w: World,
    rows: Seq<RawLease>,
    now_ms: u64,
    take: Seq<Seq<char>>,
) -> bool {
    taker::balances(
        coordinator::snapshot(
            freshness(w, rows, now_ms),
            w.me,
            w.duration,
            cycle::without_leader(coordinator::raw_rows(rows)),
            now_ms,
        ),
        w.me,
        w.max_take as int,
        take,
    )
}

/// How many more shards a member may hold.
pub open spec fn room(w: World, rows: Seq<RawLease>) -> int {
    let held = cycle::held(cycle::full_rows(rows), w.owner).dom().len();
    if held <= w.max_leases {
        w.max_leases - held
    } else {
        0
    }
}

/// The first of some leases, at most `n` of them.
pub open spec fn admitted(take: Seq<Seq<char>>, n: int) -> Seq<Seq<char>> {
    if take.len() <= n {
        take
    } else {
        take.take(n)
    }
}

/// The cycle claims a fair set of leases, as far as it has room for them, and
/// scans once more.
pub open spec fn claims(
    w: World,
    rows: Seq<RawLease>,
    now_ms: u64,
    take: Seq<Seq<char>>,
    effects: Seq<RunEffectModel>,
) -> bool {
    fair(w, rows, now_ms, take) && effects == acquisitions(admitted(take, room(w, rows))).push(
        RunEffectModel::Scan,
    )
}

/// What is reported of a plan.
pub open spec fn reports(w: World, rows: Seq<RawLease>) -> Seq<RunEffectModel> {
    let held = RunEffectModel::ReportHeld(
        cycle::held(cycle::full_rows(rows), w.owner).dom().len() as u64,
    );
    match w.limit {
        Some(k) => seq![held, RunEffectModel::ReportLimit(k as u64)],
        None => seq![held],
    }
}

/// Every shard of a scan is complete.
pub open spec fn is_over(rows: Seq<RawLease>) -> bool {
    worker::all_done(
        cycle::graph_of(cycle::full_rows(rows)),
        cycle::completed_shards(cycle::full_rows(rows)),
    )
}

/// What a member remembers once it knows what it holds: it drops what was
/// pending of other shards. So nothing stays pending of a shard whose lease
/// moved, even if it is claimed back in the same cycle.
pub open spec fn informed(w: World, rows: Seq<RawLease>) -> World {
    World {
        deferral: match w.deferral {
            Some(d) => Some(
                d.restricted(cycle::held(cycle::full_rows(rows), w.owner).dom()),
            ),
            None => None,
        },
        ..w
    }
}

/// `at` is the earliest time at which a shard of a schedule is due.
pub open spec fn is_earliest(m: Map<Seq<char>, ShardSched>, at: u128) -> bool {
    &&& exists|s: Seq<char>| #[trigger] m.contains_key(s) && m[s].due_at == at
    &&& forall|s: Seq<char>| #[trigger] m.contains_key(s) ==> at <= m[s].due_at
}

/// The cycle sleeps for `ns` until the next shard is due.
pub open spec fn naps(m: Map<Seq<char>, ShardSched>, now_ns: u64, poll_ms: u64, ns: u128) -> bool {
    exists|at: u128|
        #[trigger] is_earliest(m, at) && ns == pool::idle_sleep(at, now_ns, poll_ms)
}

/// The step after the scan that shows what is held.
pub open spec fn plans(
    w: World,
    rows: Seq<RawLease>,
    now_ns: u64,
    after: World,
    stage: RunStageModel,
    effects: Seq<RunEffectModel>,
) -> bool {
    let known = informed(w, rows);
    let work = cycle::cycle_work(cycle::full_rows(rows), w.owner);
    if is_over(rows) {
        &&& after == known
        &&& stage == RunStageModel::Finished
        &&& effects == reports(w, rows).push(RunEffectModel::Finish(true))
    } else {
        match w.limit {
            None => {
                &&& after == known
                &&& stage == RunStageModel::Processing
                &&& effects == reports(w, rows).push(RunEffectModel::ProcessAll(work))
            },
            Some(k) => {
                let schedule = pool::refreshed(w.schedule, work, now_ns);
                let due = pool::due_items(w.schedule, work, now_ns);
                let depth = reports(w, rows).push(RunEffectModel::ReportDepth(due.len() as u64));
                &&& after == (World { schedule, ..known })
                &&& if due.len() > 0 {
                    &&& stage == RunStageModel::Pooling
                    &&& effects == depth.push(RunEffectModel::ProcessPooled(due, k))
                } else if schedule == Map::<Seq<char>, ShardSched>::empty() {
                    &&& stage == RunStageModel::Finished
                    &&& effects == depth.push(RunEffectModel::Finish(false))
                } else {
                    &&& stage == RunStageModel::Finished
                    &&& exists|ns: u128|
                        #[trigger] naps(schedule, now_ns, w.poll_ms, ns) && effects == depth.push(
                            RunEffectModel::Sleep(ns),
                        ).push(RunEffectModel::Finish(false))
                }
            },
        }
    }
}

/// One step of a cycle. A failed scan ends it with an error, and so does an
/// answer that it does not wait for.
pub open spec fn run_step(
    w: World,
    m: RunStageModel,
    e: RunEventModel,
    now_ms: u64,
    now_ns: u64,
    after: World,
    stage: RunStageModel,
    effects: Seq<RunEffectModel>,
) -> bool {
    match (m, e) {
        (RunStageModel::Scanning, RunEventModel::Scanned(Some(rows))) => {
            &&& after == (World { leader_seen: leader_freshness(w, rows, now_ms), ..w })
            &&& if bid_of(w, rows, now_ms) is Follow {
                stage == RunStageModel::Claiming && effects == beat()
            } else {
                &&& stage == RunStageModel::Bidding(rows)
                &&& effects == seq![RunEffectModel::Bid(bid_of(w, rows, now_ms))]
            }
        },
        (RunStageModel::Bidding(rows), RunEventModel::Answered(None)) => {
            &&& after == w
            &&& stage == RunStageModel::Claiming
            &&& effects == beat()
        },
        (RunStageModel::Bidding(rows), RunEventModel::Answered(Some(c))) => {
            &&& after == (World { leader_counter: c, ..w })
            &&& (stage, effects) == discovering(
                rows,
                sync::sync_start(cycle::full_rows(rows), w.memory),
            )
        },
        (RunStageModel::Syncing(rows, s), RunEventModel::Described(answer)) => if s.stage
            == SyncStage::Seeding && answer is None {
            &&& after == w
            &&& stage == RunStageModel::Finished
            &&& effects == seq![RunEffectModel::Fail]
        } else {
            let t = sync::sync_step(s, w.memory, cycle::full_rows(rows), w.initial, answer);
            &&& after == (World { memory: t.memory, ..w })
            &&& stage == discovering(rows, t.round).0
            &&& effects == creations(t.create) + discovering(rows, t.round).1
        },
        (RunStageModel::Claiming, RunEventModel::Scanned(Some(rows))) => {
            &&& after == (World { seen: freshness(w, rows, now_ms), ..informed(w, rows) })
            &&& stage == RunStageModel::Planning
            &&& exists|take: Seq<Seq<char>>| #[trigger] claims(w, rows, now_ms, take, effects)
        },
        (RunStageModel::Planning, RunEventModel::Scanned(Some(rows))) => plans(
            w,
            rows,
            now_ns,
            after,
            stage,
            effects,
        ),
        (RunStageModel::Processing, RunEventModel::Processed) => {
            &&& after == w
            &&& stage == RunStageModel::Finished
            &&& effects == seq![RunEffectModel::Finish(false)]
        },
        (RunStageModel::Pooling, RunEventModel::Pooled(outcomes)) => {
            &&& after == (World {
                schedule: pool::after_outcomes(w.schedule, outcomes, now_ns, w.poll_ms),
                ..w
            })
            &&& stage == RunStageModel::Finished
            &&& effects == seq![RunEffectModel::Finish(false)]
        },
        (RunStageModel::Finished, _) => {
            &&& after == w
            &&& stage == m
            &&& effects == Seq::<RunEffectModel>::empty()
        },
        _ => {
            &&& after == w
            &&& stage == RunStageModel::Finished
            &&& effects == seq![RunEffectModel::Fail]
        },
    }
}

fn single(e: RunEffect) -> (effects: Vec<RunEffect>)
    ensures
        effects_of(effects@) == seq![e@],
{
    let mut effects: Vec<RunEffect> = Vec::new();
    effects.push(e);
    assert(effects_of(effects@) =~= seq![e@]);
    effects
}

fn push_beat(effects: &mut Vec<RunEffect>)
    ensures
        effects_of(final(effects)@) == effects_of(old(effects)@) + beat(),
{
    effects.push(RunEffect::Heartbeat);
    effects.push(RunEffect::Scan);
    assert(effects_of(effects@) =~= effects_of(old(effects)@) + beat());
}

fn push_deletions(effects: &mut Vec<RunEffect>, keys: &Vec<String>)
    ensures
        effects_of(final(effects)@) == effects_of(old(effects)@) + deletions(
            collections::texts(keys@),
        ),
{
    let ghost t = collections::texts(keys@);
    let ghost before = effects_of(effects@);
    let mut i: usize = 0;
    assert(effects_of(effects@) =~= before + deletions(t.take(0)));
    while i < keys.len()
        invariant
            i <= keys.len(),
            t == collections::texts(keys@),
            effects_of(effects@) == before + deletions(t.take(i as int)),
        decreases keys.len() - i,
    {
        let ghost now = effects@;
        effects.push(RunEffect::DeleteLease(keys[i].clone()));
        assert(t[i as int] == keys@[i as int]@);
        assert(deletions(t.take(i + 1)) =~= deletions(t.take(i as int)).push(
            RunEffectModel::DeleteLease(t[i as int]),
        ));
        assert(effects_of(effects@) =~= effects_of(now).push(
            RunEffectModel::DeleteLease(t[i as int]),
        ));
        assert(effects_of(effects@) =~= before + deletions(t.take(i + 1)));
        i = i + 1;
    }
    assert(t.len() == keys.len());
    assert(t.take(i as int) =~= t);
}

fn acquire_all(keys: &Vec<String>) -> (effects: Vec<RunEffect>)
    ensures
        effects_of(effects@) == acquisitions(collections::texts(keys@)),
{
    let ghost t = collections::texts(keys@);
    let mut effects: Vec<RunEffect> = Vec::new();
    let mut i: usize = 0;
    assert(effects_of(effects@) =~= acquisitions(t.take(0)));
    while i < keys.len()
        invariant
            i <= keys.len(),
            t == collections::texts(keys@),
            effects_of(effects@) == acquisitions(t.take(i as int)),
        decreases keys.len() - i,
    {
        let ghost now = effects@;
        effects.push(RunEffect::Acquire(keys[i].clone()));
        assert(t[i as int] == keys@[i as int]@);
        assert(effects_of(effects@) =~= effects_of(now).push(RunEffectModel::Acquire(t[i as int])));
        assert(acquisitions(t.take(i + 1)) =~= acquisitions(t.take(i as int)).push(
            RunEffectModel::Acquire(t[i as int]),
        ));
        i = i + 1;
    }
    assert(t.len() == keys.len());
    assert(t.take(i as int) =~= t);
    effects
}

fn create_all(leases: &Vec<NewLease>) -> (effects: Vec<RunEffect>)
    ensures
        effects_of(effects@) == creations(sync::new_leases(leases@)),
{
    let ghost t = sync::new_leases(leases@);
    let mut effects: Vec<RunEffect> = Vec::new();
    let mut i: usize = 0;
    assert(effects_of(effects@) =~= creations(t.take(0)));
    while i < leases.len()
        invariant
            i <= leases.len(),
            t == sync::new_leases(leases@),
            effects_of(effects@) == creations(t.take(i as int)),
        decreases leases.len() - i,
    {
        let ghost now = effects@;
        effects.push(RunEffect::CreateLease(leases[i].copy()));
        assert(t[i as int] == leases@[i as int]@);
        assert(effects_of(effects@) =~= effects_of(now).push(
            RunEffectModel::CreateLease(t[i as int]),
        ));
        assert(creations(t.take(i + 1)) =~= creations(t.take(i as int)).push(
            RunEffectModel::CreateLease(t[i as int]),
        ));
        i = i + 1;
    }
    assert(t.take(i as int) =~= t);
    effects
}

impl CycleRun {
    /// A discovery of shards that is under way is well formed.
    pub closed spec fn wf(&self) -> bool {
        self.stage matches RunStage::Syncing(_, s) ==> s.wf()
    }

    /// Start a cycle: the table is scanned first.
    pub fn start() -> (r: (CycleRun, Vec<RunEffect>))
        ensures
            r.0.wf(),
            r.0@ == RunStageModel::Scanning,
            effects_of(r.1@) == seq![RunEffectModel::Scan],
    {
        (CycleRun { stage: RunStage::Scanning }, single(RunEffect::Scan))
    }

    fn fail(&mut self) -> (effects: Vec<RunEffect>)
        ensures
            final(self).wf(),
            final(self)@ == RunStageModel::Finished,
            effects_of(effects@) == seq![RunEffectModel::Fail],
    {
        self.stage = RunStage::Finished;
        single(RunEffect::Fail)
    }

    fn claim(&mut self) -> (effects: Vec<RunEffect>)
        ensures
            final(self).wf(),
            final(self)@ == RunStageModel::Claiming,
            effects_of(effects@) == beat(),
    {
        self.stage = RunStage::Claiming;
        let mut effects: Vec<RunEffect> = Vec::new();
        push_beat(&mut effects);
        assert(effects_of(effects@) =~= beat());
        effects
    }

    fn discover(&mut self, rows: Vec<RawLease>, s: ShardSync) -> (effects: Vec<RunEffect>)
        requires
            s.wf(),
        ensures
            final(self).wf(),
            (final(self)@, effects_of(effects@)) == discovering(rows@, s@),
    {
        match s.action() {
            SyncAction::Describe => {
                self.stage = RunStage::Syncing(rows, s);
                single(RunEffect::Describe)
            },
            SyncAction::DescribeChildren(p) => {
                self.stage = RunStage::Syncing(rows, s);
                single(RunEffect::DescribeChildren(p))
            },
            SyncAction::Done => {
                let mut effects: Vec<RunEffect> = Vec::new();
                push_deletions(&mut effects, &leases_to_delete(rows.as_slice()));
                push_beat(&mut effects);
                self.stage = RunStage::Claiming;
                assert(effects_of(effects@) =~= deletions(tombstones(rows@)) + beat());
                effects
            },
        }
    }

    fn plan(&mut self, rows: &Vec<RawLease>, fleet: &mut Fleet, now_ns: u64) -> (effects: Vec<
        RunEffect,
    >)
        ensures
            final(self).wf(),
            final(fleet).config == old(fleet).config,
            forall|c: LeaseCoordinator, l: Leadership|
                plans(
                    #[trigger] world(*old(fleet), c, l),
                    rows@,
                    now_ns,
                    world(*final(fleet), c, l),
                    final(self)@,
                    effects_of(effects@),
                ),
    {
        let ghost before = *fleet;
        let plan = fleet.plan_cycle(rows.as_slice());
        let mut effects: Vec<RunEffect> = Vec::new();
        effects.push(RunEffect::ReportHeld(plan.held.len() as u64));
        match fleet.processing_limit {
            Some(k) => {
                effects.push(RunEffect::ReportLimit(k as u64));
            },
            None => {},
        }
        let ghost reported = effects@;
        assert forall|c: LeaseCoordinator, l: Leadership|
            effects_of(reported) == reports(#[trigger] world(before, c, l), rows@) by {
            assert(effects_of(reported) =~= reports(world(before, c, l), rows@));
        }
        if plan.complete {
            self.stage = RunStage::Finished;
            effects.push(RunEffect::Finish(true));
            assert(effects_of(effects@) =~= effects_of(reported).push(
                RunEffectModel::Finish(true),
            ));
            return effects;
        }
        match fleet.processing_limit {
            None => {
                self.stage = RunStage::Processing;
                let ghost work = pool::owned_models(plan.work@);
                effects.push(RunEffect::ProcessAll(plan.work));
                assert(effects_of(effects@) =~= effects_of(reported).push(
                    RunEffectModel::ProcessAll(work),
                ));
            },
            Some(k) => {
                let due = fleet.schedule.refresh(&plan.work, now_ns);
                let ghost items = pool::item_models(due@);
                let ghost schedule = fleet.schedule@;
                assert(items.len() == due.len());
                effects.push(RunEffect::ReportDepth(due.len() as u64));
                let ghost deep = effects@;
                assert(effects_of(deep) =~= effects_of(reported).push(
                    RunEffectModel::ReportDepth(items.len() as u64),
                ));
                if due.len() > 0 {
                    self.stage = RunStage::Pooling;
                    effects.push(RunEffect::ProcessPooled(due, k));
                    assert(effects_of(effects@) =~= effects_of(deep).push(
                        RunEffectModel::ProcessPooled(items, k),
                    ));
                } else {
                    self.stage = RunStage::Finished;
                    match fleet.schedule.next_due() {
                        Some(at) => {
                            let ns: u128 = idle_wait(at, now_ns, fleet.config.poll_interval_ms);
                            effects.push(RunEffect::Sleep(ns));
                            effects.push(RunEffect::Finish(false));
                            assert(effects_of(effects@) =~= effects_of(deep).push(
                                RunEffectModel::Sleep(ns),
                            ).push(RunEffectModel::Finish(false)));
                            assert(is_earliest(schedule, at));
                            assert(naps(schedule, now_ns, before.config.poll_interval_ms, ns));
                        },
                        None => {
                            effects.push(RunEffect::Finish(false));
                            assert(effects_of(effects@) =~= effects_of(deep).push(
                                RunEffectModel::Finish(false),
                            ));
                        },
                    }
                }
            },
        }
        effects
    }

    /// Advance the cycle by one event, at the given times: milliseconds for the
    /// liveness of workers, nanoseconds for the schedule.
    pub fn step(
        &mut self,
        event: RunEvent,
        fleet: &mut Fleet,
        coordinator: &mut LeaseCoordinator,
        leadership: &mut Leadership,
        now_ms: u64,
        now_ns: u64,
    ) -> (effects: Vec<RunEffect>)
        requires
            old(self).wf(),
            old(leadership).wf(),
        ensures
            final(self).wf(),
            final(leadership).wf(),
            final(fleet).config == old(fleet).config,
            run_step(
                world(*old(fleet), *old(coordinator), *old(leadership)),
                old(self)@,
                event@,
                now_ms,
                now_ns,
                world(*final(fleet), *final(coordinator), *final(leadership)),
                final(self)@,
                effects_of(effects@),
            ),
    {
        let ghost w = world(*fleet, *coordinator, *leadership);
        let mut stage = RunStage::Finished;
        std::mem::swap(&mut stage, &mut self.stage);
        match (stage, event) {
            (RunStage::Scanning, RunEvent::Scanned(Some(rows))) => {
                let bid = leadership.decide(rows.as_slice(), now_ms);
                if matches!(bid, LeaderBid::Follow) {
                    self.claim()
                } else {
                    self.stage = RunStage::Bidding(rows);
                    single(RunEffect::Bid(bid))
                }
            },
            (RunStage::Bidding(rows), RunEvent::Answered(granted)) => {
                if leadership.settle(granted) {
                    let s = fleet.leader_shard_sync(rows.as_slice());
                    self.discover(rows, s)
                } else {
                    self.claim()
                }
            },
            (RunStage::Syncing(rows, s), RunEvent::Described(answer)) => {
                if s.is_seeding() && answer.is_none() {
                    return self.fail();
                }
                let mut s = s;
                let initial = fleet.config.initial_position;
                let new = s.answer(&answer, rows.as_slice(), &mut fleet.sync, initial);
                let mut effects = create_all(&new);
                let ghost created = effects@;
                let mut more = self.discover(rows, s);
                let ghost tail = more@;
                effects.append(&mut more);
                assert(effects_of(effects@) =~= effects_of(created) + effects_of(tail));
                effects
            },
            (RunStage::Claiming, RunEvent::Scanned(Some(rows))) => {
                let held = held_names(rows.as_slice(), fleet.config.owner.as_str());
                match &mut fleet.defer {
                    Some(d) => d.prune(&held),
                    None => {},
                }
                let take = take_decisions(coordinator, rows.as_slice(), now_ms);
                let ghost wanted = collections::texts(take@);
                let mut take = take;
                let space: usize = fleet.config.max_leases.saturating_sub(held.len());
                if take.len() > space {
                    take.truncate(space);
                }
                assert(collections::texts(take@) =~= admitted(wanted, room(w, rows@)));
                let mut effects = acquire_all(&take);
                let ghost all = effects@;
                effects.push(RunEffect::Scan);
                assert(effects_of(effects@) =~= effects_of(all).push(RunEffectModel::Scan));
                self.stage = RunStage::Planning;
                assert(claims(w, rows@, now_ms, wanted, effects_of(effects@)));
                effects
            },
            (RunStage::Planning, RunEvent::Scanned(Some(rows))) => self.plan(&rows, fleet, now_ns),
            (RunStage::Processing, RunEvent::Processed) => single(RunEffect::Finish(false)),
            (RunStage::Pooling, RunEvent::Pooled(outcomes)) => {
                let poll_ms: u64 = fleet.config.poll_interval_ms;
                fleet.schedule.fold(&outcomes, now_ns, poll_ms);
                single(RunEffect::Finish(false))
            },
            (RunStage::Finished, _) => {
                let effects: Vec<RunEffect> = Vec::new();
                assert(effects_of(effects@) =~= Seq::empty());
                effects
            },
            _ => self.fail(),
        }
    }
}

/// The effect describes the stream.
pub open spec fn is_describe(e: RunEffectModel) -> bool {
    e is Describe || e is DescribeChildren
}

/// Only the leader describes the stream, and only the leader creates or deletes
/// leases: such effects follow a bid that was granted in the same cycle.
pub proof fn law_only_the_leader_discovers(
    w: World,
    m: RunStageModel,
    e: RunEventModel,
    now_ms: u64,
    now_ns: u64,
    after: World,
    stage: RunStageModel,
    effects: Seq<RunEffectModel>,
)
    requires
        run_step(w, m, e, now_ms, now_ns, after, stage, effects),
    ensures
        (exists|i: int|
            0 <= i < effects.len() && (is_describe(#[trigger] effects[i]) || effects[i] is CreateLease
                || effects[i] is DeleteLease)) ==> m is Syncing || (m is Bidding && (
        e matches RunEventModel::Answered(c) && c is Some)),
        stage is Syncing ==> m is Syncing || (m is Bidding && (
        e matches RunEventModel::Answered(c) && c is Some)),
{
    if let (RunStageModel::Claiming, RunEventModel::Scanned(Some(rows))) = (m, e) {
        let take = choose|take: Seq<Seq<char>>| #[trigger] claims(w, rows, now_ms, take, effects);
        assert forall|i: int| 0 <= i < effects.len() implies effects[i] is Acquire
            || #[trigger] effects[i] is Scan by {}
    }
    if let (RunStageModel::Planning, RunEventModel::Scanned(Some(rows))) = (m, e) {
        assert forall|i: int| 0 <= i < effects.len() implies !is_describe(#[trigger] effects[i])
            && !(effects[i] is CreateLease) && !(effects[i] is DeleteLease) by {
            lemma_planned_effects(w, rows, now_ns, after, stage, effects, i);
        }
    }
}

proof fn lemma_planned_effects(
    w: World,
    rows: Seq<RawLease>,
    now_ns: u64,
    after: World,
    stage: RunStageModel,
    effects: Seq<RunEffectModel>,
    i: int,
)
    requires
        plans(w, rows, now_ns, after, stage, effects),
        0 <= i < effects.len(),
    ensures
        effects[i] is ReportHeld || effects[i] is ReportLimit || effects[i] is ReportDepth
            || effects[i] is ProcessAll || effects[i] is ProcessPooled || effects[i] is Sleep
            || effects[i] is Finish,
        effects[i] matches RunEffectModel::ProcessAll(work) ==> w.limit is None && work
            == cycle::cycle_work(cycle::full_rows(rows), w.owner),
        effects[i] matches RunEffectModel::ProcessPooled(due, k) ==> w.limit == Some(k) && due
            == pool::due_items(
            w.schedule,
            cycle::cycle_work(cycle::full_rows(rows), w.owner),
            now_ns,
        ),
{
    let r = reports(w, rows);
    assert forall|k: int| 0 <= k < r.len() implies #[trigger] r[k] is ReportHeld
        || r[k] is ReportLimit by {}
}

/// Leases are claimed only after the heartbeat of the same cycle was sent: a
/// worker that takes over shards is seen to be alive.
pub proof fn law_a_heartbeat_precedes_every_claim(
    w: World,
    m: RunStageModel,
    e: RunEventModel,
    now_ms: u64,
    now_ns: u64,
    after: World,
    stage: RunStageModel,
    effects: Seq<RunEffectModel>,
)
    requires
        run_step(w, m, e, now_ms, now_ns, after, stage, effects),
    ensures
        stage is Claiming ==> effects.len() >= 2 && effects[effects.len() - 2] is Heartbeat
            && effects.last() is Scan,
        (exists|i: int| 0 <= i < effects.len() && #[trigger] effects[i] is Acquire) ==> m is Claiming,
{
    if let (RunStageModel::Planning, RunEventModel::Scanned(Some(rows))) = (m, e) {
        assert forall|i: int| 0 <= i < effects.len() implies !(#[trigger] effects[i] is Acquire) by {
            lemma_planned_effects(w, rows, now_ns, after, stage, effects, i);
        }
    }
}

/// A failed scan ends the cycle with an error and changes nothing.
pub proof fn law_a_failed_scan_ends_the_cycle(
    w: World,
    m: RunStageModel,
    now_ms: u64,
    now_ns: u64,
    after: World,
    stage: RunStageModel,
    effects: Seq<RunEffectModel>,
)
    requires
        !(m is Finished),
        run_step(w, m, RunEventModel::Scanned(None), now_ms, now_ns, after, stage, effects),
    ensures
        after == w,
        stage is Finished,
        effects == seq![RunEffectModel::Fail],
{
}

/// A queued pass is for one of the given shards.
pub open spec fn is_work(item: ItemModel, work: Seq<OwnedModel>, now: u64) -> bool {
    exists|o: OwnedModel| #[trigger] work.contains(o) && item == pool::item_for(o, now)
}

/// A cycle processes only shards that this worker holds and that are ready, and
/// a bounded member processes them in a pool of its bound.
pub proof fn law_processes_only_ready_shards_it_holds(
    w: World,
    rows: Seq<RawLease>,
    now_ns: u64,
    after: World,
    stage: RunStageModel,
    effects: Seq<RunEffectModel>,
    i: int,
)
    requires
        plans(w, rows, now_ns, after, stage, effects),
        0 <= i < effects.len(),
    ensures
        effects[i] matches RunEffectModel::ProcessAll(work) ==> w.limit is None && work
            == cycle::cycle_work(cycle::full_rows(rows), w.owner),
        effects[i] matches RunEffectModel::ProcessPooled(due, k) ==> w.limit == Some(k) && forall|
            j: int,
        |
            0 <= j < due.len() ==> is_work(
                #[trigger] due[j],
                cycle::cycle_work(cycle::full_rows(rows), w.owner),
                now_ns,
            ),
{
    lemma_planned_effects(w, rows, now_ns, after, stage, effects, i);
    if let RunEffectModel::ProcessPooled(due, k) = effects[i] {
        let work = cycle::cycle_work(cycle::full_rows(rows), w.owner);
        let keep = |o: OwnedModel| pool::refreshed(w.schedule, work, now_ns)[o.shard].due_at
            <= now_ns;
        assert forall|j: int| 0 <= j < due.len() implies is_work(
            #[trigger] due[j],
            work,
            now_ns,
        ) by {
            let kept = work.filter(keep);
            let o = kept[j];
            assert(kept.contains(o));
            work.lemma_filter_contains_rev(keep, o);
            assert(due[j] == pool::item_for(o, now_ns));
        }
    }
}

/// How far a cycle has come: it never goes back.
pub open spec fn phases_left(m: RunStageModel) -> nat {
    match m {
        RunStageModel::Scanning => 6,
        RunStageModel::Bidding(_) => 5,
        RunStageModel::Syncing(_, _) => 4,
        RunStageModel::Claiming => 3,
        RunStageModel::Planning => 2,
        RunStageModel::Processing => 1,
        RunStageModel::Pooling => 1,
        RunStageModel::Finished => 0,
    }
}

/// The number of answers that a discovery of shards still waits for at most.
pub open spec fn answers_left(s: SyncModel) -> nat {
    match s.stage {
        SyncStage::Seeding => 1,
        SyncStage::Asking => 2 * s.parents.len(),
        SyncStage::FallingBack => (2 * s.parents.len() - 1) as nat,
        SyncStage::Done => 0,
    }
}

/// Every cycle ends: each step takes it to a later phase, or takes the discovery
/// of shards closer to its end.
pub proof fn law_a_cycle_ends(
    w: World,
    m: RunStageModel,
    e: RunEventModel,
    now_ms: u64,
    now_ns: u64,
    after: World,
    stage: RunStageModel,
    effects: Seq<RunEffectModel>,
)
    requires
        !(m is Finished),
        m matches RunStageModel::Syncing(_, s) ==> s.parents.len() > 0 || s.stage
            == SyncStage::Seeding,
        run_step(w, m, e, now_ms, now_ns, after, stage, effects),
    ensures
        phases_left(stage) < phases_left(m) || (m matches RunStageModel::Syncing(_, s)
            && stage matches RunStageModel::Syncing(_, t) && answers_left(t) < answers_left(s)),
        stage matches RunStageModel::Syncing(_, t) ==> t.parents.len() > 0 || t.stage
            == SyncStage::Seeding,
        stage is Finished <==> effects.len() > 0 && (effects.last() is Finish || effects.last() is Fail),
{
}

/// A shard that a member is about to claim has nothing pending any more: what it
/// acknowledged while it held the lease before is not carried over.
pub proof fn law_a_claimed_shard_has_nothing_pending(
    w: World,
    rows: Seq<RawLease>,
    now_ms: u64,
    now_ns: u64,
    after: World,
    stage: RunStageModel,
    effects: Seq<RunEffectModel>,
    shard: Seq<char>,
)
    requires
        w.owner == w.me,
        forall|i: int, j: int|
            0 <= i < j < rows.len() ==> (#[trigger] rows[i]).lease_key@ != (
            #[trigger] rows[j]).lease_key@,
        run_step(
            w,
            RunStageModel::Claiming,
            RunEventModel::Scanned(Some(rows)),
            now_ms,
            now_ns,
            after,
            stage,
            effects,
        ),
        effects.contains(RunEffectModel::Acquire(shard)),
    ensures
        after.deferral matches Some(d) ==> d.pending(shard) is None,
{
    let take = choose|take: Seq<Seq<char>>| #[trigger] claims(w, rows, now_ms, take, effects);
    let n = effects.index_of(RunEffectModel::Acquire(shard));
    assert(effects[n] == RunEffectModel::Acquire(shard));
    assert(take[n] == shard);
    assert(take.contains(shard));
    let raw = coordinator::raw_rows(rows);
    let shared = cycle::without_leader(raw);
    let t = coordinator::snapshot(
        freshness(w, rows, now_ms),
        w.me,
        w.duration,
        shared,
        now_ms,
    );
    taker::law_takes_only_leases_of_others(t, w.me, w.max_take as nat, take, shard);
    let r = choose|r: taker::LeaseRow| #[trigger]
        t.contains(r) && r.key == shard && !r.completed && r.owner != Some(w.me);
    let i = t.index_of(r);
    let kept = coordinator::shard_rows(shared);
    assert(shared.contains(kept[i])) by {
        assert(kept.contains(kept[i]));
        shared.lemma_filter_contains_rev(
            |x: coordinator::RawRow| !coordinator::names_heartbeat(x.key),
            kept[i],
        );
    }
    assert(raw.contains(kept[i])) by {
        raw.lemma_filter_contains_rev(
            |x: coordinator::RawRow| x.key != crate::leader::leader_key(),
            kept[i],
        );
    }
    let j = raw.index_of(kept[i]);
    assert(raw[j] == rows[j]@);
    let full = cycle::full_rows(rows);
    cycle::lemma_held_rows(full, w.owner, shard);
    if cycle::held(full, w.owner).contains_key(shard) {
        let k = choose|k: int|
            0 <= k < full.len() && cycle::holds(#[trigger] full[k], w.owner) && full[k].key
                == shard;
        assert(rows[k].lease_key@ == rows[j].lease_key@);
        assert(full[j].owner == raw[j].owner);
    }
}

/// How many unfinished shards of a scan are under the name `me`.
pub open spec fn held_count(rows: Seq<RawLease>, me: Seq<char>) -> int {
    collections::matching_before(
        rows,
        |r: RawLease| cycle::is_of_shard(r) && cycle::is_mine(r, me),
        rows.len() as int,
    ) as int
}

proof fn lemma_held_count(rows: Seq<RawLease>, me: Seq<char>, n: int)
    requires
        cycle::is_keyed(rows),
        0 <= n <= rows.len(),
    ensures
        cycle::held(cycle::full_rows(rows.take(n)), me).dom().finite(),
        cycle::held(cycle::full_rows(rows.take(n)), me).dom().len() == collections::matching_before(
            rows,
            |r: RawLease| cycle::is_of_shard(r) && cycle::is_mine(r, me),
            n,
        ),
    decreases n,
{
    let p = |r: RawLease| cycle::is_of_shard(r) && cycle::is_mine(r, me);
    let t = cycle::full_rows(rows.take(n));
    if n == 0 {
        assert(cycle::held(t, me).dom() =~= Set::empty());
    } else {
        let rest = cycle::full_rows(rows.take(n - 1));
        lemma_held_count(rows, me, n - 1);
        assert(t.drop_last() =~= rest);
        assert(t.last() == cycle::full(rows[n - 1]));
        let before = cycle::held(rest, me);
        let key = rows[n - 1].lease_key@;
        if before.contains_key(key) {
            cycle::lemma_held_rows(rest, me, key);
            let k = choose|k: int|
                0 <= k < rest.len() && cycle::holds(#[trigger] rest[k], me) && rest[k].key == key;
            assert(rest[k] == cycle::full(rows[k]));
            assert(rows[k].lease_key@ != rows[n - 1].lease_key@);
        }
        if p(rows[n - 1]) {
            assert(cycle::held(t, me).dom() =~= before.dom().insert(key));
        }
    }
}

/// How a cycle opens. A worker that bids asks for that and nothing else; one
/// that follows, or whose bid was refused, sends its heartbeat and scans. A
/// leader that has not described the stream describes it; one that has asks for
/// the children of the first shard that lacks them; and if there is none it
/// deletes what nobody needs, sends its heartbeat and scans.
pub proof fn law_how_a_cycle_opens(
    w: World,
    m: RunStageModel,
    e: RunEventModel,
    now_ms: u64,
    now_ns: u64,
    after: World,
    stage: RunStageModel,
    effects: Seq<RunEffectModel>,
)
    requires
        run_step(w, m, e, now_ms, now_ns, after, stage, effects),
    ensures
        m is Scanning && e is Scanned && e->Scanned_0 is Some ==> ({
            let rows = e->Scanned_0->0;
            let row = leadership::leader_row(coordinator::raw_rows(rows));
            let fresh = coordinator::observed(
                w.leader_seen,
                leadership::leader_view(row),
                w.bidder,
                now_ms,
            );
            let bid = leadership::bid_for(row, fresh, w.bidder, w.reign, now_ms);
            &&& after.leader_seen == fresh
            &&& bid is Follow ==> effects == seq![RunEffectModel::Heartbeat, RunEffectModel::Scan]
                && stage is Claiming
            &&& !(bid is Follow) ==> effects == seq![RunEffectModel::Bid(bid)] && stage
                == RunStageModel::Bidding(rows)
        }),
        m is Bidding && e == RunEventModel::Answered(None) ==> effects == seq![
            RunEffectModel::Heartbeat,
            RunEffectModel::Scan,
        ] && stage is Claiming,
        m is Bidding && e is Answered && e->Answered_0 is Some ==> ({
            let rows = m->Bidding_0;
            let round = sync::sync_start(cycle::full_rows(rows), w.memory);
            let n = effects.len() - 2;
            &&& after.leader_counter == e->Answered_0->0
            &&& !w.memory.seeded ==> effects == seq![RunEffectModel::Describe] && stage
                == RunStageModel::Syncing(rows, round)
            &&& w.memory.seeded && round.parents.len() > 0 ==> effects == seq![
                RunEffectModel::DescribeChildren(round.parents[0]),
            ] && stage == RunStageModel::Syncing(rows, round)
            &&& w.memory.seeded && round.parents.len() == 0 ==> {
                &&& stage is Claiming
                &&& n == tombstones(rows).len()
                &&& forall|i: int|
                    0 <= i < n ==> #[trigger] effects[i] == RunEffectModel::DeleteLease(
                        tombstones(rows)[i],
                    )
                &&& effects[n] is Heartbeat && effects[n + 1] is Scan
            }
        }),
{
    if m is Bidding && e is Answered && e->Answered_0 is Some {
        let rows = m->Bidding_0;
        let round = sync::sync_start(cycle::full_rows(rows), w.memory);
        if w.memory.seeded && round.parents.len() == 0 {
            let n = effects.len() - 2;
            assert(effects == deletions(tombstones(rows)) + beat());
            assert(deletions(tombstones(rows)).len() == tombstones(rows).len());
        }
    }
}

/// How a leader goes on with an answer: it creates what the answer calls for, in
/// order, and asks on; or else it deletes what nobody needs, sends its heartbeat
/// and scans. Only a description that was to seed the leases may not fail.
pub proof fn law_how_a_leader_goes_on(
    w: World,
    rows: Seq<RawLease>,
    s: SyncModel,
    answer: Option<Seq<ShardNode>>,
    now_ms: u64,
    now_ns: u64,
    after: World,
    stage: RunStageModel,
    effects: Seq<RunEffectModel>,
)
    requires
        run_step(
            w,
            RunStageModel::Syncing(rows, s),
            RunEventModel::Described(answer),
            now_ms,
            now_ns,
            after,
            stage,
            effects,
        ),
    ensures
        s.stage == SyncStage::Seeding && answer is None ==> effects == seq![RunEffectModel::Fail]
            && stage is Finished && after == w,
        !(s.stage == SyncStage::Seeding && answer is None) ==> ({
            let t = sync::sync_step(s, w.memory, cycle::full_rows(rows), w.initial, answer);
            let c = t.create.len() as int;
            let n = effects.len() - 2;
            &&& after.memory == t.memory
            &&& effects.len() > c
            &&& forall|i: int|
                0 <= i < c ==> #[trigger] effects[i] == RunEffectModel::CreateLease(t.create[i])
            &&& t.round.stage == SyncStage::Asking ==> effects.len() == c + 1 && effects[c]
                == RunEffectModel::DescribeChildren(t.round.parents[0]) && stage
                == RunStageModel::Syncing(rows, t.round)
            &&& t.round.stage == SyncStage::FallingBack ==> effects.len() == c + 1
                && effects[c] is Describe && stage == RunStageModel::Syncing(rows, t.round)
            &&& t.round.stage == SyncStage::Done ==> {
                &&& stage is Claiming
                &&& n == c + tombstones(rows).len()
                &&& forall|i: int|
                    c <= i < n ==> #[trigger] effects[i] == RunEffectModel::DeleteLease(
                        tombstones(rows)[i - c],
                    )
                &&& effects[n] is Heartbeat && effects[n + 1] is Scan
            }
        }),
{
    if !(s.stage == SyncStage::Seeding && answer is None) {
        let t = sync::sync_step(s, w.memory, cycle::full_rows(rows), w.initial, answer);
        let c = t.create.len() as int;
        assert(creations(t.create).len() == c);
        assert(effects == creations(t.create) + discovering(rows, t.round).1);
        if t.round.stage == SyncStage::Done {
            assert(deletions(tombstones(rows)).len() == tombstones(rows).len());
            let tail = discovering(rows, t.round).1;
            assert(tail == deletions(tombstones(rows)) + beat());
            assert forall|i: int| c <= i < effects.len() implies #[trigger] effects[i] == tail[i
                - c] by {}
        }
    }
}

/// What a cycle claims: the first leases of a fair set, as many as the worker may
/// hold beside those that the scan shows under its name, and then it scans.
pub proof fn law_what_a_cycle_claims(
    w: World,
    rows: Seq<RawLease>,
    now_ms: u64,
    now_ns: u64,
    after: World,
    stage: RunStageModel,
    effects: Seq<RunEffectModel>,
)
    requires
        cycle::is_keyed(rows),
        run_step(
            w,
            RunStageModel::Claiming,
            RunEventModel::Scanned(Some(rows)),
            now_ms,
            now_ns,
            after,
            stage,
            effects,
        ),
    ensures
        stage is Planning,
        effects.len() > 0,
        effects.last() is Scan,
        after.seen == coordinator::observed(
            w.seen,
            cycle::without_leader(coordinator::raw_rows(rows)),
            w.me,
            now_ms,
        ),
        exists|take: Seq<Seq<char>>|
            {
                let n = effects.len() - 1;
                let room = w.max_leases - held_count(rows, w.owner);
                &&& #[trigger] taker::balances(
                    coordinator::snapshot(
                        after.seen,
                        w.me,
                        w.duration,
                        cycle::without_leader(coordinator::raw_rows(rows)),
                        now_ms,
                    ),
                    w.me,
                    w.max_take as int,
                    take,
                )
                &&& n <= take.len()
                &&& n == take.len() || n == room || (n == 0 && room < 0)
                &&& n <= room || n == 0
                &&& forall|i: int|
                    0 <= i < n ==> #[trigger] effects[i] == RunEffectModel::Acquire(take[i])
            },
{
    lemma_held_count(rows, w.owner, rows.len() as int);
    assert(rows.take(rows.len() as int) =~= rows);
    let take = choose|take: Seq<Seq<char>>| #[trigger] claims(w, rows, now_ms, take, effects);
    let some = admitted(take, room(w, rows));
    assert(acquisitions(some).len() == some.len());
    assert(after.seen == freshness(w, rows, now_ms));
    assert(fair(w, rows, now_ms, take));
}

/// What a cycle does with what it holds. It reports how many shards that are, and
/// its bound if it has one; if no shard is left unfinished, the fleet is done;
/// else all shards that can be read are processed, at once without a bound, and
/// in a pool of its bound if one of them is due.
pub proof fn law_what_a_cycle_processes(
    w: World,
    rows: Seq<RawLease>,
    now_ms: u64,
    now_ns: u64,
    after: World,
    stage: RunStageModel,
    effects: Seq<RunEffectModel>,
)
    requires
        cycle::is_keyed(rows),
        run_step(
            w,
            RunStageModel::Planning,
            RunEventModel::Scanned(Some(rows)),
            now_ms,
            now_ns,
            after,
            stage,
            effects,
        ),
    ensures
        ({
            let over = worker::all_done(
                cycle::graph_of(cycle::full_rows(rows)),
                cycle::completed_shards(cycle::full_rows(rows)),
            );
            let work = cycle::cycle_work(cycle::full_rows(rows), w.owner);
            let due = pool::due_items(w.schedule, work, now_ns);
            let next = effects[effects.len() - 2];
            &&& effects.len() > 1
            &&& effects[0] == RunEffectModel::ReportHeld(held_count(rows, w.owner) as u64)
            &&& w.limit is Some ==> effects[1] == RunEffectModel::ReportLimit(w.limit->0 as u64)
            &&& over ==> effects.last() == RunEffectModel::Finish(true) && stage is Finished
            &&& !over && w.limit is None ==> effects.len() == 2 && effects[1]
                == RunEffectModel::ProcessAll(work) && stage is Processing
            &&& !over && w.limit is Some ==> effects[2] == RunEffectModel::ReportDepth(
                due.len() as u64,
            ) && after.schedule == pool::refreshed(w.schedule, work, now_ns)
            &&& !over && w.limit is Some && due.len() > 0 ==> effects.len() == 4 && effects[3]
                == RunEffectModel::ProcessPooled(due, w.limit->0) && stage is Pooling
            &&& !over && w.limit is Some && due.len() == 0 ==> effects.last()
                == RunEffectModel::Finish(false) && stage is Finished
            &&& !over && w.limit is Some && due.len() == 0 && (exists|s: Seq<char>| #[trigger]
                after.schedule.contains_key(s)) ==> effects.len() == 5 && next is Sleep && exists|
                s: Seq<char>,
            | #[trigger]
                after.schedule.contains_key(s) && next->Sleep_0 == pool::idle_sleep(
                    after.schedule[s].due_at,
                    now_ns,
                    w.poll_ms,
                ) && forall|o: Seq<char>| #[trigger]
                    after.schedule.contains_key(o) ==> after.schedule[s].due_at
                        <= after.schedule[o].due_at
        }),
{
    lemma_held_count(rows, w.owner, rows.len() as int);
    assert(rows.take(rows.len() as int) =~= rows);
    let work = cycle::cycle_work(cycle::full_rows(rows), w.owner);
    let due = pool::due_items(w.schedule, work, now_ns);
    let r = reports(w, rows);
    assert(r[0] == RunEffectModel::ReportHeld(held_count(rows, w.owner) as u64));
    if !is_over(rows) && w.limit is Some && due.len() == 0 && exists|s: Seq<char>| #[trigger]
        after.schedule.contains_key(s) {
        let s = choose|s: Seq<char>| #[trigger] after.schedule.contains_key(s);
        assert(after.schedule != Map::<Seq<char>, ShardSched>::empty());
        let depth = r.push(RunEffectModel::ReportDepth(due.len() as u64));
        let ns = choose|ns: u128|
            #[trigger] naps(after.schedule, now_ns, w.poll_ms, ns) && effects == depth.push(
                RunEffectModel::Sleep(ns),
            ).push(RunEffectModel::Finish(false));
        let at = choose|at: u128|
            #[trigger] is_earliest(after.schedule, at) && ns == pool::idle_sleep(
                at,
                now_ns,
                w.poll_ms,
            );
        let first = choose|s: Seq<char>| #[trigger]
            after.schedule.contains_key(s) && after.schedule[s].due_at == at;
        assert(after.schedule.contains_key(first));
    }
}

/// Effects and events are what they stand for, with their own texts and numbers,
/// in order.
pub proof fn law_effects_and_events_are_as_they_stand(s: Seq<RunEffect>, i: int, e: RunEvent)
    requires
        0 <= i < s.len(),
    ensures
        effects_of(s).len() == s.len(),
        match s[i] {
            RunEffect::Scan => effects_of(s)[i] is Scan,
            RunEffect::Bid(b) => effects_of(s)[i] == RunEffectModel::Bid(b),
            RunEffect::Describe => effects_of(s)[i] is Describe,
            RunEffect::DescribeChildren(p) => effects_of(s)[i] == RunEffectModel::DescribeChildren(
                p@,
            ),
            RunEffect::CreateLease(l) => effects_of(s)[i] is CreateLease
                && effects_of(s)[i]->CreateLease_0.id == l.id@
                && effects_of(s)[i]->CreateLease_0.parents.len() == l.parents@.len() && (forall|k: int|
                0 <= k < l.parents@.len() ==> effects_of(s)[i]->CreateLease_0.parents[k] == (
                #[trigger] l.parents@[k])@) && effects_of(s)[i]->CreateLease_0.checkpoint == (
            match l.checkpoint {
                Some(c) => Some(c@),
                None => None,
            }),
            RunEffect::DeleteLease(k) => effects_of(s)[i] == RunEffectModel::DeleteLease(k@),
            RunEffect::Heartbeat => effects_of(s)[i] is Heartbeat,
            RunEffect::Acquire(k) => effects_of(s)[i] == RunEffectModel::Acquire(k@),
            RunEffect::ReportHeld(n) => effects_of(s)[i] == RunEffectModel::ReportHeld(n),
            RunEffect::ReportLimit(n) => effects_of(s)[i] == RunEffectModel::ReportLimit(n),
            RunEffect::ReportDepth(n) => effects_of(s)[i] == RunEffectModel::ReportDepth(n),
            RunEffect::ProcessAll(w) => effects_of(s)[i] == RunEffectModel::ProcessAll(
                pool::owned_models(w@),
            ),
            RunEffect::ProcessPooled(q, k) => effects_of(s)[i] == RunEffectModel::ProcessPooled(
                pool::item_models(q@),
                k,
            ),
            RunEffect::Sleep(ns) => effects_of(s)[i] == RunEffectModel::Sleep(ns),
            RunEffect::Finish(c) => effects_of(s)[i] == RunEffectModel::Finish(c),
            RunEffect::Fail => effects_of(s)[i] is Fail,
        },
        match e {
            RunEvent::Scanned(None) => e@ == RunEventModel::Scanned(None),
            RunEvent::Scanned(Some(rows)) => e@ == RunEventModel::Scanned(Some(rows@)),
            RunEvent::Answered(c) => e@ == RunEventModel::Answered(c),
            RunEvent::Described(None) => e@ == RunEventModel::Described(None),
            RunEvent::Described(Some(g)) => e@ == RunEventModel::Described(
                Some(leader::nodes(g@)),
            ),
            RunEvent::Processed => e@ is Processed,
            RunEvent::Pooled(o) => e@ == RunEventModel::Pooled(pool::outcome_models(o@)),
        },
{
}

/// A member decides by its own configuration, coordinator and bid.
pub proof fn law_a_member_goes_by_its_configuration(f: Fleet, c: LeaseCoordinator, l: Leadership)
    ensures
        world(f, c, l).owner == f.config.owner@,
        world(f, c, l).initial == f.config.initial_position,
        world(f, c, l).poll_ms == f.config.poll_interval_ms,
        world(f, c, l).max_leases == f.config.max_leases,
        world(f, c, l).limit == f.processing_limit,
        world(f, c, l).memory.seeded == f.sync.seeded,
        world(f, c, l).memory.synced == f.sync.child_synced@,
        f.defer is None ==> world(f, c, l).deferral is None,
        f.defer is Some ==> world(f, c, l).deferral == Some((f.defer->0)@),
        world(f, c, l).schedule == f.schedule@,
        world(f, c, l).me == c.me(),
        world(f, c, l).max_take == c.max_take(),
        world(f, c, l).duration == c.duration(),
        world(f, c, l).seen == c.seen(),
        world(f, c, l).bidder == l.owner(),
        world(f, c, l).reign == l.duration(),
        world(f, c, l).leader_seen == l.seen(),
        world(f, c, l).leader_counter == l.held_counter(),
{
}

/// A scan that shows what a member holds has it keep what is pending of those
/// shards, and drop what is pending of others.
pub proof fn law_what_is_pending_stays_with_what_is_held(
    w: World,
    m: RunStageModel,
    rows: Seq<RawLease>,
    now_ms: u64,
    now_ns: u64,
    after: World,
    stage: RunStageModel,
    effects: Seq<RunEffectModel>,
    shard: Seq<char>,
)
    requires
        m is Claiming || m is Planning,
        run_step(
            w,
            m,
            RunEventModel::Scanned(Some(rows)),
            now_ms,
            now_ns,
            after,
            stage,
            effects,
        ),
    ensures
        w.deferral is None ==> after.deferral is None,
        w.deferral is Some ==> after.deferral is Some && (after.deferral->0).interval == (
        w.deferral->0).interval && (after.deferral->0).pending(shard) == (if exists|i: int|
            0 <= i < rows.len() && cycle::is_of_shard(#[trigger] rows[i]) && cycle::is_mine(
                rows[i],
                w.owner,
            ) && rows[i].lease_key@ == shard {
            (w.deferral->0).pending(shard)
        } else {
            None
        }),
{
    let full = cycle::full_rows(rows);
    cycle::lemma_held_rows(full, w.owner, shard);
    assert forall|i: int| 0 <= i < rows.len() implies #[trigger] full[i] == cycle::full(rows[i])
        && cycle::holds(full[i], w.owner) == (cycle::is_of_shard(rows[i]) && cycle::is_mine(
        rows[i],
        w.owner,
    )) by {}
    if cycle::held(full, w.owner).contains_key(shard) {
        let i = choose|i: int|
            0 <= i < full.len() && cycle::holds(#[trigger] full[i], w.owner) && full[i].key == shard;
        assert(rows[i].lease_key@ == shard);
    }
    if exists|i: int|
        0 <= i < rows.len() && cycle::is_of_shard(#[trigger] rows[i]) && cycle::is_mine(
            rows[i],
            w.owner,
        ) && rows[i].lease_key@ == shard {
        let i = choose|i: int|
            0 <= i < rows.len() && cycle::is_of_shard(#[trigger] rows[i]) && cycle::is_mine(
                rows[i],
                w.owner,
            ) && rows[i].lease_key@ == shard;
        assert(cycle::holds(full[i], w.owner) && full[i].key == shard);
    }
}

/// Once all passes are over, so is the cycle, and what became of the passes is
/// what the schedule goes by.
pub proof fn law_the_passes_end_the_cycle(
    w: World,
    outcomes: Seq<(Seq<char>, PassOutcome)>,
    now_ms: u64,
    now_ns: u64,
    after: World,
    stage: RunStageModel,
    effects: Seq<RunEffectModel>,
)
    ensures
        run_step(
            w,
            RunStageModel::Processing,
            RunEventModel::Processed,
            now_ms,
            now_ns,
            after,
            stage,
            effects,
        ) ==> effects == seq![RunEffectModel::Finish(false)] && stage is Finished && after == w,
        run_step(
            w,
            RunStageModel::Pooling,
            RunEventModel::Pooled(outcomes),
            now_ms,
            now_ns,
            after,
            stage,
            effects,
        ) ==> effects == seq![RunEffectModel::Finish(false)] && stage is Finished && after.schedule
            == pool::after_outcomes(w.schedule, outcomes, now_ns, w.poll_ms) && after.deferral
            == w.deferral,
{
}

/// No step of a cycle changes how a member is configured, and only the leader
/// learns about shards.
pub proof fn law_a_cycle_changes_no_configuration(
    w: World,
    m: RunStageModel,
    e: RunEventModel,
    now_ms: u64,
    now_ns: u64,
    after: World,
    stage: RunStageModel,
    effects: Seq<RunEffectModel>,
)
    requires
        run_step(w, m, e, now_ms, now_ns, after, stage, effects),
    ensures
        after.owner == w.owner,
        after.initial == w.initial,
        after.poll_ms == w.poll_ms,
        after.max_leases == w.max_leases,
        after.limit == w.limit,
        after.me == w.me,
        after.max_take == w.max_take,
        after.duration == w.duration,
        after.bidder == w.bidder,
        after.reign == w.reign,
        !(m is Syncing) ==> after.memory == w.memory,
        !(m is Bidding) ==> after.leader_counter == w.leader_counter,
        !(m is Scanning) ==> after.leader_seen == w.leader_seen,
        !(m is Claiming) ==> after.seen == w.seen,
        !(m is Planning) && !(m is Pooling) ==> after.schedule == w.schedule,
        !(m is Claiming) && !(m is Planning) ==> after.deferral == w.deferral,
{
}

} // verus!
