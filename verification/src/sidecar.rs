//! The consumer as a process of its own: how it is configured from environment
//! variables, and how it hands its shards over when it stops.

use vstd::prelude::*;

use crate::collections::StringMap;
use crate::lease_table::{LeaseBilling, LeaseTableConfig};
use crate::position::InitialPosition;
use crate::position;
use crate::text;

verus! {

/// The configuration of the process.
#[derive(Clone, Debug)]
pub struct Config {
    pub stream_arn: String,
    pub lease_table: String,
    pub owner: String,
    pub max_leases: usize,
    pub lease_duration_ms: u64,
    pub poll_interval_ms: u64,
    pub cycle_interval_ms: u64,
    pub initial_position: InitialPosition,
    pub graceful_shutdown_timeout_ms: u64,
    /// The most records of one read; by default the service decides.
    pub max_records: Option<i32>,
    /// The most shards that are processed at once; by default all of them.
    pub max_processing_concurrency: Option<usize>,
    /// How the lease table is created, if it is.
    pub lease_table_config: LeaseTableConfig,
}

/// The configuration, with text in place of strings.
pub struct ConfigModel {
    pub stream_arn: Seq<char>,
    pub lease_table: Seq<char>,
    pub owner: Seq<char>,
    pub max_leases: usize,
    pub lease_duration_ms: u64,
    pub poll_interval_ms: u64,
    pub cycle_interval_ms: u64,
    pub initial_position: InitialPosition,
    pub graceful_shutdown_timeout_ms: u64,
    pub max_records: Option<i32>,
    pub max_processing_concurrency: Option<usize>,
    pub lease_table_config: LeaseTableConfig,
}

impl View for Config {
    type V = ConfigModel;

    open spec fn view(&self) -> ConfigModel {
        ConfigModel {
            stream_arn: self.stream_arn@,
            lease_table: self.lease_table@,
            owner: self.owner@,
            max_leases: self.max_leases,
            lease_duration_ms: self.lease_duration_ms,
            poll_interval_ms: self.poll_interval_ms,
            cycle_interval_ms: self.cycle_interval_ms,
            initial_position: self.initial_position,
            graceful_shutdown_timeout_ms: self.graceful_shutdown_timeout_ms,
            max_records: self.max_records,
            max_processing_concurrency: self.max_processing_concurrency,
            lease_table_config: self.lease_table_config,
        }
    }
}

/// The value of a variable, if it is set.
pub open spec fn variable(vars: Map<Seq<char>, String>, name: Seq<char>) -> Option<Seq<char>> {
    if vars.contains_key(name) {
        Some(vars[name]@)
    } else {
        None
    }
}

/// The number that a variable gives: the default if it is not set or is no
/// number.
pub open spec fn number(value: Option<Seq<char>>, default: u64) -> u64 {
    match value {
        Some(v) => match text::unsigned_value(v, u64::MAX as int) {
            Some(n) => n as u64,
            None => default,
        },
        None => default,
    }
}

/// The limit on the records of a read, if there is one.
pub open spec fn record_limit(value: Option<Seq<char>>) -> Option<i32> {
    match value {
        Some(v) => match text::signed_value(v, i32::MIN as int, i32::MAX as int) {
            Some(n) => Some(n as i32),
            None => None,
        },
        None => None,
    }
}

/// The cap on the shards that are processed at once, if there is one: at least
/// one.
pub open spec fn concurrency_cap(value: Option<Seq<char>>) -> Option<usize> {
    match value {
        Some(v) => match text::unsigned_value(v, usize::MAX as int) {
            Some(n) => if n >= 1 {
                Some(n as usize)
            } else {
                None
            },
            None => None,
        },
        None => None,
    }
}

/// The value switches something on.
pub open spec fn switched_on(value: Option<Seq<char>>) -> bool {
    match value {
        Some(v) => {
            let word = text::uppercase(text::trimmed(v));
            word == "1"@ || word == "TRUE"@ || word == "YES"@ || word == "ON"@
        },
        None => false,
    }
}

/// The billing of a table that is created: provisioned on request, else on
/// demand.
pub open spec fn billing(vars: Map<Seq<char>, String>) -> LeaseBilling {
    let mode = variable(vars, "DDB_STREAMS_CONSUMER_LEASE_BILLING_MODE"@);
    if mode is Some && text::uppercase(mode->0) == "PROVISIONED"@ {
        LeaseBilling::Provisioned {
            read_capacity: number(
                variable(vars, "DDB_STREAMS_CONSUMER_LEASE_READ_CAPACITY"@),
                5,
            ) as i64,
            write_capacity: number(
                variable(vars, "DDB_STREAMS_CONSUMER_LEASE_WRITE_CAPACITY"@),
                5,
            ) as i64,
        }
    } else {
        LeaseBilling::PayPerRequest
    }
}

/// The name of the worker: as given, else `<host>:<pid>`.
pub open spec fn owner_name(vars: Map<Seq<char>, String>, pid: u32) -> Seq<char> {
    match variable(vars, "DDB_STREAMS_CONSUMER_OWNER"@) {
        Some(o) => o,
        None => (match variable(vars, "HOSTNAME"@) {
            Some(h) => h,
            None => "host"@,
        }) + ":"@ + text::decimal_text(pid as nat),
    }
}

/// Where shards without a checkpoint begin; `None` if the name is unknown.
pub open spec fn start(vars: Map<Seq<char>, String>) -> Option<InitialPosition> {
    match variable(vars, "DDB_STREAMS_CONSUMER_INITIAL_POSITION"@) {
        Some(v) => position::named_position(v),
        None => Some(InitialPosition::TrimHorizon),
    }
}

/// The message for a required variable that is not set.
pub open spec fn missing(name: Seq<char>) -> Seq<char> {
    "missing required env var "@ + name
}

/// The configuration that the variables give, or the message for the first
/// thing that is wrong with them.
pub open spec fn configured(vars: Map<Seq<char>, String>, pid: u32) -> Result<
    ConfigModel,
    Seq<char>,
> {
    let arn = variable(vars, "DDB_STREAMS_CONSUMER_STREAM_ARN"@);
    let table = variable(vars, "DDB_STREAMS_CONSUMER_LEASE_TABLE"@);
    if start(vars) is None {
        Err(
            "invalid DDB_STREAMS_CONSUMER_INITIAL_POSITION: "@ + variable(
                vars,
                "DDB_STREAMS_CONSUMER_INITIAL_POSITION"@,
            )->0,
        )
    } else if arn is None {
        Err(missing("DDB_STREAMS_CONSUMER_STREAM_ARN"@))
    } else if table is None {
        Err(missing("DDB_STREAMS_CONSUMER_LEASE_TABLE"@))
    } else {
        Ok(
            ConfigModel {
                stream_arn: arn->0,
                lease_table: table->0,
                owner: owner_name(vars, pid),
                max_leases: number(
                    variable(vars, "DDB_STREAMS_CONSUMER_MAX_LEASES"@),
                    100,
                ) as usize,
                lease_duration_ms: number(
                    variable(vars, "DDB_STREAMS_CONSUMER_LEASE_DURATION_MS"@),
                    10_000,
                ),
                poll_interval_ms: number(
                    variable(vars, "DDB_STREAMS_CONSUMER_POLL_INTERVAL_MS"@),
                    1_000,
                ),
                cycle_interval_ms: number(
                    variable(vars, "DDB_STREAMS_CONSUMER_CYCLE_INTERVAL_MS"@),
                    1_000,
                ),
                initial_position: start(vars)->0,
                graceful_shutdown_timeout_ms: number(
                    variable(vars, "DDB_STREAMS_CONSUMER_GRACEFUL_SHUTDOWN_MS"@),
                    5_000,
                ),
                max_records: record_limit(variable(vars, "DDB_STREAMS_CONSUMER_MAX_RECORDS"@)),
                max_processing_concurrency: concurrency_cap(
                    variable(vars, "DDB_STREAMS_CONSUMER_MAX_PROCESSING_CONCURRENCY"@),
                ),
                lease_table_config: LeaseTableConfig {
                    billing: billing(vars),
                    pitr: switched_on(variable(vars, "DDB_STREAMS_CONSUMER_LEASE_PITR"@)),
                },
            },
        )
    }
}

fn number_of(vars: &StringMap<String>, name: &str, default: u64) -> (n: u64)
    ensures
        n == number(variable(vars@, name@), default),
{
    match vars.get(name) {
        Some(v) => match text::parse_unsigned(v.as_str(), u64::MAX) {
            Some(n) => n,
            None => default,
        },
        None => default,
    }
}

fn record_limit_of(vars: &StringMap<String>) -> (r: Option<i32>)
    ensures
        r == record_limit(variable(vars@, "DDB_STREAMS_CONSUMER_MAX_RECORDS"@)),
{
    match vars.get("DDB_STREAMS_CONSUMER_MAX_RECORDS") {
        Some(v) => text::parse_i32(v.as_str()),
        None => None,
    }
}

fn concurrency_cap_of(vars: &StringMap<String>) -> (r: Option<usize>)
    ensures
        r == concurrency_cap(variable(vars@, "DDB_STREAMS_CONSUMER_MAX_PROCESSING_CONCURRENCY"@)),
{
    match vars.get("DDB_STREAMS_CONSUMER_MAX_PROCESSING_CONCURRENCY") {
        Some(v) => match text::parse_unsigned(v.as_str(), usize::MAX as u64) {
            Some(n) => if n >= 1 {
                Some(n as usize)
            } else {
                None
            },
            None => None,
        },
        None => None,
    }
}

fn switched_on_in(vars: &StringMap<String>, name: &str) -> (r: bool)
    ensures
        r == switched_on(variable(vars@, name@)),
{
    match vars.get(name) {
        Some(v) => {
            let word = text::trim(v.as_str());
            text::is_uppercased(word, "1") || text::is_uppercased(word, "TRUE")
                || text::is_uppercased(word, "YES") || text::is_uppercased(word, "ON")
        },
        None => false,
    }
}

fn billing_of(vars: &StringMap<String>) -> (b: LeaseBilling)
    ensures
        b == billing(vars@),
{
    let provisioned = match vars.get("DDB_STREAMS_CONSUMER_LEASE_BILLING_MODE") {
        Some(v) => text::is_uppercased(v.as_str(), "PROVISIONED"),
        None => false,
    };
    if provisioned {
        LeaseBilling::Provisioned {
            read_capacity: number_of(vars, "DDB_STREAMS_CONSUMER_LEASE_READ_CAPACITY", 5) as i64,
            write_capacity: number_of(vars, "DDB_STREAMS_CONSUMER_LEASE_WRITE_CAPACITY", 5) as i64,
        }
    } else {
        LeaseBilling::PayPerRequest
    }
}

fn owner_of(vars: &StringMap<String>, pid: u32) -> (r: String)
    ensures
        r@ == owner_name(vars@, pid),
{
    match vars.get("DDB_STREAMS_CONSUMER_OWNER") {
        Some(o) => o.clone(),
        None => {
            let mut r = match vars.get("HOSTNAME") {
                Some(h) => h.clone(),
                None => "host".to_owned(),
            };
            r.append(":");
            r.append(text::decimal(pid as u64).as_str());
            r
        },
    }
}

fn required(vars: &StringMap<String>, name: &str) -> (r: Result<String, String>)
    ensures
        match r {
            Ok(v) => variable(vars@, name@) == Some(v@),
            Err(m) => variable(vars@, name@) is None && m@ == missing(name@),
        },
{
    match vars.get(name) {
        Some(v) => Ok(v.clone()),
        None => {
            let mut m = "missing required env var ".to_owned();
            m.append(name);
            Err(m)
        },
    }
}

impl Config {
    /// The configuration from the environment variables and the number of the
    /// process.
    pub fn from_env(vars: &StringMap<String>, pid: u32) -> (r: Result<Config, String>)
        ensures
            match r {
                Ok(c) => configured(vars@, pid) == Ok::<ConfigModel, Seq<char>>(c@),
                Err(m) => configured(vars@, pid) == Err::<ConfigModel, Seq<char>>(m@),
            },
    {
        let initial_position = match vars.get("DDB_STREAMS_CONSUMER_INITIAL_POSITION") {
            Some(v) => match InitialPosition::parse(v.as_str()) {
                Some(p) => p,
                None => {
                    let mut m = "invalid DDB_STREAMS_CONSUMER_INITIAL_POSITION: ".to_owned();
                    m.append(v.as_str());
                    return Err(m);
                },
            },
            None => InitialPosition::default(),
        };
        let stream_arn = match required(vars, "DDB_STREAMS_CONSUMER_STREAM_ARN") {
            Ok(v) => v,
            Err(m) => return Err(m),
        };
        let lease_table = match required(vars, "DDB_STREAMS_CONSUMER_LEASE_TABLE") {
            Ok(v) => v,
            Err(m) => return Err(m),
        };
        Ok(
            Config {
                stream_arn,
                lease_table,
                owner: owner_of(vars, pid),
                max_leases: number_of(vars, "DDB_STREAMS_CONSUMER_MAX_LEASES", 100) as usize,
                lease_duration_ms: number_of(
                    vars,
                    "DDB_STREAMS_CONSUMER_LEASE_DURATION_MS",
                    10_000,
                ),
                poll_interval_ms: number_of(vars, "DDB_STREAMS_CONSUMER_POLL_INTERVAL_MS", 1_000),
                cycle_interval_ms: number_of(vars, "DDB_STREAMS_CONSUMER_CYCLE_INTERVAL_MS", 1_000),
                initial_position,
                graceful_shutdown_timeout_ms: number_of(
                    vars,
                    "DDB_STREAMS_CONSUMER_GRACEFUL_SHUTDOWN_MS",
                    5_000,
                ),
                max_records: record_limit_of(vars),
                max_processing_concurrency: concurrency_cap_of(vars),
                lease_table_config: LeaseTableConfig {
                    billing: billing_of(vars),
                    pitr: switched_on_in(vars, "DDB_STREAMS_CONSUMER_LEASE_PITR"),
                },
            },
        )
    }
}

/// A step of the handoff of shards when the process stops.
#[derive(Clone, Debug)]
pub enum HandoffStep {
    /// Tell the client that the process gives up this shard.
    Notify(String),
    /// Let processors flush for this many milliseconds.
    Wait(u64),
    /// Release the leases.
    Release,
}

/// A step, with text in place of strings.
pub enum HandoffStepModel {
    Notify(Seq<char>),
    Wait(u64),
    Release,
}

impl View for HandoffStep {
    type V = HandoffStepModel;

    open spec fn view(&self) -> HandoffStepModel {
        match self {
            HandoffStep::Notify(s) => HandoffStepModel::Notify(s@),
            HandoffStep::Wait(ms) => HandoffStepModel::Wait(*ms),
            HandoffStep::Release => HandoffStepModel::Release,
        }
    }
}

/// The steps, with text in place of strings.
pub open spec fn step_models(s: Seq<HandoffStep>) -> Seq<HandoffStepModel> {
    s.map_values(|h: HandoffStep| h@)
}

/// The notifications for shards, in order.
pub open spec fn notifications(shards: Seq<String>) -> Seq<HandoffStepModel> {
    shards.map_values(|s: String| HandoffStepModel::Notify(s@))
}

/// The handoff: every shard is announced, then processors get a window to
/// flush, and only then the leases are released. Without shards, or where they
/// could not be looked up, the leases are released at once.
pub open spec fn handoff(owned: Option<Seq<String>>, window_ms: u64) -> Seq<HandoffStepModel> {
    if owned is Some && owned->0.len() > 0 {
        notifications(owned->0) + seq![HandoffStepModel::Wait(window_ms), HandoffStepModel::Release]
    } else {
        seq![HandoffStepModel::Release]
    }
}

/// What to do when the process stops, given the shards that it owns; `None` if
/// they could not be looked up.
pub fn graceful_handoff(owned: &Option<Vec<String>>, graceful_shutdown_timeout_ms: u64) -> (steps:
    Vec<HandoffStep>)
    ensures
        step_models(steps@) == handoff(
            match owned {
                Some(v) => Some(v@),
                None => None,
            },
            graceful_shutdown_timeout_ms,
        ),
{
    let mut steps: Vec<HandoffStep> = Vec::new();
    if let Some(shards) = owned {
        if shards.len() > 0 {
            let mut i: usize = 0;
            while i < shards.len()
                invariant
                    i <= shards.len(),
                    step_models(steps@) == notifications(shards@.take(i as int)),
                decreases shards.len() - i,
            {
                let ghost before = steps@;
                steps.push(HandoffStep::Notify(shards[i].clone()));
                assert(step_models(steps@) =~= step_models(before).push(
                    HandoffStepModel::Notify(shards@[i as int]@),
                ));
                assert(notifications(shards@.take(i + 1)) =~= notifications(
                    shards@.take(i as int),
                ).push(HandoffStepModel::Notify(shards@[i as int]@)));
                i = i + 1;
            }
            assert(shards@.take(i as int) =~= shards@);
            steps.push(HandoffStep::Wait(graceful_shutdown_timeout_ms));
        }
    }
    let ghost before = steps@;
    steps.push(HandoffStep::Release);
    assert(step_models(steps@) =~= step_models(before).push(HandoffStepModel::Release));
    assert(step_models(steps@) =~= handoff(
        match owned {
            Some(v) => Some(v@),
            None => None,
        },
        graceful_shutdown_timeout_ms,
    ));
    steps
}

/// Where the process stands.
#[derive(Clone, Copy, Debug, PartialEq, Eq, Structural)]
pub enum SidecarStage {
    /// It is about to see whether it was asked to stop.
    Checking,
    /// A cycle is running.
    Cycling,
    /// It waits before the next cycle, or until it is asked to stop.
    Resting,
    /// It gives up its shards.
    HandingOff,
    /// It tells the client that it stops.
    Closing,
    Over,
}

/// What became of the last action of the process.
#[derive(Clone, Copy, Debug, PartialEq, Eq, Structural)]
pub enum SidecarEvent {
    /// Was it asked to stop?
    Asked(bool),
    /// A cycle ran: are all shards complete?
    Cycled(bool),
    CycleFailed,
    Rested,
    /// It was asked to stop while it waited.
    Interrupted,
    HandedOff,
    Closed,
}

/// What the process does next.
#[derive(Clone, Copy, Debug, PartialEq, Eq, Structural)]
pub enum SidecarAction {
    /// See whether it was asked to stop.
    AskStop,
    RunCycle,
    /// Wait for so many milliseconds, or until it is asked to stop.
    Rest(u64),
    /// Give up the shards, with a window of so many milliseconds to flush.
    HandOff(u64),
    /// Tell the client that the process stops.
    Close,
    Finish,
    Fail,
}

/// How the process paces itself.
#[derive(Clone, Copy, Debug, PartialEq, Eq, Structural)]
pub struct Pace {
    /// How long it waits between two cycles, in milliseconds.
    pub cycle_interval_ms: u64,
    /// How long processors may flush when it stops, in milliseconds.
    pub graceful_shutdown_timeout_ms: u64,
}

/// What an event leads to. Cycles run until the process is asked to stop or all
/// shards are complete; one that fails is followed by the next. Then the shards
/// are handed off, and the client is told. An event out of turn ends the loop.
pub open spec fn sidecar_step(stage: SidecarStage, event: SidecarEvent, pace: Pace) -> (
    SidecarStage,
    SidecarAction,
) {
    let leave = (
        SidecarStage::HandingOff,
        SidecarAction::HandOff(pace.graceful_shutdown_timeout_ms),
    );
    let rest = (SidecarStage::Resting, SidecarAction::Rest(pace.cycle_interval_ms));
    match (stage, event) {
        (SidecarStage::Checking, SidecarEvent::Asked(false)) => (
            SidecarStage::Cycling,
            SidecarAction::RunCycle,
        ),
        (SidecarStage::Checking, SidecarEvent::Asked(true)) => leave,
        (SidecarStage::Cycling, SidecarEvent::Cycled(true)) => leave,
        (SidecarStage::Cycling, SidecarEvent::Cycled(false)) => rest,
        (SidecarStage::Cycling, SidecarEvent::CycleFailed) => rest,
        (SidecarStage::Resting, SidecarEvent::Rested) => (
            SidecarStage::Checking,
            SidecarAction::AskStop,
        ),
        (SidecarStage::Resting, SidecarEvent::Interrupted) => leave,
        (SidecarStage::HandingOff, SidecarEvent::HandedOff) => (
            SidecarStage::Closing,
            SidecarAction::Close,
        ),
        (SidecarStage::Closing, SidecarEvent::Closed) => (
            SidecarStage::Over,
            SidecarAction::Finish,
        ),
        _ => (SidecarStage::Over, SidecarAction::Fail),
    }
}

/// The loop of the process.
pub struct SidecarLoop {
    stage: SidecarStage,
    pace: Pace,
}

impl SidecarLoop {
    /// Where it stands.
    pub closed spec fn stage(&self) -> SidecarStage {
        self.stage
    }

    /// How it paces itself.
    pub closed spec fn pace(&self) -> Pace {
        self.pace
    }

    /// Start the loop of a process with this configuration.
    pub fn start(config: &Config) -> (r: (SidecarLoop, SidecarAction))
        ensures
            r.0.stage() == SidecarStage::Checking,
            r.0.pace() == (Pace {
                cycle_interval_ms: config.cycle_interval_ms,
                graceful_shutdown_timeout_ms: config.graceful_shutdown_timeout_ms,
            }),
            r.1 == SidecarAction::AskStop,
    {
        let pace = Pace {
            cycle_interval_ms: config.cycle_interval_ms,
            graceful_shutdown_timeout_ms: config.graceful_shutdown_timeout_ms,
        };
        (SidecarLoop { stage: SidecarStage::Checking, pace }, SidecarAction::AskStop)
    }

    fn leave(&self) -> (r: (SidecarStage, SidecarAction))
        ensures
            r == (
                SidecarStage::HandingOff,
                SidecarAction::HandOff(self.pace().graceful_shutdown_timeout_ms),
            ),
    {
        (
            SidecarStage::HandingOff,
            SidecarAction::HandOff(self.pace.graceful_shutdown_timeout_ms),
        )
    }

    /// Advance the loop.
    pub fn step(&mut self, event: SidecarEvent) -> (a: SidecarAction)
        ensures
            (final(self).stage(), a) == sidecar_step(old(self).stage(), event, old(self).pace()),
            final(self).pace() == old(self).pace(),
    {
        let rest = (SidecarStage::Resting, SidecarAction::Rest(self.pace.cycle_interval_ms));
        let (stage, action) = match (self.stage, event) {
            (SidecarStage::Checking, SidecarEvent::Asked(stopped)) => if stopped {
                self.leave()
            } else {
                (SidecarStage::Cycling, SidecarAction::RunCycle)
            },
            (SidecarStage::Cycling, SidecarEvent::Cycled(complete)) => if complete {
                self.leave()
            } else {
                rest
            },
            (SidecarStage::Cycling, SidecarEvent::CycleFailed) => rest,
            (SidecarStage::Resting, SidecarEvent::Rested) => (
                SidecarStage::Checking,
                SidecarAction::AskStop,
            ),
            (SidecarStage::Resting, SidecarEvent::Interrupted) => self.leave(),
            (SidecarStage::HandingOff, SidecarEvent::HandedOff) => (
                SidecarStage::Closing,
                SidecarAction::Close,
            ),
            (SidecarStage::Closing, SidecarEvent::Closed) => (
                SidecarStage::Over,
                SidecarAction::Finish,
            ),
            _ => (SidecarStage::Over, SidecarAction::Fail),
        };
        self.stage = stage;
        action
    }
}

/// Where the process stands after some events, and its actions up to then.
pub open spec fn sidecar_trace(pace: Pace, events: Seq<SidecarEvent>) -> (
    SidecarStage,
    Seq<SidecarAction>,
)
    decreases events.len(),
{
    if events.len() == 0 {
        (SidecarStage::Checking, seq![SidecarAction::AskStop])
    } else {
        let (stage, actions) = sidecar_trace(pace, events.drop_last());
        let (s, a) = sidecar_step(stage, events.last(), pace);
        (s, actions.push(a))
    }
}

/// The shards are being given up, or were, as the last thing but telling the
/// client.
spec fn is_leaving(stage: SidecarStage, actions: Seq<SidecarAction>, pace: Pace) -> bool {
    let n = actions.len();
    let off = SidecarAction::HandOff(pace.graceful_shutdown_timeout_ms);
    match stage {
        SidecarStage::HandingOff => n > 0 && actions[n - 1] == off,
        SidecarStage::Closing => n > 1 && actions[n - 2] == off && actions[n - 1]
            == SidecarAction::Close,
        _ => true,
    }
}

proof fn lemma_leaving(pace: Pace, events: Seq<SidecarEvent>)
    ensures
        is_leaving(sidecar_trace(pace, events).0, sidecar_trace(pace, events).1, pace),
    decreases events.len(),
{
    if events.len() > 0 {
        lemma_leaving(pace, events.drop_last());
    }
}

/// A process that ends in order has handed off its shards right before it told
/// the client, whatever happened up to then: no failed cycle ends it.
pub proof fn law_the_process_hands_off_before_it_ends(pace: Pace, events: Seq<SidecarEvent>)
    requires
        sidecar_trace(pace, events).1.last() == SidecarAction::Finish,
    ensures
        ({
            let actions = sidecar_trace(pace, events).1;
            let n = actions.len();
            &&& n >= 3
            &&& actions[n - 3] == SidecarAction::HandOff(pace.graceful_shutdown_timeout_ms)
            &&& actions[n - 2] == SidecarAction::Close
        }),
{
    if events.len() > 0 {
        lemma_leaving(pace, events.drop_last());
    }
}

/// A cycle starts only after the process was seen not to be asked to stop; one
/// that fails leads to the next just as one that leaves shards to be done.
pub proof fn law_cycles_go_on_until_a_stop(stage: SidecarStage, event: SidecarEvent, pace: Pace)
    ensures
        sidecar_step(stage, event, pace).1 == SidecarAction::RunCycle ==> event
            == SidecarEvent::Asked(false),
        sidecar_step(SidecarStage::Cycling, SidecarEvent::CycleFailed, pace) == sidecar_step(
            SidecarStage::Cycling,
            SidecarEvent::Cycled(false),
            pace,
        ),
{
}

/// The leases are released once, as the last step, whatever became of the
/// lookup: no lease is stranded, and every notification precedes the release.
pub proof fn law_releases_once_and_last(owned: Option<Seq<String>>, window_ms: u64, i: int)
    requires
        0 <= i < handoff(owned, window_ms).len(),
    ensures
        handoff(owned, window_ms)[i] is Release <==> i == handoff(owned, window_ms).len() - 1,
{
}

/// Every owned shard is announced, in order, before the window to flush.
pub proof fn law_announces_every_owned_shard(owned: Seq<String>, window_ms: u64, i: int)
    requires
        0 <= i < owned.len(),
    ensures
        handoff(Some(owned), window_ms)[i] == HandoffStepModel::Notify(owned[i]@),
        handoff(Some(owned), window_ms)[owned.len() as int] == HandoffStepModel::Wait(window_ms),
{
}

/// `n` is the number that the variable `name` gives, or `default` where it is
/// not set or is no number.
pub open spec fn is_number_of(
    vars: Map<Seq<char>, String>,
    name: Seq<char>,
    default: u64,
    n: int,
) -> bool {
    if vars.contains_key(name) && text::unsigned_value(vars[name]@, u64::MAX as int) is Some {
        n == text::unsigned_value(vars[name]@, u64::MAX as int)->0
    } else {
        n == default
    }
}

proof fn lemma_number(vars: Map<Seq<char>, String>, name: Seq<char>, default: u64)
    ensures
        is_number_of(vars, name, default, number(variable(vars, name), default) as int),
{
    if vars.contains_key(name) {
        lemma_unsigned_range(vars[name]@, u64::MAX as int);
    }
}

proof fn lemma_unsigned_range(s: Seq<char>, max: int)
    ensures
        text::unsigned_value(s, max) is Some ==> 0 <= text::unsigned_value(s, max)->0 <= max,
{
    let d = text::without_plus(s);
    if text::all_digits(d) {
        lemma_digits_denote_a_natural(d);
    }
}

proof fn lemma_digits_denote_a_natural(d: Seq<char>)
    requires
        forall|i: int| 0 <= i < d.len() ==> text::is_digit(#[trigger] d[i]),
    ensures
        text::decimal_value(d) >= 0,
    decreases d.len(),
{
    if d.len() > 0 {
        assert(text::is_digit(d[d.len() - 1]));
        lemma_digits_denote_a_natural(d.drop_last());
    }
}

/// Without a stream or a table, or with a start position of an unknown name,
/// there is no configuration, and the message names what is wrong; otherwise
/// there is one.
pub proof fn law_what_is_required_of_the_environment(vars: Map<Seq<char>, String>, pid: u32)
    ensures
        ({
            let p = "DDB_STREAMS_CONSUMER_INITIAL_POSITION"@;
            let unknown = vars.contains_key(p) && position::named_position(vars[p]@) is None;
            let arn = vars.contains_key("DDB_STREAMS_CONSUMER_STREAM_ARN"@);
            let table = vars.contains_key("DDB_STREAMS_CONSUMER_LEASE_TABLE"@);
            let r = configured(vars, pid);
            &&& r is Ok <==> !unknown && arn && table
            &&& unknown ==> r->Err_0 == "invalid DDB_STREAMS_CONSUMER_INITIAL_POSITION: "@ + vars[p]@
            &&& !unknown && !arn ==> r->Err_0 == "missing required env var "@
                + "DDB_STREAMS_CONSUMER_STREAM_ARN"@
            &&& !unknown && arn && !table ==> r->Err_0 == "missing required env var "@
                + "DDB_STREAMS_CONSUMER_LEASE_TABLE"@
        }),
{
}

/// Every setting comes from the variable of its name, and has its own default.
pub proof fn law_each_setting_comes_from_its_variable(vars: Map<Seq<char>, String>, pid: u32)
    requires
        configured(vars, pid) is Ok,
    ensures
        ({
            let c = configured(vars, pid)->Ok_0;
            let p = "DDB_STREAMS_CONSUMER_INITIAL_POSITION"@;
            &&& c.stream_arn == vars["DDB_STREAMS_CONSUMER_STREAM_ARN"@]@
            &&& c.lease_table == vars["DDB_STREAMS_CONSUMER_LEASE_TABLE"@]@
            &&& is_number_of(
                vars,
                "DDB_STREAMS_CONSUMER_LEASE_DURATION_MS"@,
                10000,
                c.lease_duration_ms as int,
            )
            &&& is_number_of(
                vars,
                "DDB_STREAMS_CONSUMER_POLL_INTERVAL_MS"@,
                1000,
                c.poll_interval_ms as int,
            )
            &&& is_number_of(
                vars,
                "DDB_STREAMS_CONSUMER_CYCLE_INTERVAL_MS"@,
                1000,
                c.cycle_interval_ms as int,
            )
            &&& is_number_of(
                vars,
                "DDB_STREAMS_CONSUMER_GRACEFUL_SHUTDOWN_MS"@,
                5000,
                c.graceful_shutdown_timeout_ms as int,
            )
            &&& forall|n: int|
                #![trigger is_number_of(vars, "DDB_STREAMS_CONSUMER_MAX_LEASES"@, 100, n)]
                is_number_of(vars, "DDB_STREAMS_CONSUMER_MAX_LEASES"@, 100, n) && n <= usize::MAX
                    ==> c.max_leases == n
            &&& c.initial_position == (if vars.contains_key(p) {
                position::named_position(vars[p]@)->0
            } else {
                InitialPosition::TrimHorizon
            })
        }),
{
    lemma_number(vars, "DDB_STREAMS_CONSUMER_LEASE_DURATION_MS"@, 10000);
    lemma_number(vars, "DDB_STREAMS_CONSUMER_POLL_INTERVAL_MS"@, 1000);
    lemma_number(vars, "DDB_STREAMS_CONSUMER_CYCLE_INTERVAL_MS"@, 1000);
    lemma_number(vars, "DDB_STREAMS_CONSUMER_GRACEFUL_SHUTDOWN_MS"@, 5000);
    lemma_number(vars, "DDB_STREAMS_CONSUMER_MAX_LEASES"@, 100);
}

/// The limits on reads and on concurrency are those of their variables; without
/// one, or with one that is no such number, there is none. A concurrency of zero
/// is none, too.
pub proof fn law_limits_come_from_their_variables(vars: Map<Seq<char>, String>, pid: u32)
    requires
        configured(vars, pid) is Ok,
    ensures
        ({
            let c = configured(vars, pid)->Ok_0;
            let r = "DDB_STREAMS_CONSUMER_MAX_RECORDS"@;
            let k = "DDB_STREAMS_CONSUMER_MAX_PROCESSING_CONCURRENCY"@;
            let read = text::signed_value(vars[r]@, i32::MIN as int, i32::MAX as int);
            let cap = text::unsigned_value(vars[k]@, usize::MAX as int);
            &&& c.max_records is Some <==> vars.contains_key(r) && read is Some
            &&& c.max_records is Some ==> c.max_records->0 == read->0
            &&& c.max_processing_concurrency is Some <==> vars.contains_key(k) && cap is Some && cap->0
                != 0
            &&& c.max_processing_concurrency is Some ==> c.max_processing_concurrency->0 == cap->0
        }),
{
    let r = vars["DDB_STREAMS_CONSUMER_MAX_RECORDS"@]@;
    let k = vars["DDB_STREAMS_CONSUMER_MAX_PROCESSING_CONCURRENCY"@]@;
    lemma_unsigned_range(k, usize::MAX as int);
    lemma_unsigned_range(r, i32::MAX as int);
    if r.len() > 0 && r[0] == '-' && text::all_digits(r.drop_first()) {
        lemma_digits_denote_a_natural(r.drop_first());
    }
}

/// The table is provisioned if the word for it is given, in any case, with the
/// capacities of their variables, or five; it is recoverable if its variable is
/// one of four words, in any case and between any white space.
pub proof fn law_how_the_table_is_to_be_made(
    vars: Map<Seq<char>, String>,
    pid: u32,
    before: Seq<char>,
    word: Seq<char>,
    after: Seq<char>,
)
    requires
        configured(vars, pid) is Ok,
        forall|i: int| 0 <= i < before.len() ==> text::is_space(#[trigger] before[i]),
        forall|i: int| 0 <= i < after.len() ==> text::is_space(#[trigger] after[i]),
        word.len() > 0 ==> !text::is_space(word[0]) && !text::is_space(word[word.len() - 1]),
    ensures
        ({
            let c = (configured(vars, pid)->Ok_0).lease_table_config;
            let mode = "DDB_STREAMS_CONSUMER_LEASE_BILLING_MODE"@;
            let pitr = "DDB_STREAMS_CONSUMER_LEASE_PITR"@;
            &&& c.billing is Provisioned <==> vars.contains_key(mode) && position::is_same_word(
                vars[mode]@,
                "PROVISIONED"@,
            )
            &&& c.billing matches LeaseBilling::Provisioned { read_capacity, write_capacity } ==> {
                &&& forall|n: int|
                    #![trigger is_number_of(vars, "DDB_STREAMS_CONSUMER_LEASE_READ_CAPACITY"@, 5, n)]
                    is_number_of(vars, "DDB_STREAMS_CONSUMER_LEASE_READ_CAPACITY"@, 5, n) && n
                        <= i64::MAX ==> read_capacity == n
                &&& forall|n: int|
                    #![trigger is_number_of(vars, "DDB_STREAMS_CONSUMER_LEASE_WRITE_CAPACITY"@, 5, n)]
                    is_number_of(vars, "DDB_STREAMS_CONSUMER_LEASE_WRITE_CAPACITY"@, 5, n) && n
                        <= i64::MAX ==> write_capacity == n
            }
            &&& !vars.contains_key(pitr) ==> !c.pitr
            &&& vars.contains_key(pitr) && vars[pitr]@ == before + word + after ==> (c.pitr <==> word
                == "1"@ || position::is_same_word(word, "TRUE"@) || position::is_same_word(
                word,
                "YES"@,
            ) || position::is_same_word(word, "ON"@))
        }),
{
    let mode = "DDB_STREAMS_CONSUMER_LEASE_BILLING_MODE"@;
    lemma_number(vars, "DDB_STREAMS_CONSUMER_LEASE_READ_CAPACITY"@, 5);
    lemma_number(vars, "DDB_STREAMS_CONSUMER_LEASE_WRITE_CAPACITY"@, 5);
    reveal_strlit("PROVISIONED");
    reveal_strlit("1");
    reveal_strlit("TRUE");
    reveal_strlit("YES");
    reveal_strlit("ON");
    position::lemma_same_word(vars[mode]@, "PROVISIONED"@);
    text::law_trimming_takes_the_white_space_at_the_ends(before, word, after);
    position::lemma_same_word(word, "1"@);
    position::lemma_same_word(word, "TRUE"@);
    position::lemma_same_word(word, "YES"@);
    position::lemma_same_word(word, "ON"@);
    if position::is_same_word(word, "1"@) {
        assert(word[0] == "1"@[0]);
        assert(word =~= "1"@);
    }
}

/// The worker has the name that is given; else that of the host, or "host", with
/// the number of the process behind a colon.
pub proof fn law_how_the_worker_is_named(vars: Map<Seq<char>, String>, pid: u32)
    requires
        configured(vars, pid) is Ok,
    ensures
        ({
            let c = configured(vars, pid)->Ok_0;
            let o = "DDB_STREAMS_CONSUMER_OWNER"@;
            &&& vars.contains_key(o) ==> c.owner == vars[o]@
            &&& !vars.contains_key(o) && vars.contains_key("HOSTNAME"@) ==> c.owner
                == vars["HOSTNAME"@]@ + ":"@ + text::decimal_text(pid as nat)
            &&& !vars.contains_key(o) && !vars.contains_key("HOSTNAME"@) ==> c.owner == "host"@ + ":"@
                + text::decimal_text(pid as nat)
        }),
{
}

/// With nothing to announce, the leases are released at once; otherwise there
/// are the announcements, the window and the release, and nothing else.
pub proof fn law_a_handoff_has_no_other_steps(owned: Option<Seq<String>>, window_ms: u64)
    ensures
        owned is None || owned->0.len() == 0 ==> handoff(owned, window_ms).len() == 1,
        owned is Some && owned->0.len() > 0 ==> handoff(owned, window_ms).len() == owned->0.len() + 2,
{
}

/// A process that nobody stops runs one cycle after the other, with a rest in
/// between, until all shards are complete; that, or being asked to stop at any
/// time, has it hand off, tell the client and end.
pub proof fn law_the_process_runs_until_it_is_done_or_stopped(pace: Pace)
    ensures
        ({
            let (cycling, run) = sidecar_step(
                SidecarStage::Checking,
                SidecarEvent::Asked(false),
                pace,
            );
            let (resting, rest) = sidecar_step(cycling, SidecarEvent::Cycled(false), pace);
            let (again, ask) = sidecar_step(resting, SidecarEvent::Rested, pace);
            let (leaving, off) = sidecar_step(cycling, SidecarEvent::Cycled(true), pace);
            let (closing, close) = sidecar_step(leaving, SidecarEvent::HandedOff, pace);
            let (over, finish) = sidecar_step(closing, SidecarEvent::Closed, pace);
            &&& run == SidecarAction::RunCycle
            &&& rest == SidecarAction::Rest(pace.cycle_interval_ms)
            &&& ask == SidecarAction::AskStop && again == SidecarStage::Checking
            &&& off == SidecarAction::HandOff(pace.graceful_shutdown_timeout_ms)
            &&& sidecar_step(SidecarStage::Checking, SidecarEvent::Asked(true), pace) == (
                leaving,
                off,
            )
            &&& sidecar_step(resting, SidecarEvent::Interrupted, pace) == (leaving, off)
            &&& close == SidecarAction::Close
            &&& finish == SidecarAction::Finish
            &&& over == SidecarStage::Over
        }),
{
}

/// The steps of a handoff are what they stand for, in order.
pub proof fn law_steps_are_as_they_stand(s: Seq<HandoffStep>, i: int)
    requires
        0 <= i < s.len(),
    ensures
        step_models(s).len() == s.len(),
        match s[i] {
            HandoffStep::Notify(k) => step_models(s)[i] == HandoffStepModel::Notify(k@),
            HandoffStep::Wait(ms) => step_models(s)[i] == HandoffStepModel::Wait(ms),
            HandoffStep::Release => step_models(s)[i] is Release,
        },
{
}

/// A configuration is what its fields say.
pub proof fn law_a_configuration_is_as_it_stands(c: Config)
    ensures
        c@.stream_arn == c.stream_arn@,
        c@.lease_table == c.lease_table@,
        c@.owner == c.owner@,
        c@.max_leases == c.max_leases,
        c@.lease_duration_ms == c.lease_duration_ms,
        c@.poll_interval_ms == c.poll_interval_ms,
        c@.cycle_interval_ms == c.cycle_interval_ms,
        c@.initial_position == c.initial_position,
        c@.graceful_shutdown_timeout_ms == c.graceful_shutdown_timeout_ms,
        c@.max_records == c.max_records,
        c@.max_processing_concurrency == c.max_processing_concurrency,
        c@.lease_table_config == c.lease_table_config,
{
}

} // verus!
