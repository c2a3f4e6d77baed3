//! The in-process consumer: the records that a processor sees, and how a worker
//! is configured and stopped.

use std::sync::atomic::AtomicBool;
use std::sync::Arc;

use vstd::prelude::*;

use crate::collections;
use crate::fleet::FleetConfig;
use crate::json::{item_to_json, Json, RecordFormat};
use crate::json;
use crate::position::InitialPosition;
use crate::record::{Item, StreamModel, StreamRecord};
use crate::record;
use crate::scheduler;
use crate::text;

verus! {

/// A change record as a processor sees it.
#[derive(Debug)]
pub struct Record {
    pub shard_id: String,
    pub sequence_number: String,
    /// INSERT, MODIFY or REMOVE.
    pub event_name: Option<String>,
    /// KEYS_ONLY, NEW_IMAGE, OLD_IMAGE or NEW_AND_OLD_IMAGES.
    pub stream_view_type: Option<String>,
    /// The key attributes of the changed item.
    pub keys: Item,
    /// The item after the change.
    pub new_image: Option<Item>,
    /// The item before the change.
    pub old_image: Option<Item>,
    /// The format of its JSON views.
    pub format: RecordFormat,
}

/// The JSON object of an optional image.
pub open spec fn image_json(i: Option<Item>, f: RecordFormat) -> Option<Json> {
    match i {
        Some(x) => Some(Json::Object(json::shown_members(x@, f))),
        None => None,
    }
}

/// What an optional JSON value holds.
pub open spec fn optional_json(v: Option<serde_json::Value>) -> Option<Json> {
    match v {
        Some(x) => Some(json::json_of(x)),
        None => None,
    }
}

/// Every binary value of an optional image can be encoded.
pub open spec fn image_fits(i: Option<Item>) -> bool {
    match i {
        Some(x) => json::pairs_fit(x@),
        None => true,
    }
}

impl Record {
    /// The keys as JSON, in the format of the worker.
    pub fn keys_json(&self) -> (v: serde_json::Value)
        requires
            json::pairs_fit(self.keys@),
        ensures
            json::json_of(v) == Json::Object(json::shown_members(self.keys@, self.format)),
    {
        item_to_json(&self.keys, self.format)
    }

    /// The new image as JSON, in the format of the worker.
    pub fn new_image_json(&self) -> (v: Option<serde_json::Value>)
        requires
            image_fits(self.new_image),
        ensures
            optional_json(v) == image_json(self.new_image, self.format),
    {
        match &self.new_image {
            Some(i) => Some(item_to_json(i, self.format)),
            None => None,
        }
    }

    /// The old image as JSON, in the format of the worker.
    pub fn old_image_json(&self) -> (v: Option<serde_json::Value>)
        requires
            image_fits(self.old_image),
        ensures
            optional_json(v) == image_json(self.old_image, self.format),
    {
        match &self.old_image {
            Some(i) => Some(item_to_json(i, self.format)),
            None => None,
        }
    }

    /// The format of the worker that delivered the record.
    pub fn record_format(&self) -> (f: RecordFormat)
        ensures
            f == self.format,
    {
        self.format
    }
}

/// Make the record that a processor sees from a delivered one and its decoded
/// payload. A payload that could not be decoded gives a record without images
/// rather than none, so that neither order nor checkpoints skip it.
pub fn decode_record(
    r: &scheduler::Record,
    decoded: Option<StreamRecord>,
    format: RecordFormat,
) -> (c: Record)
    ensures
        ({
            let s: StreamModel = match decoded {
                Some(d) => d@,
                None => record::blank(),
            };
            &&& c.shard_id@ == r.shard_id@
            &&& c.sequence_number@ == (match s.sequence_number {
                Some(n) => n,
                None => r.seq@,
            })
            &&& collections::optional_text(c.event_name) == s.event_name
            &&& collections::optional_text(c.stream_view_type) == s.stream_view_type
            &&& c.keys@ == s.keys
            &&& record::image_model(c.new_image) == s.new_image
            &&& record::image_model(c.old_image) == s.old_image
            &&& c.format == format
        }),
{
    let s = match decoded {
        Some(d) => d,
        None => StreamRecord::default(),
    };
    let sequence_number = match s.sequence_number {
        Some(n) => n,
        None => r.seq.clone(),
    };
    Record {
        shard_id: r.shard_id.clone(),
        sequence_number,
        event_name: s.event_name,
        stream_view_type: s.stream_view_type,
        keys: s.keys,
        new_image: s.new_image,
        old_image: s.old_image,
        format,
    }
}

/// The worker's name when none is given: `<host>-<pid>`.
pub fn default_owner(host: Option<&str>, pid: u32) -> (r: String)
    ensures
        r@ == (match host {
            Some(h) => h@,
            None => "host"@,
        }) + "-"@ + text::decimal_text(pid as nat),
{
    let mut r = match host {
        Some(h) => h.to_owned(),
        None => "host".to_owned(),
    };
    r.append("-");
    r.append(text::decimal(pid as u64).as_str());
    r
}

/// How a worker is configured; `P` is what makes its processors.
pub struct WorkerBuilder<P> {
    stream_arn: Option<String>,
    lease_table: Option<String>,
    region: Option<String>,
    owner: Option<String>,
    record_format: RecordFormat,
    max_leases: usize,
    lease_duration_ms: u64,
    poll_interval_ms: u64,
    initial_position: InitialPosition,
    processor: Option<P>,
    max_processing_concurrency: Option<usize>,
}

/// What was configured so far.
pub struct BuilderModel<P> {
    pub stream_arn: Option<Seq<char>>,
    pub lease_table: Option<Seq<char>>,
    pub region: Option<Seq<char>>,
    pub owner: Option<Seq<char>>,
    pub record_format: RecordFormat,
    pub max_leases: usize,
    pub lease_duration_ms: u64,
    pub poll_interval_ms: u64,
    pub initial_position: InitialPosition,
    pub processor: Option<P>,
    pub max_processing_concurrency: Option<usize>,
}

impl<P> View for WorkerBuilder<P> {
    type V = BuilderModel<P>;

    closed spec fn view(&self) -> BuilderModel<P> {
        BuilderModel {
            stream_arn: collections::optional_text(self.stream_arn),
            lease_table: collections::optional_text(self.lease_table),
            region: collections::optional_text(self.region),
            owner: collections::optional_text(self.owner),
            record_format: self.record_format,
            max_leases: self.max_leases,
            lease_duration_ms: self.lease_duration_ms,
            poll_interval_ms: self.poll_interval_ms,
            initial_position: self.initial_position,
            processor: self.processor,
            max_processing_concurrency: self.max_processing_concurrency,
        }
    }
}

/// A complete configuration.
pub struct WorkerSettings<P> {
    pub stream_arn: String,
    pub lease_table: String,
    pub region: Option<String>,
    pub record_format: RecordFormat,
    pub fleet: FleetConfig,
    pub processor: P,
    pub max_processing_concurrency: Option<usize>,
}

/// What is missing from a configuration.
#[derive(Clone, Copy, Debug, PartialEq, Eq, Structural)]
pub enum MissingSetting {
    StreamArn,
    LeaseTable,
    Processor,
}

impl MissingSetting {
    /// The message for it.
    pub fn message(&self) -> (r: &'static str)
        ensures
            r@ == (match self {
                MissingSetting::StreamArn => "stream_arn is required"@,
                MissingSetting::LeaseTable => "lease_table is required"@,
                MissingSetting::Processor => "processor is required"@,
            }),
    {
        match self {
            MissingSetting::StreamArn => "stream_arn is required",
            MissingSetting::LeaseTable => "lease_table is required",
            MissingSetting::Processor => "processor is required",
        }
    }
}

impl<P> Default for WorkerBuilder<P> {
    fn default() -> (b: Self)
        ensures
            b@ == (BuilderModel::<P> {
                stream_arn: None,
                lease_table: None,
                region: None,
                owner: None,
                record_format: RecordFormat::Native,
                max_leases: 100,
                lease_duration_ms: 60_000,
                poll_interval_ms: 1_000,
                initial_position: InitialPosition::TrimHorizon,
                processor: None,
                max_processing_concurrency: None,
            }),
    {
        WorkerBuilder {
            stream_arn: None,
            lease_table: None,
            region: None,
            owner: None,
            record_format: RecordFormat::default(),
            max_leases: 100,
            lease_duration_ms: 60_000,
            poll_interval_ms: 1_000,
            initial_position: InitialPosition::default(),
            processor: None,
            max_processing_concurrency: None,
        }
    }
}

impl<P> WorkerBuilder<P> {
    /// The stream to consume (required).
    pub fn stream_arn(self, arn: &str) -> (b: Self)
        ensures
            b@ == (BuilderModel { stream_arn: Some(arn@), ..self@ }),
    {
        let mut b = self;
        b.stream_arn = Some(arn.to_owned());
        b
    }

    /// The table of the leases (required).
    pub fn lease_table(self, name: &str) -> (b: Self)
        ensures
            b@ == (BuilderModel { lease_table: Some(name@), ..self@ }),
    {
        let mut b = self;
        b.lease_table = Some(name.to_owned());
        b
    }

    /// The AWS region; by default that of the environment.
    pub fn region(self, region: &str) -> (b: Self)
        ensures
            b@ == (BuilderModel { region: Some(region@), ..self@ }),
    {
        let mut b = self;
        b.region = Some(region.to_owned());
        b
    }

    /// The name under which leases are held.
    pub fn owner(self, owner: &str) -> (b: Self)
        ensures
            b@ == (BuilderModel { owner: Some(owner@), ..self@ }),
    {
        let mut b = self;
        b.owner = Some(owner.to_owned());
        b
    }

    /// The format of JSON views.
    pub fn record_format(self, fmt: RecordFormat) -> (b: Self)
        ensures
            b@ == (BuilderModel { record_format: fmt, ..self@ }),
    {
        let mut b = self;
        b.record_format = fmt;
        b
    }

    /// The most shard leases that are held at once.
    pub fn max_leases(self, n: usize) -> (b: Self)
        ensures
            b@ == (BuilderModel { max_leases: n, ..self@ }),
    {
        let mut b = self;
        b.max_leases = n;
        b
    }

    /// How long a lease lasts without a heartbeat.
    pub fn lease_duration_ms(self, ms: u64) -> (b: Self)
        ensures
            b@ == (BuilderModel { lease_duration_ms: ms, ..self@ }),
    {
        let mut b = self;
        b.lease_duration_ms = ms;
        b
    }

    /// The idle back-off between empty reads.
    pub fn poll_interval_ms(self, ms: u64) -> (b: Self)
        ensures
            b@ == (BuilderModel { poll_interval_ms: ms, ..self@ }),
    {
        let mut b = self;
        b.poll_interval_ms = ms;
        b
    }

    /// Where the shards begin that are seeded into a table without shards. Those
    /// with a checkpoint, and children, are not affected.
    pub fn initial_position(self, position: InitialPosition) -> (b: Self)
        ensures
            b@ == (BuilderModel { initial_position: position, ..self@ }),
    {
        let mut b = self;
        b.initial_position = position;
        b
    }

    /// What makes the processors (required).
    pub fn processor(self, factory: P) -> (b: Self)
        ensures
            b@ == (BuilderModel { processor: Some(factory), ..self@ }),
    {
        let mut b = self;
        b.processor = Some(factory);
        b
    }

    /// The most shards that are processed at once; zero means no bound.
    pub fn max_processing_concurrency(self, max: usize) -> (b: Self)
        ensures
            b@ == (BuilderModel { max_processing_concurrency: Some(max), ..self@ }),
    {
        let mut b = self;
        b.max_processing_concurrency = Some(max);
        b
    }

    /// Check that nothing required is missing and fill in the name of the
    /// worker, given the host and the process.
    pub fn resolve(self, host: Option<&str>, pid: u32) -> (r: Result<
        WorkerSettings<P>,
        MissingSetting,
    >)
        ensures
            match r {
                Ok(s) => {
                    &&& self@.stream_arn == Some(s.stream_arn@)
                    &&& self@.lease_table == Some(s.lease_table@)
                    &&& self@.processor == Some(s.processor)
                    &&& collections::optional_text(s.region) == self@.region
                    &&& s.record_format == self@.record_format
                    &&& s.max_processing_concurrency == self@.max_processing_concurrency
                    &&& s.fleet.max_leases == self@.max_leases
                    &&& s.fleet.lease_duration_ms == self@.lease_duration_ms
                    &&& s.fleet.poll_interval_ms == self@.poll_interval_ms
                    &&& s.fleet.initial_position == self@.initial_position
                    &&& s.fleet.owner@ == (match self@.owner {
                        Some(o) => o,
                        None => (match host {
                            Some(h) => h@,
                            None => "host"@,
                        }) + "-"@ + text::decimal_text(pid as nat),
                    })
                },
                Err(MissingSetting::StreamArn) => self@.stream_arn is None,
                Err(MissingSetting::LeaseTable) => self@.stream_arn is Some
                    && self@.lease_table is None,
                Err(MissingSetting::Processor) => self@.stream_arn is Some
                    && self@.lease_table is Some && self@.processor is None,
            },
            r is Ok <==> self@.stream_arn is Some && self@.lease_table is Some
                && self@.processor is Some,
    {
        let stream_arn = match self.stream_arn {
            Some(s) => s,
            None => return Err(MissingSetting::StreamArn),
        };
        let lease_table = match self.lease_table {
            Some(s) => s,
            None => return Err(MissingSetting::LeaseTable),
        };
        let processor = match self.processor {
            Some(p) => p,
            None => return Err(MissingSetting::Processor),
        };
        let owner = match self.owner {
            Some(o) => o,
            None => default_owner(host, pid),
        };
        Ok(
            WorkerSettings {
                stream_arn,
                lease_table,
                region: self.region,
                record_format: self.record_format,
                fleet: FleetConfig {
                    owner,
                    max_leases: self.max_leases,
                    lease_duration_ms: self.lease_duration_ms,
                    poll_interval_ms: self.poll_interval_ms,
                    initial_position: self.initial_position,
                },
                processor,
                max_processing_concurrency: self.max_processing_concurrency,
            },
        )
    }
}

/// A handle to stop a running worker. It can be cloned; all clones share one
/// flag, which changes behind a shared reference, so nothing is stated of it.
#[derive(Clone)]
pub struct StopHandle(Arc<AtomicBool>);

impl StopHandle {
    /// A handle that was not used yet.
    pub fn new() -> StopHandle {
        StopHandle(Arc::new(AtomicBool::new(false)))
    }

    /// Ask the worker to stop after the current cycle and release its leases.
    pub fn stop(&self) {
        self.0.store(true, std::sync::atomic::Ordering::Relaxed);
    }

    /// Was the worker asked to stop?
    pub fn is_stopped(&self) -> bool {
        self.0.load(std::sync::atomic::Ordering::Relaxed)
    }
}

/// Where the loop of a worker stands.
#[derive(Clone, Copy, Debug, PartialEq, Eq, Structural)]
pub enum LoopStage {
    /// It is about to see whether it was asked to stop.
    Checking,
    /// A cycle is running.
    Cycling,
    /// It waits before the next cycle.
    Resting,
    /// It runs no more cycles, and is about to see whether that is because it
    /// was asked to stop.
    Leaving,
    /// Its leases are being released.
    Releasing,
    Over,
}

/// What became of the last action of the loop.
#[derive(Clone, Copy, Debug, PartialEq, Eq, Structural)]
pub enum LoopEvent {
    /// Was it asked to stop?
    Asked(bool),
    /// A cycle ran: are all shards complete?
    Cycled(bool),
    CycleFailed,
    Rested,
    /// The leases were released, as far as possible.
    Released,
}

/// What the loop of a worker does next.
#[derive(Clone, Copy, Debug, PartialEq, Eq, Structural)]
pub enum LoopAction {
    /// See whether it was asked to stop.
    AskStop,
    RunCycle,
    /// Wait for so many milliseconds.
    Rest(u64),
    Release,
    Finish,
    Fail,
}

/// What an event leads to. Cycles run until all shards are complete or the
/// worker is asked to stop; if it was asked by then, its leases are released. A
/// failed cycle ends the loop at once, and so does an event out of turn.
pub open spec fn loop_step(stage: LoopStage, event: LoopEvent, poll_interval_ms: u64) -> (
    LoopStage,
    LoopAction,
) {
    match (stage, event) {
        (LoopStage::Checking, LoopEvent::Asked(false)) => (
            LoopStage::Cycling,
            LoopAction::RunCycle,
        ),
        (LoopStage::Checking, LoopEvent::Asked(true)) => (LoopStage::Leaving, LoopAction::AskStop),
        (LoopStage::Cycling, LoopEvent::Cycled(false)) => (
            LoopStage::Resting,
            LoopAction::Rest(poll_interval_ms),
        ),
        (LoopStage::Cycling, LoopEvent::Cycled(true)) => (LoopStage::Leaving, LoopAction::AskStop),
        (LoopStage::Resting, LoopEvent::Rested) => (LoopStage::Checking, LoopAction::AskStop),
        (LoopStage::Leaving, LoopEvent::Asked(true)) => (LoopStage::Releasing, LoopAction::Release),
        (LoopStage::Leaving, LoopEvent::Asked(false)) => (LoopStage::Over, LoopAction::Finish),
        (LoopStage::Releasing, LoopEvent::Released) => (LoopStage::Over, LoopAction::Finish),
        _ => (LoopStage::Over, LoopAction::Fail),
    }
}

/// The loop of a worker.
pub struct WorkerLoop {
    stage: LoopStage,
    poll_interval_ms: u64,
}

impl WorkerLoop {
    /// Where it stands.
    pub closed spec fn stage(&self) -> LoopStage {
        self.stage
    }

    /// How long it waits between cycles, in milliseconds.
    pub closed spec fn interval(&self) -> u64 {
        self.poll_interval_ms
    }

    /// Start the loop.
    pub fn start(poll_interval_ms: u64) -> (r: (WorkerLoop, LoopAction))
        ensures
            r.0.stage() == LoopStage::Checking,
            r.0.interval() == poll_interval_ms,
            r.1 == LoopAction::AskStop,
    {
        (WorkerLoop { stage: LoopStage::Checking, poll_interval_ms }, LoopAction::AskStop)
    }

    /// Advance the loop.
    pub fn step(&mut self, event: LoopEvent) -> (a: LoopAction)
        ensures
            (final(self).stage(), a) == loop_step(old(self).stage(), event, old(self).interval()),
            final(self).interval() == old(self).interval(),
    {
        let (stage, action) = match (self.stage, event) {
            (LoopStage::Checking, LoopEvent::Asked(stopped)) => if stopped {
                (LoopStage::Leaving, LoopAction::AskStop)
            } else {
                (LoopStage::Cycling, LoopAction::RunCycle)
            },
            (LoopStage::Cycling, LoopEvent::Cycled(complete)) => if complete {
                (LoopStage::Leaving, LoopAction::AskStop)
            } else {
                (LoopStage::Resting, LoopAction::Rest(self.poll_interval_ms))
            },
            (LoopStage::Resting, LoopEvent::Rested) => (LoopStage::Checking, LoopAction::AskStop),
            (LoopStage::Leaving, LoopEvent::Asked(stopped)) => if stopped {
                (LoopStage::Releasing, LoopAction::Release)
            } else {
                (LoopStage::Over, LoopAction::Finish)
            },
            (LoopStage::Releasing, LoopEvent::Released) => (LoopStage::Over, LoopAction::Finish),
            _ => (LoopStage::Over, LoopAction::Fail),
        };
        self.stage = stage;
        action
    }

    /// See whether the worker was asked to stop, and advance the loop with what
    /// the flag showed.
    pub fn check(&mut self, stop: &StopHandle) -> (a: LoopAction)
        ensures
            exists|stopped: bool|
                (final(self).stage(), a) == #[trigger] loop_step(
                    old(self).stage(),
                    LoopEvent::Asked(stopped),
                    old(self).interval(),
                ),
            final(self).interval() == old(self).interval(),
    {
        self.step(LoopEvent::Asked(stop.is_stopped()))
    }
}

/// A worker that was asked to stop starts no more cycle: as long as the flag is
/// seen to be set, the loop goes from the check to the release of the leases.
pub proof fn law_a_stopped_worker_releases_its_leases(poll_interval_ms: u64)
    ensures
        ({
            let (leaving, ask) = loop_step(
                LoopStage::Checking,
                LoopEvent::Asked(true),
                poll_interval_ms,
            );
            &&& ask == LoopAction::AskStop
            &&& loop_step(leaving, LoopEvent::Asked(true), poll_interval_ms).1
                == LoopAction::Release
        }),
{
}

/// A cycle starts only after the worker was seen not to be stopped, and leases
/// are released only after it was seen to be.
pub proof fn law_the_flag_decides(stage: LoopStage, event: LoopEvent, poll_interval_ms: u64)
    ensures
        loop_step(stage, event, poll_interval_ms).1 == LoopAction::RunCycle ==> event
            == LoopEvent::Asked(false),
        loop_step(stage, event, poll_interval_ms).1 == LoopAction::Release ==> event
            == LoopEvent::Asked(true),
{
}

/// An image is shown as an object of its attributes, in the format that was
/// asked for; what is absent is not shown.
pub proof fn law_images_are_shown_as_objects(image: Option<Item>, f: RecordFormat)
    ensures
        image is None ==> image_json(image, f) is None,
        image is Some ==> image_json(image, f) is Some && image_json(image, f)->0 is Object
            && image_json(image, f)->0->Object_0 == json::shown_members((image->0)@, f),
{
}

/// A worker that nobody stops runs one cycle after the other, with a rest of the
/// poll interval in between, until all shards are complete; then it is over,
/// without a release. A failed cycle ends it with an error.
pub proof fn law_a_worker_cycles_until_all_is_complete(poll_interval_ms: u64)
    ensures
        ({
            let (cycling, run) = loop_step(
                LoopStage::Checking,
                LoopEvent::Asked(false),
                poll_interval_ms,
            );
            let (resting, rest) = loop_step(cycling, LoopEvent::Cycled(false), poll_interval_ms);
            let (again, ask) = loop_step(resting, LoopEvent::Rested, poll_interval_ms);
            let (leaving, last) = loop_step(cycling, LoopEvent::Cycled(true), poll_interval_ms);
            let (over, finish) = loop_step(leaving, LoopEvent::Asked(false), poll_interval_ms);
            &&& run == LoopAction::RunCycle
            &&& rest == LoopAction::Rest(poll_interval_ms)
            &&& ask == LoopAction::AskStop && again == LoopStage::Checking
            &&& last == LoopAction::AskStop
            &&& finish == LoopAction::Finish && over == LoopStage::Over
            &&& loop_step(cycling, LoopEvent::CycleFailed, poll_interval_ms) == (
                LoopStage::Over,
                LoopAction::Fail,
            )
        }),
{
}

/// A worker that is stopped releases its leases, also if all shards were
/// complete by then, and is over once they are released.
pub proof fn law_a_worker_is_over_after_the_release(poll_interval_ms: u64)
    ensures
        ({
            let (cycling, run) = loop_step(
                LoopStage::Checking,
                LoopEvent::Asked(false),
                poll_interval_ms,
            );
            let (leaving, ask) = loop_step(cycling, LoopEvent::Cycled(true), poll_interval_ms);
            let (releasing, release) = loop_step(leaving, LoopEvent::Asked(true), poll_interval_ms);
            let (over, finish) = loop_step(releasing, LoopEvent::Released, poll_interval_ms);
            &&& ask == LoopAction::AskStop
            &&& release == LoopAction::Release
            &&& finish == LoopAction::Finish
            &&& over == LoopStage::Over
        }),
{
}

} // verus!
