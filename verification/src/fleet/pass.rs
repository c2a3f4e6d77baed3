//! One pass over a shard: read, deliver, checkpoint what was acknowledged, and
//! complete the shard at its end.
//!
//! A pass is a machine. It asks for effects, in order; the last one of each list
//! is answered by the next event, unless it finishes the pass.

use vstd::prelude::*;

use crate::collections::clone_optional;
use crate::collections;
use crate::fleet::defer::{CkptDefer, Deferral};
use crate::scheduler::{Batch, Record, RecordBatch, RecordModel};
use crate::scheduler;

verus! {

/// What a pass over a shard came to.
#[derive(Clone, Copy, Debug, PartialEq, Eq, Structural)]
pub enum PassOutcome {
    /// Records were delivered: poll again promptly.
    Active,
    /// There were no records at all: back off.
    Idle,
    /// The shard ended and was marked complete.
    Ended,
    /// The lease was lost, or reading or delivery failed.
    Stopped,
}

/// What happened since the last step of a pass.
pub enum PassEvent {
    Fetched(RecordBatch),
    FetchFailed,
    /// The batch was delivered; the consumer may have acknowledged a position.
    Delivered(Option<String>),
    DeliveryFailed,
    /// The checkpoint was written; the lease has this counter now.
    Persisted(u64),
    /// The checkpoint was refused: the lease is lost.
    PersistFailed,
}

/// What a pass asks for.
#[derive(Clone, Debug)]
pub enum PassEffect {
    /// Read the shard after this position.
    Fetch(Option<String>),
    /// Deliver the batch that was just read.
    Deliver,
    /// Write a checkpoint, on condition of the counter.
    Checkpoint(u64, String),
    /// Report a delivered batch: records, bytes, lag.
    ReportBatch(u64, u64, Option<i64>),
    /// Report that the lease was lost.
    ReportLost,
    /// Tell the consumer that the lease was lost.
    TellLost,
    /// Tell the consumer that the shard ended.
    TellEnded,
    /// Mark the shard complete, on condition of the counter.
    MarkComplete(u64),
    /// Report that the shard ended.
    ReportEnd,
    /// The pass is over.
    Finish(PassOutcome),
}

/// A pass event, with text in place of strings.
pub enum EventModel {
    Fetched(Batch),
    FetchFailed,
    Delivered(Option<Seq<char>>),
    DeliveryFailed,
    Persisted(u64),
    PersistFailed,
}

impl View for PassEvent {
    type V = EventModel;

    open spec fn view(&self) -> EventModel {
        match self {
            PassEvent::Fetched(b) => EventModel::Fetched(b@),
            PassEvent::FetchFailed => EventModel::FetchFailed,
            PassEvent::Delivered(a) => EventModel::Delivered(collections::optional_text(*a)),
            PassEvent::DeliveryFailed => EventModel::DeliveryFailed,
            PassEvent::Persisted(c) => EventModel::Persisted(*c),
            PassEvent::PersistFailed => EventModel::PersistFailed,
        }
    }
}

/// A pass effect, with text in place of strings.
pub enum EffectModel {
    Fetch(Option<Seq<char>>),
    Deliver,
    Checkpoint(u64, Seq<char>),
    ReportBatch(u64, u64, Option<i64>),
    ReportLost,
    TellLost,
    TellEnded,
    MarkComplete(u64),
    ReportEnd,
    Finish(PassOutcome),
}

impl View for PassEffect {
    type V = EffectModel;

    open spec fn view(&self) -> EffectModel {
        match self {
            PassEffect::Fetch(a) => EffectModel::Fetch(collections::optional_text(*a)),
            PassEffect::Deliver => EffectModel::Deliver,
            PassEffect::Checkpoint(c, s) => EffectModel::Checkpoint(*c, s@),
            PassEffect::ReportBatch(r, b, l) => EffectModel::ReportBatch(*r, *b, *l),
            PassEffect::ReportLost => EffectModel::ReportLost,
            PassEffect::TellLost => EffectModel::TellLost,
            PassEffect::TellEnded => EffectModel::TellEnded,
            PassEffect::MarkComplete(c) => EffectModel::MarkComplete(*c),
            PassEffect::ReportEnd => EffectModel::ReportEnd,
            PassEffect::Finish(o) => EffectModel::Finish(*o),
        }
    }
}

/// Some effects, with text in place of strings.
pub open spec fn effect_models(s: Seq<PassEffect>) -> Seq<EffectModel> {
    s.map_values(|e: PassEffect| e@)
}

/// What is kept of a batch while it is being delivered.
pub struct BatchNote {
    last: String,
    records: u64,
    bytes: u64,
    lag: Option<i64>,
    end: bool,
}

/// What is kept of a batch, with text in place of strings.
pub struct NoteModel {
    pub last: Seq<char>,
    pub records: u64,
    pub bytes: u64,
    pub lag: Option<i64>,
    pub end: bool,
}

impl View for BatchNote {
    type V = NoteModel;

    closed spec fn view(&self) -> NoteModel {
        NoteModel {
            last: self.last@,
            records: self.records,
            bytes: self.bytes,
            lag: self.lag,
            end: self.end,
        }
    }
}

/// Where a pass stands.
pub enum Stage {
    Fetching,
    Delivering(BatchNote),
    /// A checkpoint of what was acknowledged at this time is being written.
    Persisting(BatchNote, u64),
    /// A last checkpoint is being written before the shard is completed.
    Flushing,
    Finished,
}

/// Where a pass stands, with text in place of strings.
pub enum StageModel {
    Fetching,
    Delivering(NoteModel),
    Persisting(NoteModel, u64),
    Flushing,
    Finished,
}

impl View for Stage {
    type V = StageModel;

    open spec fn view(&self) -> StageModel {
        match self {
            Stage::Fetching => StageModel::Fetching,
            Stage::Delivering(n) => StageModel::Delivering(n@),
            Stage::Persisting(n, t) => StageModel::Persisting(n@, *t),
            Stage::Flushing => StageModel::Flushing,
            Stage::Finished => StageModel::Finished,
        }
    }
}

/// A pass over one shard.
pub struct ShardPass {
    shard: String,
    counter: u64,
    after: Option<String>,
    delivered_any: bool,
    stage: Stage,
}

/// The state of a pass.
pub struct PassModel {
    pub shard: Seq<char>,
    /// The counter of the lease.
    pub counter: u64,
    /// Where the next read starts.
    pub after: Option<Seq<char>>,
    pub delivered_any: bool,
    pub stage: StageModel,
}

impl View for ShardPass {
    type V = PassModel;

    closed spec fn view(&self) -> PassModel {
        PassModel {
            shard: self.shard@,
            counter: self.counter,
            after: collections::optional_text(self.after),
            delivered_any: self.delivered_any,
            stage: self.stage@,
        }
    }
}

/// The deferral, if checkpoints are deferred.
pub open spec fn deferral(d: Option<CkptDefer>) -> Option<Deferral> {
    match d {
        Some(x) => Some(x@),
        None => None,
    }
}

/// What is pending of `shard`.
pub open spec fn pending_of(d: Option<Deferral>, shard: Seq<char>) -> Option<Seq<char>> {
    match d {
        Some(x) => x.pending(shard),
        None => None,
    }
}

/// The deferral without anything about `shard`.
pub open spec fn without(d: Option<Deferral>, shard: Seq<char>) -> Option<Deferral> {
    match d {
        Some(x) => Some(x.forgotten(shard)),
        None => None,
    }
}

/// The payload bytes of some records.
pub open spec fn payload(records: Seq<RecordModel>) -> int
    decreases records.len(),
{
    if records.len() == 0 {
        0
    } else {
        payload(records.drop_last()) + records.last().data.len()
    }
}

/// What is kept of a batch that holds records.
pub open spec fn note_of(b: Batch) -> NoteModel {
    NoteModel {
        last: b.records.last().seq,
        records: b.records.len() as u64,
        bytes: if payload(b.records) <= u64::MAX {
            payload(b.records) as u64
        } else {
            u64::MAX
        },
        lag: b.lag,
        end: b.shard_end,
    }
}

/// The state, the deferral and the effects after a step.
pub struct StepModel {
    pub pass: PassModel,
    pub deferral: Option<Deferral>,
    pub effects: Seq<EffectModel>,
}

/// The pass is over.
pub open spec fn finished(m: PassModel, d: Option<Deferral>, o: PassOutcome) -> StepModel {
    StepModel {
        pass: PassModel { stage: StageModel::Finished, ..m },
        deferral: d,
        effects: seq![EffectModel::Finish(o)],
    }
}

/// The lease is lost: everything pending is dropped.
pub open spec fn lost(m: PassModel, d: Option<Deferral>) -> StepModel {
    StepModel {
        pass: PassModel { stage: StageModel::Finished, ..m },
        deferral: without(d, m.shard),
        effects: seq![
            EffectModel::ReportLost,
            EffectModel::TellLost,
            EffectModel::Finish(PassOutcome::Stopped),
        ],
    }
}

/// The shard is completed: nothing of it is pending any more.
pub open spec fn completed(m: PassModel, d: Option<Deferral>) -> StepModel {
    StepModel {
        pass: PassModel { stage: StageModel::Finished, ..m },
        deferral: without(d, m.shard),
        effects: seq![
            EffectModel::TellEnded,
            EffectModel::MarkComplete(m.counter),
            EffectModel::ReportEnd,
            EffectModel::Finish(PassOutcome::Ended),
        ],
    }
}

/// The shard has ended: what is pending is flushed before it is completed.
pub open spec fn ending(m: PassModel, d: Option<Deferral>) -> StepModel {
    match pending_of(d, m.shard) {
        Some(seq) => StepModel {
            pass: PassModel { stage: StageModel::Flushing, ..m },
            deferral: Some((d->0).taken(m.shard)),
            effects: seq![EffectModel::Checkpoint(m.counter, seq)],
        },
        None => completed(m, d),
    }
}

/// A batch was delivered and, as far as it was to be, checkpointed.
pub open spec fn settled(m: PassModel, d: Option<Deferral>, n: NoteModel) -> StepModel {
    let report = seq![EffectModel::ReportBatch(n.records, n.bytes, n.lag)];
    let next = PassModel { after: Some(n.last), stage: StageModel::Fetching, ..m };
    if n.end {
        let s = ending(next, d);
        StepModel { effects: report + s.effects, ..s }
    } else {
        StepModel {
            pass: next,
            deferral: d,
            effects: report + seq![EffectModel::Fetch(Some(n.last))],
        }
    }
}

/// One step of a pass. An event that the pass does not wait for changes nothing.
pub open spec fn pass_step(m: PassModel, d: Option<Deferral>, e: EventModel, now: u64) -> StepModel {
    match (m.stage, e) {
        (StageModel::Fetching, EventModel::Fetched(b)) => if b.records.len() > 0 {
            StepModel {
                pass: PassModel {
                    delivered_any: true,
                    stage: StageModel::Delivering(note_of(b)),
                    ..m
                },
                deferral: d,
                effects: seq![EffectModel::Deliver],
            }
        } else if b.shard_end {
            ending(m, d)
        } else if m.delivered_any {
            finished(m, d, PassOutcome::Active)
        } else {
            finished(m, d, PassOutcome::Idle)
        },
        (StageModel::Fetching, EventModel::FetchFailed) => finished(m, d, PassOutcome::Stopped),
        (StageModel::Delivering(n), EventModel::Delivered(None)) => settled(m, d, n),
        (StageModel::Delivering(n), EventModel::Delivered(Some(ack))) => match d {
            None => StepModel {
                pass: PassModel { stage: StageModel::Persisting(n, now), ..m },
                deferral: d,
                effects: seq![EffectModel::Checkpoint(m.counter, ack)],
            },
            Some(x) => {
                let acked = Some(x.acked(m.shard, ack, now));
                if x.is_due(m.shard, now) {
                    StepModel {
                        pass: PassModel { stage: StageModel::Persisting(n, now), ..m },
                        deferral: acked,
                        effects: seq![EffectModel::Checkpoint(m.counter, ack)],
                    }
                } else {
                    settled(m, acked, n)
                }
            },
        },
        (StageModel::Delivering(_), EventModel::DeliveryFailed) => finished(
            m,
            without(d, m.shard),
            PassOutcome::Stopped,
        ),
        (StageModel::Persisting(n, acked_at), EventModel::Persisted(c)) => {
            let saved = match d {
                Some(x) => Some(x.saved(m.shard, acked_at)),
                None => None,
            };
            settled(PassModel { counter: c, ..m }, saved, n)
        },
        (StageModel::Flushing, EventModel::Persisted(c)) => completed(
            PassModel { counter: c, ..m },
            d,
        ),
        (StageModel::Persisting(_, _), EventModel::PersistFailed) => lost(m, d),
        (StageModel::Flushing, EventModel::PersistFailed) => lost(m, d),
        _ => StepModel { pass: m, deferral: d, effects: Seq::empty() },
    }
}

/// The payload bytes of some records, saturating.
fn payload_bytes(records: &Vec<Record>) -> (r: u64)
    ensures
        r == (if payload(scheduler::record_models(records@)) <= u64::MAX {
            payload(scheduler::record_models(records@))
        } else {
            u64::MAX as int
        }),
{
    let ghost t = scheduler::record_models(records@);
    let mut r: u64 = 0;
    let mut i: usize = 0;
    while i < records.len()
        invariant
            i <= records.len(),
            t == scheduler::record_models(records@),
            payload(t.take(i as int)) >= 0,
            r == (if payload(t.take(i as int)) <= u64::MAX {
                payload(t.take(i as int))
            } else {
                u64::MAX as int
            }),
        decreases records.len() - i,
    {
        assert(t.take(i + 1).drop_last() =~= t.take(i as int));
        assert(t[i as int].data.len() == records@[i as int].data@.len());
        r = r.saturating_add(records[i].data.len() as u64);
        i = i + 1;
    }
    assert(t.take(i as int) =~= t);
    r
}

fn forget_in(defer: &mut Option<CkptDefer>, shard: &str)
    ensures
        deferral(*final(defer)) == without(deferral(*old(defer)), shard@),
{
    match defer {
        Some(d) => d.forget(shard),
        None => {},
    }
}

impl ShardPass {
    /// Start a pass over `shard`, held with `counter`. It resumes after what is
    /// pending, else after the checkpoint of the lease.
    pub fn start(
        shard: &str,
        counter: u64,
        checkpoint: &Option<String>,
        defer: &Option<CkptDefer>,
    ) -> (r: (ShardPass, Vec<PassEffect>))
        ensures
            ({
                let pending = pending_of(deferral(*defer), shard@);
                let after = if pending is Some {
                    pending
                } else {
                    collections::optional_text(*checkpoint)
                };
                &&& r.0@ == (PassModel {
                    shard: shard@,
                    counter,
                    after,
                    delivered_any: false,
                    stage: StageModel::Fetching,
                })
                &&& effect_models(r.1@) == seq![EffectModel::Fetch(after)]
            }),
    {
        let pending = match defer {
            Some(d) => d.resume_from(shard),
            None => None,
        };
        let after = match pending {
            Some(s) => Some(s),
            None => clone_optional(checkpoint),
        };
        let mut effects: Vec<PassEffect> = Vec::new();
        effects.push(PassEffect::Fetch(clone_optional(&after)));
        assert(effect_models(effects@) =~= seq![
            EffectModel::Fetch(collections::optional_text(after)),
        ]);
        let pass = ShardPass {
            shard: shard.to_owned(),
            counter,
            after,
            delivered_any: false,
            stage: Stage::Fetching,
        };
        (pass, effects)
    }

    fn finish(&mut self, o: PassOutcome) -> (effects: Vec<PassEffect>)
        ensures
            final(self)@ == finished(old(self)@, None, o).pass,
            effect_models(effects@) == finished(old(self)@, None, o).effects,
    {
        self.stage = Stage::Finished;
        let mut effects: Vec<PassEffect> = Vec::new();
        effects.push(PassEffect::Finish(o));
        assert(effect_models(effects@) =~= seq![EffectModel::Finish(o)]);
        effects
    }

    fn lose(&mut self, defer: &mut Option<CkptDefer>) -> (effects: Vec<PassEffect>)
        ensures
            ({
                let s = lost(old(self)@, deferral(*old(defer)));
                &&& final(self)@ == s.pass
                &&& deferral(*final(defer)) == s.deferral
                &&& effect_models(effects@) == s.effects
            }),
    {
        self.stage = Stage::Finished;
        forget_in(defer, self.shard.as_str());
        let mut effects: Vec<PassEffect> = Vec::new();
        effects.push(PassEffect::ReportLost);
        effects.push(PassEffect::TellLost);
        effects.push(PassEffect::Finish(PassOutcome::Stopped));
        assert(effect_models(effects@) =~= lost(old(self)@, None).effects);
        effects
    }

    fn complete(&mut self, defer: &mut Option<CkptDefer>) -> (effects: Vec<PassEffect>)
        ensures
            ({
                let s = completed(old(self)@, deferral(*old(defer)));
                &&& final(self)@ == s.pass
                &&& deferral(*final(defer)) == s.deferral
                &&& effect_models(effects@) == s.effects
            }),
    {
        self.stage = Stage::Finished;
        forget_in(defer, self.shard.as_str());
        let mut effects: Vec<PassEffect> = Vec::new();
        effects.push(PassEffect::TellEnded);
        effects.push(PassEffect::MarkComplete(self.counter));
        effects.push(PassEffect::ReportEnd);
        effects.push(PassEffect::Finish(PassOutcome::Ended));
        assert(effect_models(effects@) =~= completed(old(self)@, None).effects);
        effects
    }

    fn end(&mut self, defer: &mut Option<CkptDefer>) -> (effects: Vec<PassEffect>)
        ensures
            ({
                let s = ending(old(self)@, deferral(*old(defer)));
                &&& final(self)@ == s.pass
                &&& deferral(*final(defer)) == s.deferral
                &&& effect_models(effects@) == s.effects
            }),
    {
        let pending = match defer {
            Some(d) => d.take_pending(self.shard.as_str()),
            None => None,
        };
        match pending {
            Some(seq) => {
                let mut effects: Vec<PassEffect> = Vec::new();
                effects.push(PassEffect::Checkpoint(self.counter, seq));
                self.stage = Stage::Flushing;
                assert(effect_models(effects@) =~= ending(old(self)@, deferral(*old(defer))).effects);
                effects
            },
            None => {
                proof {
                    if let Some(d) = *old(defer) {
                        assert(d@.taken(self.shard@).forgotten(self.shard@) == d@.forgotten(
                            self.shard@,
                        )) by {
                            assert(d@.taken(self.shard@).shards.remove(self.shard@)
                                =~= d@.shards.remove(self.shard@));
                        }
                    }
                }
                self.complete(defer)
            },
        }
    }

    fn settle(&mut self, note: BatchNote, defer: &mut Option<CkptDefer>) -> (effects: Vec<
        PassEffect,
    >)
        ensures
            ({
                let s = settled(old(self)@, deferral(*old(defer)), note@);
                &&& final(self)@ == s.pass
                &&& deferral(*final(defer)) == s.deferral
                &&& effect_models(effects@) == s.effects
            }),
    {
        let ghost s = settled(self@, deferral(*defer), note@);
        let mut effects: Vec<PassEffect> = Vec::new();
        effects.push(PassEffect::ReportBatch(note.records, note.bytes, note.lag));
        let ghost report = effects@;
        self.after = Some(note.last.clone());
        self.stage = Stage::Fetching;
        if note.end {
            let mut more = self.end(defer);
            let ghost tail = more@;
            effects.append(&mut more);
            assert(effect_models(effects@) =~= effect_models(report) + effect_models(tail));
            assert(effect_models(effects@) =~= s.effects);
        } else {
            effects.push(PassEffect::Fetch(Some(note.last)));
            assert(effect_models(effects@) =~= s.effects);
        }
        effects
    }

    /// Advance the pass by one event.
    pub fn step(&mut self, event: PassEvent, defer: &mut Option<CkptDefer>, now_ns: u64) -> (effects:
        Vec<PassEffect>)
        ensures
            ({
                let s = pass_step(old(self)@, deferral(*old(defer)), event@, now_ns);
                &&& final(self)@ == s.pass
                &&& deferral(*final(defer)) == s.deferral
                &&& effect_models(effects@) == s.effects
            }),
    {
        let ghost s = pass_step(self@, deferral(*defer), event@, now_ns);
        let mut stage = Stage::Finished;
        std::mem::swap(&mut stage, &mut self.stage);
        match (stage, event) {
            (Stage::Fetching, PassEvent::Fetched(b)) => {
                if b.records.len() > 0 {
                    let note = BatchNote {
                        last: b.records[b.records.len() - 1].seq.clone(),
                        records: b.records.len() as u64,
                        bytes: payload_bytes(&b.records),
                        lag: b.millis_behind_latest,
                        end: b.shard_end,
                    };
                    self.delivered_any = true;
                    self.stage = Stage::Delivering(note);
                    let mut effects: Vec<PassEffect> = Vec::new();
                    effects.push(PassEffect::Deliver);
                    assert(effect_models(effects@) =~= s.effects);
                    assert(note@ == note_of(b@));
                    effects
                } else if b.shard_end {
                    self.stage = Stage::Fetching;
                    self.end(defer)
                } else if self.delivered_any {
                    self.finish(PassOutcome::Active)
                } else {
                    self.finish(PassOutcome::Idle)
                }
            },
            (Stage::Fetching, PassEvent::FetchFailed) => self.finish(PassOutcome::Stopped),
            (Stage::Delivering(note), PassEvent::Delivered(ack)) => {
                match ack {
                    None => self.settle(note, defer),
                    Some(ack) => {
                        let due: Option<String> = match defer {
                            None => Some(ack),
                            Some(d) => d.record_ack(self.shard.as_str(), ack.as_str(), now_ns),
                        };
                        match due {
                            Some(seq) => {
                                self.stage = Stage::Persisting(note, now_ns);
                                let mut effects: Vec<PassEffect> = Vec::new();
                                effects.push(PassEffect::Checkpoint(self.counter, seq));
                                assert(effect_models(effects@) =~= s.effects);
                                effects
                            },
                            None => self.settle(note, defer),
                        }
                    },
                }
            },
            (Stage::Delivering(_), PassEvent::DeliveryFailed) => {
                forget_in(defer, self.shard.as_str());
                self.finish(PassOutcome::Stopped)
            },
            (Stage::Persisting(note, acked_at), PassEvent::Persisted(c)) => {
                self.counter = c;
                match defer {
                    Some(d) => d.persisted(self.shard.as_str(), acked_at),
                    None => {},
                }
                self.settle(note, defer)
            },
            (Stage::Flushing, PassEvent::Persisted(c)) => {
                self.counter = c;
                self.complete(defer)
            },
            (Stage::Persisting(_, _), PassEvent::PersistFailed) => self.lose(defer),
            (Stage::Flushing, PassEvent::PersistFailed) => self.lose(defer),
            (other, _) => {
                self.stage = other;
                let effects: Vec<PassEffect> = Vec::new();
                assert(effect_models(effects@) =~= s.effects);
                effects
            },
        }
    }
}

/// What is known of the acknowledgements of a pass.
pub struct AckModel {
    /// The last position that was acknowledged.
    pub last_ack: Option<Seq<char>>,
    /// The last position that was written as a checkpoint.
    pub durable: Option<Seq<char>>,
    /// The position that was last handed out to be written.
    pub in_flight: Option<Seq<char>>,
}

/// The acknowledgements after a step.
pub open spec fn ack_step(a: AckModel, m: PassModel, e: EventModel, effects: Seq<EffectModel>) -> AckModel {
    AckModel {
        last_ack: match (m.stage, e) {
            (StageModel::Delivering(_), EventModel::Delivered(Some(ack))) => Some(ack),
            _ => a.last_ack,
        },
        durable: match (m.stage, e) {
            (StageModel::Persisting(_, _), EventModel::Persisted(_)) => a.in_flight,
            (StageModel::Flushing, EventModel::Persisted(_)) => a.in_flight,
            _ => a.durable,
        },
        in_flight: if effects.len() > 0 {
            match effects.last() {
                EffectModel::Checkpoint(_, seq) => Some(seq),
                _ => a.in_flight,
            }
        } else {
            a.in_flight
        },
    }
}

/// The state of a pass after a series of events, each at its time.
pub struct TraceModel {
    pub pass: PassModel,
    pub deferral: Option<Deferral>,
    pub effects: Seq<EffectModel>,
    pub acks: AckModel,
}

/// The trace of a pass: all of its effects, in order.
pub open spec fn pass_trace(
    m: PassModel,
    d: Option<Deferral>,
    a: AckModel,
    events: Seq<(EventModel, u64)>,
) -> TraceModel
    decreases events.len(),
{
    if events.len() == 0 {
        TraceModel { pass: m, deferral: d, effects: Seq::empty(), acks: a }
    } else {
        let t = pass_trace(m, d, a, events.drop_last());
        let (e, now) = events.last();
        let s = pass_step(t.pass, t.deferral, e, now);
        TraceModel {
            pass: s.pass,
            deferral: s.deferral,
            effects: t.effects + s.effects,
            acks: ack_step(t.acks, t.pass, e, s.effects),
        }
    }
}

/// A pass that has just started: the position that is pending counts as
/// acknowledged.
pub open spec fn fresh_acks(d: Option<Deferral>, shard: Seq<char>) -> AckModel {
    AckModel { last_ack: pending_of(d, shard), durable: None, in_flight: None }
}

/// The last acknowledgement is durable, pending, or being written.
pub open spec fn acks_are_kept(m: PassModel, d: Option<Deferral>, a: AckModel) -> bool {
    let pending = pending_of(d, m.shard);
    match m.stage {
        StageModel::Fetching | StageModel::Delivering(_) => {
            &&& a.last_ack is Some ==> a.durable == a.last_ack || pending == a.last_ack
            &&& pending is Some ==> pending == a.last_ack
        },
        StageModel::Persisting(_, _) => {
            &&& a.last_ack is Some
            &&& a.in_flight == a.last_ack
            &&& d is Some ==> pending == a.last_ack
        },
        StageModel::Flushing => a.last_ack is Some && a.in_flight == a.last_ack && pending is None,
        StageModel::Finished => true,
    }
}

proof fn lemma_ending(m: PassModel, d: Option<Deferral>, a: AckModel)
    requires
        a.last_ack is Some ==> a.durable == a.last_ack || pending_of(d, m.shard) == a.last_ack,
        pending_of(d, m.shard) is Some ==> pending_of(d, m.shard) == a.last_ack,
    ensures
        ({
            let s = ending(m, d);
            &&& s.effects.len() > 0
            &&& s.pass.shard == m.shard
            &&& s.pass.stage is Flushing ==> s.effects == seq![
                EffectModel::Checkpoint(m.counter, a.last_ack->0),
            ] && a.last_ack is Some && pending_of(s.deferral, m.shard) is None
            &&& !(s.pass.stage is Flushing) ==> s.pass.stage is Finished && (a.last_ack is Some
                ==> a.durable == a.last_ack) && !(s.effects.last() is Checkpoint)
        }),
{
}

proof fn lemma_step_keeps_acks(m: PassModel, d: Option<Deferral>, a: AckModel, e: EventModel, now: u64)
    requires
        acks_are_kept(m, d, a),
    ensures
        ({
            let s = pass_step(m, d, e, now);
            let b = ack_step(a, m, e, s.effects);
            &&& s.pass.shard == m.shard
            &&& acks_are_kept(s.pass, s.deferral, b)
            &&& (exists|i: int|
                0 <= i < s.effects.len() && #[trigger] s.effects[i] is MarkComplete) ==> (
            b.last_ack is Some ==> b.durable == b.last_ack)
        }),
{
    let s = pass_step(m, d, e, now);
    let b = ack_step(a, m, e, s.effects);
    match (m.stage, e) {
        (StageModel::Fetching, EventModel::Fetched(batch)) => {
            if batch.records.len() == 0 && batch.shard_end {
                lemma_ending(m, d, a);
            }
        },
        (StageModel::Delivering(n), EventModel::Delivered(ack)) => {
            let next = PassModel { after: Some(n.last), stage: StageModel::Fetching, ..m };
            match (ack, d) {
                (None, _) => {
                    if n.end {
                        lemma_ending(next, d, a);
                    }
                },
                (Some(x), Some(dd)) => {
                    let acked = Some(dd.acked(m.shard, x, now));
                    if !dd.is_due(m.shard, now) && n.end {
                        lemma_ending(next, acked, AckModel { last_ack: Some(x), ..a });
                    }
                },
                _ => {},
            }
        },
        (StageModel::Persisting(n, at), EventModel::Persisted(c)) => {
            let next = PassModel {
                counter: c,
                after: Some(n.last),
                stage: StageModel::Fetching,
                ..m
            };
            let saved = match d {
                Some(x) => Some(x.saved(m.shard, at)),
                None => None,
            };
            if n.end {
                lemma_ending(next, saved, AckModel { durable: a.in_flight, ..a });
            }
        },
        _ => {},
    }
}

/// When a pass marks its shard complete, the last position that was ever
/// acknowledged is durable: whatever was pending has been flushed first.
pub proof fn law_completion_follows_the_flush(
    m: PassModel,
    d: Option<Deferral>,
    events: Seq<(EventModel, u64)>,
)
    requires
        m.stage is Fetching,
        events.len() > 0,
    ensures
        ({
            let before = pass_trace(m, d, fresh_acks(d, m.shard), events.drop_last());
            let (e, now) = events.last();
            let s = pass_step(before.pass, before.deferral, e, now);
            let after = pass_trace(m, d, fresh_acks(d, m.shard), events);
            (exists|i: int| 0 <= i < s.effects.len() && #[trigger] s.effects[i] is MarkComplete) ==> (
            after.acks.last_ack is Some ==> after.acks.durable == after.acks.last_ack)
        }),
{
    lemma_trace_keeps_acks(m, d, events.drop_last());
    let before = pass_trace(m, d, fresh_acks(d, m.shard), events.drop_last());
    let (e, now) = events.last();
    lemma_step_keeps_acks(before.pass, before.deferral, before.acks, e, now);
}

proof fn lemma_trace_keeps_acks(m: PassModel, d: Option<Deferral>, events: Seq<(EventModel, u64)>)
    requires
        m.stage is Fetching,
    ensures
        ({
            let t = pass_trace(m, d, fresh_acks(d, m.shard), events);
            acks_are_kept(t.pass, t.deferral, t.acks) && t.pass.shard == m.shard
        }),
    decreases events.len(),
{
    if events.len() > 0 {
        lemma_trace_keeps_acks(m, d, events.drop_last());
        let before = pass_trace(m, d, fresh_acks(d, m.shard), events.drop_last());
        let (e, now) = events.last();
        lemma_step_keeps_acks(before.pass, before.deferral, before.acks, e, now);
    }
}

/// `seq` was acknowledged in the course of these events, or pending before.
pub open spec fn was_acked(
    d: Option<Deferral>,
    shard: Seq<char>,
    events: Seq<(EventModel, u64)>,
    seq: Seq<char>,
) -> bool {
    ||| pending_of(d, shard) == Some(seq)
    ||| exists|i: int|
        0 <= i < events.len() && (#[trigger] events[i]).0 == EventModel::Delivered(Some(seq))
}

proof fn lemma_acked_longer(
    d: Option<Deferral>,
    shard: Seq<char>,
    events: Seq<(EventModel, u64)>,
    seq: Seq<char>,
)
    requires
        events.len() > 0,
        was_acked(d, shard, events.drop_last(), seq),
    ensures
        was_acked(d, shard, events, seq),
{
    if pending_of(d, shard) != Some(seq) {
        let i = choose|i: int|
            0 <= i < events.drop_last().len() && (#[trigger] events.drop_last()[i]).0
                == EventModel::Delivered(Some(seq));
        assert(events[i].0 == EventModel::Delivered(Some(seq)));
    }
}

/// Only positions that were acknowledged are ever written as checkpoints, so a
/// record that was not acknowledged is redelivered, never lost.
pub proof fn law_checkpoints_only_what_was_acknowledged(
    m: PassModel,
    d: Option<Deferral>,
    events: Seq<(EventModel, u64)>,
)
    requires
        m.stage is Fetching,
    ensures
        ({
            let t = pass_trace(m, d, fresh_acks(d, m.shard), events);
            &&& forall|i: int|
                0 <= i < t.effects.len() ==> (#[trigger] t.effects[i] matches EffectModel::Checkpoint(
                    _,
                    seq,
                ) ==> was_acked(d, m.shard, events, seq))
            &&& pending_of(t.deferral, m.shard) is Some ==> was_acked(
                d,
                m.shard,
                events,
                pending_of(t.deferral, m.shard)->0,
            )
            &&& t.pass.shard == m.shard
        }),
    decreases events.len(),
{
    if events.len() > 0 {
        let rest = events.drop_last();
        law_checkpoints_only_what_was_acknowledged(m, d, rest);
        let before = pass_trace(m, d, fresh_acks(d, m.shard), rest);
        let (e, now) = events.last();
        assert(events[events.len() - 1] == events.last());
        let s = pass_step(before.pass, before.deferral, e, now);
        let pending = pending_of(before.deferral, m.shard);
        if pending is Some {
            lemma_acked_longer(d, m.shard, events, pending->0);
        }
        let t = pass_trace(m, d, fresh_acks(d, m.shard), events);
        assert forall|i: int| 0 <= i < t.effects.len() implies (
        #[trigger] t.effects[i] matches EffectModel::Checkpoint(_, seq) ==> was_acked(
            d,
            m.shard,
            events,
            seq,
        )) by {
            if let EffectModel::Checkpoint(c, seq) = t.effects[i] {
                if i < before.effects.len() {
                    assert(before.effects[i] == t.effects[i]);
                    lemma_acked_longer(d, m.shard, events, seq);
                } else {
                    let j = i - before.effects.len();
                    assert(s.effects[j] == EffectModel::Checkpoint(c, seq));
                    lemma_step_checkpoints(before.pass, before.deferral, e, now, j);
                }
            }
        }
        lemma_step_pending(before.pass, before.deferral, e, now);
    }
}

proof fn lemma_step_checkpoints(m: PassModel, d: Option<Deferral>, e: EventModel, now: u64, j: int)
    requires
        0 <= j < pass_step(m, d, e, now).effects.len(),
        pass_step(m, d, e, now).effects[j] is Checkpoint,
    ensures
        ({
            let seq = pass_step(m, d, e, now).effects[j]->Checkpoint_1;
            e == EventModel::Delivered(Some(seq)) || pending_of(d, m.shard) == Some(seq)
        }),
{
}

proof fn lemma_step_pending(m: PassModel, d: Option<Deferral>, e: EventModel, now: u64)
    ensures
        ({
            let s = pass_step(m, d, e, now);
            let p = pending_of(s.deferral, m.shard);
            &&& s.pass.shard == m.shard
            &&& p is Some ==> e == EventModel::Delivered(p) || p == pending_of(d, m.shard)
        }),
{
}

/// A pass reads on right after the last record of the batch that it delivered,
/// so that nothing is skipped and nothing is read twice.
pub proof fn law_reads_on_after_the_last_record(
    m: PassModel,
    d: Option<Deferral>,
    e: EventModel,
    now: u64,
    i: int,
)
    requires
        0 <= i < pass_step(m, d, e, now).effects.len(),
        pass_step(m, d, e, now).effects[i] is Fetch,
    ensures
        ({
            let s = pass_step(m, d, e, now);
            let n = match m.stage {
                StageModel::Delivering(n) => n,
                StageModel::Persisting(n, _) => n,
                _ => arbitrary(),
            };
            &&& m.stage is Delivering || m.stage is Persisting
            &&& s.effects[i] == EffectModel::Fetch(Some(n.last))
            &&& s.pass.after == Some(n.last)
            &&& s.pass.stage is Fetching
            &&& !n.end
        }),
{
}

/// Every conditional write carries the counter that the lease had after the
/// write before it: no write of a pass can be refused because of another.
pub proof fn law_writes_carry_the_current_counter(
    m: PassModel,
    d: Option<Deferral>,
    e: EventModel,
    now: u64,
    i: int,
)
    requires
        0 <= i < pass_step(m, d, e, now).effects.len(),
    ensures
        ({
            let s = pass_step(m, d, e, now);
            &&& s.effects[i] matches EffectModel::Checkpoint(c, _) ==> c == s.pass.counter
            &&& s.effects[i] matches EffectModel::MarkComplete(c) ==> c == s.pass.counter
            &&& (match (m.stage, e) {
                (StageModel::Persisting(_, _), EventModel::Persisted(c)) => s.pass.counter == c,
                (StageModel::Flushing, EventModel::Persisted(c)) => s.pass.counter == c,
                _ => s.pass.counter == m.counter,
            })
        }),
{
}

/// A refused checkpoint means that the lease is lost: the consumer is told,
/// nothing stays pending, and the pass stops without completing the shard.
pub proof fn law_a_lost_lease_stops_the_pass(m: PassModel, d: Option<Deferral>, now: u64)
    requires
        m.stage is Persisting || m.stage is Flushing,
    ensures
        ({
            let s = pass_step(m, d, EventModel::PersistFailed, now);
            &&& s.effects == seq![
                EffectModel::ReportLost,
                EffectModel::TellLost,
                EffectModel::Finish(PassOutcome::Stopped),
            ]
            &&& pending_of(s.deferral, m.shard) is None
            &&& s.pass.stage is Finished
        }),
{
}

/// A pass that is over does nothing more.
pub proof fn law_a_finished_pass_is_inert(m: PassModel, d: Option<Deferral>, e: EventModel, now: u64)
    requires
        m.stage is Finished,
    ensures
        pass_step(m, d, e, now) == (StepModel { pass: m, deferral: d, effects: Seq::empty() }),
{
}

/// A pass touches what is pending of its own shard only.
pub proof fn law_a_pass_leaves_other_shards_alone(
    m: PassModel,
    d: Deferral,
    e: EventModel,
    now: u64,
    other: Seq<char>,
)
    requires
        other != m.shard,
    ensures
        ({
            let s = pass_step(m, Some(d), e, now);
            &&& s.deferral is Some
            &&& (s.deferral->0).shards.contains_key(other) == d.shards.contains_key(other)
            &&& d.shards.contains_key(other) ==> (s.deferral->0).shards[other] == d.shards[other]
        }),
{
}

/// The bytes of the first `n` records.
pub open spec fn bytes_before(records: Seq<Record>, n: int) -> int
    decreases n,
{
    if n <= 0 {
        0
    } else {
        bytes_before(records, n - 1) + records[n - 1].data@.len()
    }
}

proof fn lemma_bytes(records: Seq<Record>, n: int)
    requires
        0 <= n <= records.len(),
    ensures
        payload(scheduler::record_models(records).take(n)) == bytes_before(records, n),
        bytes_before(records, n) >= 0,
    decreases n,
{
    let t = scheduler::record_models(records);
    if n > 0 {
        lemma_bytes(records, n - 1);
        assert(t.take(n).drop_last() =~= t.take(n - 1));
        assert(t.take(n).last() == records[n - 1]@);
    }
}

/// What the pass does with an answer to a read, and with what the consumer says
/// of it. A batch with records is delivered. If nothing of it is acknowledged, it
/// is reported, with the number of its records and bytes, and the shard is read
/// on behind its last record, or ended if the batch was its last. An empty batch
/// ends the pass, or the shard.
pub proof fn law_what_is_read_is_delivered_and_reported(
    m: PassModel,
    d: Option<Deferral>,
    b: RecordBatch,
    now: u64,
    later: u64,
)
    requires
        m.stage is Fetching,
        pending_of(d, m.shard) is None,
    ensures
        ({
            let read = pass_step(m, d, EventModel::Fetched(b@), now);
            let done = pass_step(read.pass, read.deferral, EventModel::Delivered(None), later);
            let bytes = bytes_before(b.records@, b.records@.len() as int);
            let ended = seq![
                EffectModel::TellEnded,
                EffectModel::MarkComplete(m.counter),
                EffectModel::ReportEnd,
                EffectModel::Finish(PassOutcome::Ended),
            ];
            if b.records@.len() == 0 {
                read.effects == (if b.shard_end {
                    ended
                } else if m.delivered_any {
                    seq![EffectModel::Finish(PassOutcome::Active)]
                } else {
                    seq![EffectModel::Finish(PassOutcome::Idle)]
                })
            } else {
                let report = EffectModel::ReportBatch(
                    b.records.len() as u64,
                    if bytes <= u64::MAX {
                        bytes as u64
                    } else {
                        u64::MAX
                    },
                    b.millis_behind_latest,
                );
                let last = b.records@[b.records@.len() - 1].seq@;
                &&& read.effects == seq![EffectModel::Deliver]
                &&& read.pass.delivered_any
                &&& read.deferral == d
                &&& !b.shard_end ==> done.effects == seq![report, EffectModel::Fetch(Some(last))]
                    && done.pass.after == Some(last) && done.pass.delivered_any && done.deferral == d
                    && done.pass.stage is Fetching
                &&& b.shard_end ==> done.effects == seq![report] + ended
            }
        }),
{
    let n = b.records@.len() as int;
    lemma_bytes(b.records@, n);
    assert(b@.records.take(n) =~= b@.records);
    let read = pass_step(m, d, EventModel::Fetched(b@), now);
    let done = pass_step(read.pass, read.deferral, EventModel::Delivered(None), later);
    if n > 0 {
        let last = b.records@[n - 1].seq@;
        assert(b@.records.last() == b.records@[n - 1]@);
        let bytes = bytes_before(b.records@, n);
        let report = EffectModel::ReportBatch(
            b.records.len() as u64,
            if bytes <= u64::MAX {
                bytes as u64
            } else {
                u64::MAX
            },
            b.millis_behind_latest,
        );
        assert(b@.records.len() as u64 == b.records.len() as u64);
        if !b.shard_end {
            assert(done.effects =~= seq![report, EffectModel::Fetch(Some(last))]);
        }
    }
}

/// What becomes of an acknowledgement. Without deferral, or once it is due, it is
/// written as a checkpoint, on condition of the counter; when that is written,
/// nothing of the shard is pending, and the pass goes on as without one, with the
/// new counter. Before it is due, it is kept pending, and the pass goes on at
/// once.
pub proof fn law_an_acknowledgement_is_written_or_kept(
    m: PassModel,
    d: Option<Deferral>,
    n: NoteModel,
    ack: Seq<char>,
    now: u64,
    counter: u64,
    later: u64,
)
    requires
        m.stage == StageModel::Delivering(n),
    ensures
        ({
            let s = pass_step(m, d, EventModel::Delivered(Some(ack)), now);
            let t = pass_step(s.pass, s.deferral, EventModel::Persisted(counter), later);
            let report = EffectModel::ReportBatch(n.records, n.bytes, n.lag);
            let is_written = d is None || (d->0).is_due(m.shard, now);
            &&& is_written ==> {
                &&& s.effects == seq![EffectModel::Checkpoint(m.counter, ack)]
                &&& t.pass.counter == counter
                &&& pending_of(t.deferral, m.shard) is None
                &&& !n.end ==> t.effects == seq![report, EffectModel::Fetch(Some(n.last))]
                &&& n.end ==> t.effects == seq![
                    report,
                    EffectModel::TellEnded,
                    EffectModel::MarkComplete(counter),
                    EffectModel::ReportEnd,
                    EffectModel::Finish(PassOutcome::Ended),
                ]
                &&& !n.end && d is Some ==> (t.deferral->0).shards.contains_key(m.shard) && (
                t.deferral->0).shards[m.shard].last_persist == now
            }
            &&& !is_written && !n.end ==> {
                &&& s.effects == seq![report, EffectModel::Fetch(Some(n.last))]
                &&& pending_of(s.deferral, m.shard) == Some(ack)
                &&& s.pass.counter == m.counter
            }
            &&& !is_written && n.end ==> s.effects == seq![
                report,
                EffectModel::Checkpoint(m.counter, ack),
            ]
        }),
{
    let s = pass_step(m, d, EventModel::Delivered(Some(ack)), now);
    let t = pass_step(s.pass, s.deferral, EventModel::Persisted(counter), later);
    let report = EffectModel::ReportBatch(n.records, n.bytes, n.lag);
    if d is None || (d->0).is_due(m.shard, now) {
        if n.end {
            assert(t.effects =~= seq![
                report,
                EffectModel::TellEnded,
                EffectModel::MarkComplete(counter),
                EffectModel::ReportEnd,
                EffectModel::Finish(PassOutcome::Ended),
            ]);
        } else {
            assert(t.effects =~= seq![report, EffectModel::Fetch(Some(n.last))]);
        }
    } else if n.end {
        assert(s.effects =~= seq![report, EffectModel::Checkpoint(m.counter, ack)]);
    } else {
        assert(s.effects =~= seq![report, EffectModel::Fetch(Some(n.last))]);
    }
}

/// At the end of a shard, what is pending is written first, on condition of the
/// counter; then the consumer is told, and the shard is marked complete on
/// condition of the counter that the write left. A shard of which nothing is
/// pending is completed at once. Failures stop the pass, and what a failed
/// delivery left pending is dropped.
pub proof fn law_an_ended_shard_is_flushed_and_completed(
    m: PassModel,
    d: Option<Deferral>,
    b: Batch,
    n: NoteModel,
    now: u64,
    counter: u64,
    later: u64,
)
    requires
        m.stage is Fetching,
        b.records.len() == 0,
        b.shard_end,
    ensures
        ({
            let s = pass_step(m, d, EventModel::Fetched(b), now);
            let t = pass_step(s.pass, s.deferral, EventModel::Persisted(counter), later);
            if pending_of(d, m.shard) is Some {
                &&& s.effects == seq![EffectModel::Checkpoint(m.counter, pending_of(d, m.shard)->0)]
                &&& t.effects == seq![
                    EffectModel::TellEnded,
                    EffectModel::MarkComplete(counter),
                    EffectModel::ReportEnd,
                    EffectModel::Finish(PassOutcome::Ended),
                ]
                &&& pending_of(t.deferral, m.shard) is None
            } else {
                &&& s.effects == seq![
                    EffectModel::TellEnded,
                    EffectModel::MarkComplete(m.counter),
                    EffectModel::ReportEnd,
                    EffectModel::Finish(PassOutcome::Ended),
                ]
                &&& pending_of(s.deferral, m.shard) is None
            }
        }),
        pass_step(m, d, EventModel::FetchFailed, now).effects == seq![
            EffectModel::Finish(PassOutcome::Stopped),
        ],
        pass_step(m, d, EventModel::FetchFailed, now).deferral == d,
        ({
            let s = pass_step(
                PassModel { stage: StageModel::Delivering(n), ..m },
                d,
                EventModel::DeliveryFailed,
                now,
            );
            s.effects == seq![EffectModel::Finish(PassOutcome::Stopped)] && pending_of(
                s.deferral,
                m.shard,
            ) is None
        }),
{
}

/// Effects and events are what they stand for, with their own texts and numbers,
/// in order.
pub proof fn law_effects_and_events_are_as_they_stand(s: Seq<PassEffect>, i: int, e: PassEvent)
    requires
        0 <= i < s.len(),
    ensures
        effect_models(s).len() == s.len(),
        match s[i] {
            PassEffect::Fetch(None) => effect_models(s)[i] == EffectModel::Fetch(None),
            PassEffect::Fetch(Some(a)) => effect_models(s)[i] == EffectModel::Fetch(Some(a@)),
            PassEffect::Deliver => effect_models(s)[i] is Deliver,
            PassEffect::Checkpoint(c, a) => effect_models(s)[i] == EffectModel::Checkpoint(c, a@),
            PassEffect::ReportBatch(r, b, l) => effect_models(s)[i] == EffectModel::ReportBatch(
                r,
                b,
                l,
            ),
            PassEffect::ReportLost => effect_models(s)[i] is ReportLost,
            PassEffect::TellLost => effect_models(s)[i] is TellLost,
            PassEffect::TellEnded => effect_models(s)[i] is TellEnded,
            PassEffect::MarkComplete(c) => effect_models(s)[i] == EffectModel::MarkComplete(c),
            PassEffect::ReportEnd => effect_models(s)[i] is ReportEnd,
            PassEffect::Finish(o) => effect_models(s)[i] == EffectModel::Finish(o),
        },
        match e {
            PassEvent::Fetched(b) => e@ == EventModel::Fetched(b@) && b@.records.len()
                == b.records@.len() && b@.shard_end == b.shard_end && b@.lag
                == b.millis_behind_latest,
            PassEvent::FetchFailed => e@ is FetchFailed,
            PassEvent::Delivered(None) => e@ == EventModel::Delivered(None),
            PassEvent::Delivered(Some(a)) => e@ == EventModel::Delivered(Some(a@)),
            PassEvent::DeliveryFailed => e@ is DeliveryFailed,
            PassEvent::Persisted(c) => e@ == EventModel::Persisted(c),
            PassEvent::PersistFailed => e@ is PersistFailed,
        },
{
}

} // verus!
