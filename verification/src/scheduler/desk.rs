//! The desk of the scheduler: every call that reads the stream, tells the
//! processor something or changes the lease table is made here, and noted in the
//! order in which it is made.

use vstd::prelude::*;

use crate::collections;
use crate::leader::{ShardMeta, ShardNode};
use crate::leader;
use crate::scheduler::{
    Batch, Event, LeaseStore, Progress, Record, RecordBatch, RecordModel, RecordProcessor,
    SequenceNumber, ShardId, StreamSource,
};
use crate::scheduler;

verus! {

/// A call of the scheduler.
pub enum Call {
    /// The processor is told that reading of a shard starts.
    Start(ShardNode),
    /// A shard is read after a position, and returns a batch.
    Read(Seq<char>, Option<Seq<char>>, Batch),
    /// The processor is handed records of a shard.
    Process(Seq<char>, Seq<RecordModel>),
    /// A checkpoint of a shard is written.
    Checkpoint(Seq<char>, Seq<char>),
    /// The processor is told that a shard ended.
    End(Seq<char>),
    /// A shard is marked complete.
    Complete(Seq<char>),
}

/// What the processor is told by a call.
pub open spec fn told(c: Call) -> Seq<Event> {
    match c {
        Call::Start(n) => seq![Event::Initialize(n.id)],
        Call::Process(_, records) => seq![Event::Records(records)],
        Call::End(shard) => seq![Event::ShardEnded(shard)],
        _ => Seq::empty(),
    }
}

/// What the processor is told by a series of calls.
pub open spec fn heard(calls: Seq<Call>) -> Seq<Event>
    decreases calls.len(),
{
    if calls.len() == 0 {
        Seq::empty()
    } else {
        heard(calls.drop_last()) + told(calls.last())
    }
}

/// A stream and a lease table, and the calls that were made.
pub struct Desk<S: StreamSource, L: LeaseStore> {
    source: S,
    leases: L,
    calls: Ghost<Seq<Call>>,
}

impl<S: StreamSource, L: LeaseStore> Desk<S, L> {
    /// The stream.
    pub closed spec fn source(&self) -> S {
        self.source
    }

    /// The progress that the lease table holds.
    pub closed spec fn progress(&self) -> Progress {
        self.leases.progress()
    }

    /// The calls that were made so far, in order.
    pub closed spec fn calls(&self) -> Seq<Call> {
        self.calls@
    }

    /// A desk at which nothing was done yet.
    pub fn new(source: S, leases: L) -> (d: Self)
        ensures
            d.source() == source,
            d.progress() == leases.progress(),
            d.calls() == Seq::<Call>::empty(),
    {
        Desk { source, leases, calls: Ghost(Seq::empty()) }
    }

    /// Describe the shards of the stream.
    pub fn describe_shards(&self) -> (shards: Vec<ShardMeta>)
        ensures
            self.source().may_describe(leader::nodes(shards@)),
            self.source().closed_shards() matches Some(u) ==> forall|i: int|
                0 <= i < shards@.len() ==> u.contains((#[trigger] leader::nodes(shards@)[i]).id),
    {
        self.source.describe_shards()
    }

    /// Is `shard` fully processed?
    pub fn is_complete(&self, shard: &ShardId) -> (r: bool)
        ensures
            r == self.progress().completed.contains(shard@),
    {
        self.leases.is_complete(shard)
    }

    /// The checkpoint of `shard`, if it has one.
    pub fn last_checkpoint(&self, shard: &ShardId) -> (r: Option<SequenceNumber>)
        ensures
            collections::optional_text(r) == self.progress().checkpoint_of(shard@),
    {
        self.leases.last_checkpoint(shard)
    }

    /// Tell the processor that reading of a shard starts.
    pub fn start<P: RecordProcessor>(&mut self, processor: &mut P, meta: &ShardMeta)
        ensures
            final(self).source() == old(self).source(),
            final(self).progress() == old(self).progress(),
            final(self).calls() == old(self).calls().push(Call::Start(meta@)),
            final(processor).history() == old(processor).history().push(
                Event::Initialize(meta@.id),
            ),
    {
        processor.initialize(&meta.id);
        self.calls = Ghost(self.calls@.push(Call::Start(meta@)));
    }

    /// Read `shard` after `after`.
    pub fn read(&mut self, shard: &ShardId, after: Option<SequenceNumber>) -> (batch: RecordBatch)
        ensures
            final(self).source() == old(self).source(),
            final(self).progress() == old(self).progress(),
            final(self).calls() == old(self).calls().push(
                Call::Read(shard@, collections::optional_text(after), batch@),
            ),
            old(self).source().may_read(shard@, collections::optional_text(after), batch@),
            batch@.records.len() > 0 ==> old(self).source().remaining(
                shard@,
                Some(batch@.records.last().seq),
            ) < old(self).source().remaining(shard@, collections::optional_text(after)),
            old(self).source().closed_shards() is Some && batch@.records.len() == 0
                ==> batch@.shard_end,
    {
        let ghost position = collections::optional_text(after);
        let batch = self.source.get_records(shard, after);
        self.calls = Ghost(self.calls@.push(Call::Read(shard@, position, batch@)));
        batch
    }

    /// Hand records of `shard` to the processor.
    pub fn process<P: RecordProcessor>(
        &mut self,
        processor: &mut P,
        shard: &ShardId,
        records: &[Record],
    )
        ensures
            final(self).source() == old(self).source(),
            final(self).progress() == old(self).progress(),
            final(self).calls() == old(self).calls().push(
                Call::Process(shard@, scheduler::record_models(records@)),
            ),
            final(processor).history() == old(processor).history().push(
                Event::Records(scheduler::record_models(records@)),
            ),
    {
        processor.process_records(records);
        self.calls =
        Ghost(self.calls@.push(Call::Process(shard@, scheduler::record_models(records@))));
    }

    /// Write a checkpoint of `shard`.
    pub fn checkpoint(&mut self, shard: &ShardId, seq: SequenceNumber)
        ensures
            final(self).source() == old(self).source(),
            final(self).calls() == old(self).calls().push(Call::Checkpoint(shard@, seq@)),
            final(self).progress() == (Progress {
                checkpoints: old(self).progress().checkpoints.insert(shard@, seq@),
                ..old(self).progress()
            }),
    {
        let ghost text = seq@;
        self.leases.checkpoint(shard, seq);
        self.calls = Ghost(self.calls@.push(Call::Checkpoint(shard@, text)));
    }

    /// Tell the processor that `shard` ended.
    pub fn end<P: RecordProcessor>(&mut self, processor: &mut P, shard: &ShardId)
        ensures
            final(self).source() == old(self).source(),
            final(self).progress() == old(self).progress(),
            final(self).calls() == old(self).calls().push(Call::End(shard@)),
            final(processor).history() == old(processor).history().push(Event::ShardEnded(shard@)),
    {
        processor.shard_ended(shard);
        self.calls = Ghost(self.calls@.push(Call::End(shard@)));
    }

    /// Mark `shard` complete.
    pub fn complete(&mut self, shard: &ShardId)
        ensures
            final(self).source() == old(self).source(),
            final(self).calls() == old(self).calls().push(Call::Complete(shard@)),
            final(self).progress() == (Progress {
                completed: old(self).progress().completed.insert(shard@),
                ..old(self).progress()
            }),
    {
        self.leases.mark_complete(shard);
        self.calls = Ghost(self.calls@.push(Call::Complete(shard@)));
    }
}

/// The processor hears of a shard when it starts and when it ends, and gets the
/// records that are processed; reads, checkpoints and completion it does not
/// hear of. What it hears comes in the order of the calls.
pub proof fn law_the_processor_hears_what_concerns_it(
    calls: Seq<Call>,
    n: ShardNode,
    shard: Seq<char>,
    records: Seq<RecordModel>,
    after: Option<Seq<char>>,
    seq: Seq<char>,
    b: Batch,
)
    ensures
        heard(Seq::empty()).len() == 0,
        heard(calls.push(Call::Start(n))) == heard(calls).push(Event::Initialize(n.id)),
        heard(calls.push(Call::Process(shard, records))) == heard(calls).push(
            Event::Records(records),
        ),
        heard(calls.push(Call::End(shard))) == heard(calls).push(Event::ShardEnded(shard)),
        heard(calls.push(Call::Read(shard, after, b))) == heard(calls),
        heard(calls.push(Call::Checkpoint(shard, seq))) == heard(calls),
        heard(calls.push(Call::Complete(shard))) == heard(calls),
{
    assert(calls.push(Call::Start(n)).drop_last() =~= calls);
    assert(calls.push(Call::Process(shard, records)).drop_last() =~= calls);
    assert(calls.push(Call::End(shard)).drop_last() =~= calls);
    assert(calls.push(Call::Read(shard, after, b)).drop_last() =~= calls);
    assert(calls.push(Call::Checkpoint(shard, seq)).drop_last() =~= calls);
    assert(calls.push(Call::Complete(shard)).drop_last() =~= calls);
    assert(heard(calls) + seq![Event::Initialize(n.id)] =~= heard(calls).push(
        Event::Initialize(n.id),
    ));
    assert(heard(calls) + seq![Event::Records(records)] =~= heard(calls).push(
        Event::Records(records),
    ));
    assert(heard(calls) + seq![Event::ShardEnded(shard)] =~= heard(calls).push(
        Event::ShardEnded(shard),
    ));
    assert(heard(calls) + Seq::<Event>::empty() =~= heard(calls));
}

} // verus!
